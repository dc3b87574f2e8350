//! Key-value automata: compiling a configuration into key-value states,
//! joining leaves, and building the blob of an automaton from its states.
//!
//! The byte automata of the patterns are compiled elsewhere; here each
//! pattern comes as the index of its first byte state and the index of its
//! automaton (the tag that the automaton's accepting states carry).
use vstd::prelude::*;

use crate::ancha::Anchize;
use crate::blob::state::{prepare_fits, prepared, U8BuildConfig};
use crate::char_nfa::State;
use crate::my_ancha::automaton::{AutomatonAnchize, AutomatonContext, AutomatonOrigin};
use crate::ancha::bdd::BddOrigin;
use crate::my_ancha::keyval_state::{LeafOrigin, StateOrigin, TranOrigin};
use crate::my_ancha::state::U8StatePrepared;

verus! {

/// The index of a key-value state.
#[derive(Clone, Copy, PartialEq, Eq, Structural, Hash, Debug)]
pub struct StateIx(pub usize);

/// The index of a byte automaton (of a regular expression).
#[derive(Clone, Copy, Debug)]
pub struct DfaIx(pub usize);

/// The index of a state of the byte automata.
#[derive(Clone, Copy, Debug)]
pub struct DfaStateIx(pub usize);

/// A set of indices, in a hashbrown set.
#[verifier::external_body]
pub struct IxSet {
    set: hashbrown::HashSet<usize>,
}

/// What an `IxSet` holds.
pub uninterp spec fn ix_set(s: IxSet) -> Set<usize>;

/// A set of byte strings, in a hashbrown set.
#[verifier::external_body]
pub struct BytesSet {
    set: hashbrown::HashSet<Vec<u8>>,
}

/// What a `BytesSet` holds, each byte string by its bytes.
pub uninterp spec fn bytes_set(s: BytesSet) -> Set<Seq<u8>>;

impl IxSet {
    /// `hashbrown::HashSet::new`: a set that holds nothing.
    #[verifier::external_body]
    fn new() -> (r: Self)
        ensures
            ix_set(r) == Set::<usize>::empty(),
    {
        IxSet { set: hashbrown::HashSet::new() }
    }

    /// `HashSet::insert`: the set holds `x` too.
    #[verifier::external_body]
    fn insert(&mut self, x: usize)
        ensures
            ix_set(*final(self)) == ix_set(*old(self)).insert(x),
    {
        self.set.insert(x);
    }

    /// `HashSet::into_iter`, collected: each element once, in an order that
    /// the set's hasher decides.
    #[verifier::external_body]
    fn into_vec(self) -> (r: Vec<usize>)
        ensures
            r@.no_duplicates(),
            r@.to_set() == ix_set(self),
    {
        self.set.into_iter().collect()
    }
}

impl BytesSet {
    /// `hashbrown::HashSet::new`: a set that holds nothing.
    #[verifier::external_body]
    fn new() -> (r: Self)
        ensures
            bytes_set(r) == Set::<Seq<u8>>::empty(),
    {
        BytesSet { set: hashbrown::HashSet::new() }
    }

    /// `HashSet::insert`: the set holds `x` too.
    #[verifier::external_body]
    fn insert(&mut self, x: Vec<u8>)
        ensures
            bytes_set(*final(self)) == bytes_set(*old(self)).insert(x@),
    {
        self.set.insert(x);
    }

    /// `HashSet::into_iter`, collected: each byte string once, in an order
    /// that the set's hasher decides.
    #[verifier::external_body]
    fn into_vec(self) -> (r: Vec<Vec<u8>>)
        ensures
            views(r@).no_duplicates(),
            views(r@).to_set() == bytes_set(self),
    {
        self.set.into_iter().collect()
    }
}

/// The states of the leaves.
pub open spec fn leaves_states(ls: Seq<LeafOrigin>) -> Set<usize> {
    Set::new(|x: usize| exists|i: int| 0 <= i < ls.len() && (#[trigger] ls[i]).states@.contains(x))
}

/// Byte strings, each by its bytes.
pub open spec fn views(s: Seq<Vec<u8>>) -> Seq<Seq<u8>> {
    s.map_values(|v: Vec<u8>| v@)
}

/// The gets (or the extensions) of a leaf.
pub open spec fn leaf_strings(l: LeafOrigin, gets: bool) -> Seq<Vec<u8>> {
    if gets {
        l.get_olds@
    } else {
        l.exts@
    }
}

/// The gets (or the extensions) of the leaves, each by its bytes.
pub open spec fn leaves_strings(ls: Seq<LeafOrigin>, gets: bool) -> Set<Seq<u8>> {
    Set::new(
        |x: Seq<u8>|
            exists|i: int, j: int|
                0 <= i < ls.len() && 0 <= j < leaf_strings(ls[i], gets).len() && (#[trigger] leaf_strings(ls[i], gets)[j])@ == x,
    )
}

/// Joins leaves: the states, gets and extensions of all of them, each once,
/// in no particular order.
pub fn join_leaves(targets: Vec<LeafOrigin>) -> (r: LeafOrigin)
    ensures
        r.states@.no_duplicates(),
        r.states@.to_set() == leaves_states(targets@),
        views(r.get_olds@).no_duplicates(),
        views(r.get_olds@).to_set() == leaves_strings(targets@, true),
        views(r.exts@).no_duplicates(),
        views(r.exts@).to_set() == leaves_strings(targets@, false),
{
    let ghost ls = targets@;
    let mut states = IxSet::new();
    let mut get_olds = BytesSet::new();
    let mut exts = BytesSet::new();
    let mut targets = targets;
    let mut k: usize = targets.len();
    while k > 0
        invariant
            k <= ls.len(),
            k == targets@.len(),
            targets@ == ls.take(k as int),
            ix_set(states) =~= leaves_states(ls.skip(k as int)),
            bytes_set(get_olds) =~= leaves_strings(ls.skip(k as int), true),
            bytes_set(exts) =~= leaves_strings(ls.skip(k as int), false),
        decreases k,
    {
        let ghost k0 = k;
        let target = targets.pop().unwrap();
        k = k - 1;
        proof {
            assert(target == ls[k as int]);
            assert(targets@ =~= ls.take(k as int));
        }
        let ghost st0 = ix_set(states);
        let ghost go0 = bytes_set(get_olds);
        let ghost ex0 = bytes_set(exts);
        let LeafOrigin { states: ts, get_olds: tg, exts: te } = target;
        let mut i: usize = 0;
        while i < ts.len()
            invariant
                i <= ts@.len(),
                ix_set(states) =~= st0.union(ts@.take(i as int).to_set()),
            decreases ts@.len() - i,
        {
            proof {
                assert(ts@.take(i + 1) =~= ts@.take(i as int).push(ts@[i as int]));
                ts@.take(i as int).lemma_push_to_set_commute(ts@[i as int]);
            }
            states.insert(ts[i]);
            i = i + 1;
        }
        let ghost tgv = tg@;
        let mut tg = tg;
        while tg.len() > 0
            invariant
                tgv.len() >= tg@.len(),
                tg@ == tgv.take(tg@.len() as int),
                bytes_set(get_olds) =~= go0.union(
                    views(tgv.skip(tg@.len() as int)).to_set(),
                ),
            decreases tg@.len(),
        {
            let ghost n0 = tg@.len();
            let x = tg.pop().unwrap();
            proof {
                assert(tg@ =~= tgv.take(n0 - 1));
                assert(views(tgv.skip(n0 - 1)) =~= seq![x@] + views(tgv.skip(
                    n0 as int,
                )));
                vstd::seq_lib::seq_to_set_distributes_over_add(
                    seq![x@],
                    views(tgv.skip(n0 as int)),
                );
                Seq::<Seq<u8>>::empty().lemma_push_to_set_commute(x@);
                assert(seq![x@] =~= Seq::<Seq<u8>>::empty().push(x@));
                assert(Seq::<Seq<u8>>::empty().to_set() =~= Set::<Seq<u8>>::empty());
            }
            get_olds.insert(x);
        }
        let ghost tev = te@;
        let mut te = te;
        while te.len() > 0
            invariant
                tev.len() >= te@.len(),
                te@ == tev.take(te@.len() as int),
                bytes_set(exts) =~= ex0.union(views(tev.skip(te@.len() as int)).to_set()),
            decreases te@.len(),
        {
            let ghost n0 = te@.len();
            let x = te.pop().unwrap();
            proof {
                assert(te@ =~= tev.take(n0 - 1));
                assert(views(tev.skip(n0 - 1)) =~= seq![x@] + views(tev.skip(
                    n0 as int,
                )));
                vstd::seq_lib::seq_to_set_distributes_over_add(
                    seq![x@],
                    views(tev.skip(n0 as int)),
                );
                Seq::<Seq<u8>>::empty().lemma_push_to_set_commute(x@);
                assert(seq![x@] =~= Seq::<Seq<u8>>::empty().push(x@));
                assert(Seq::<Seq<u8>>::empty().to_set() =~= Set::<Seq<u8>>::empty());
            }
            exts.insert(x);
        }
        proof {
            let l = ls[k as int];
            assert(ts@.take(ts@.len() as int) =~= ts@);
            assert(tgv.skip(0) =~= tgv);
            assert(tev.skip(0) =~= tev);
            assert(ls.skip(k as int) =~= seq![l] + ls.skip(k + 1));
            assert(leaves_states(ls.skip(k as int)) =~= st0.union(l.states@.to_set())) by {
                assert forall|x: usize| leaves_states(ls.skip(k as int)).contains(x) <==> st0.union(
                    l.states@.to_set(),
                ).contains(x) by {
                    if leaves_states(ls.skip(k as int)).contains(x) {
                        let i = choose|i: int|
                            0 <= i < ls.skip(k as int).len() && (#[trigger] ls.skip(k as int)[i]).states@.contains(x);
                        if i > 0 {
                            assert(ls.skip(k + 1)[i - 1] == ls.skip(k as int)[i]);
                        }
                    }
                    if st0.contains(x) {
                        let i = choose|i: int|
                            0 <= i < ls.skip(k + 1).len() && (#[trigger] ls.skip(k + 1)[i]).states@.contains(x);
                        assert(ls.skip(k as int)[i + 1] == ls.skip(k + 1)[i]);
                    }
                    if l.states@.to_set().contains(x) {
                        assert(ls.skip(k as int)[0] == l);
                    }
                }
            }
            assert(leaves_strings(ls.skip(k as int), true) =~= go0.union(views(tgv).to_set())) by {
                lemma_leaves_strings_step(ls, k as int, true);
            }
            assert(leaves_strings(ls.skip(k as int), false) =~= ex0.union(views(tev).to_set())) by {
                lemma_leaves_strings_step(ls, k as int, false);
            }
        }
    }
    proof {
        assert(ls.skip(0) =~= ls);
    }
    LeafOrigin { exts: exts.into_vec(), get_olds: get_olds.into_vec(), states: states.into_vec() }
}

proof fn lemma_leaves_strings_step(ls: Seq<LeafOrigin>, k: int, gets: bool)
    requires
        0 <= k < ls.len(),
    ensures
        leaves_strings(ls.skip(k), gets) =~= leaves_strings(ls.skip(k + 1), gets).union(
            views(leaf_strings(ls[k], gets)).to_set(),
        ),
{
    let l = ls[k];
    let part = leaf_strings(l, gets);
    let a = leaves_strings(ls.skip(k), gets);
    let b = leaves_strings(ls.skip(k + 1), gets);
    let c = views(part).to_set();
    assert forall|x: Seq<u8>| a.contains(x) <==> b.union(c).contains(x) by {
        if a.contains(x) {
            let (i, j) = choose|i: int, j: int|
                0 <= i < ls.skip(k).len() && 0 <= j < leaf_strings(ls.skip(k)[i], gets).len() && (#[trigger] leaf_strings(ls.skip(k)[i], gets)[j])@ == x;
            if i > 0 {
                assert(ls.skip(k + 1)[i - 1] == ls.skip(k)[i]);
            } else {
                assert(ls.skip(k)[0] == l);
                assert(views(part)[j] == x);
            }
        }
        if b.contains(x) {
            let (i, j) = choose|i: int, j: int|
                0 <= i < ls.skip(k + 1).len() && 0 <= j < leaf_strings(ls.skip(k + 1)[i], gets).len() && (#[trigger] leaf_strings(ls.skip(k + 1)[i], gets)[j])@ == x;
            assert(ls.skip(k)[i + 1] == ls.skip(k + 1)[i]);
        }
        if c.contains(x) {
            let j = choose|j: int| 0 <= j < part.len() && #[trigger] views(part)[j] == x;
            assert(ls.skip(k)[0] == l);
            assert(leaf_strings(ls.skip(k)[0], gets)[j]@ == x);
        }
    }
}

} // verus!

verus! {

/// Prepares the states of a byte automaton for their blob layout.
pub fn prepare_states<Cfg: U8BuildConfig>(states: &Vec<State>, cfg: &Cfg) -> (r: Vec<U8StatePrepared>)
    requires
        forall|i: int| 0 <= i < states@.len() ==> prepare_fits(#[trigger] states@[i], *cfg),
    ensures
        r@.len() == states@.len(),
        forall|i: int| 0 <= i < states@.len() ==> prepared(states@[i], *cfg, #[trigger] r@[i]),
{
    let mut r: Vec<U8StatePrepared> = Vec::new();
    let mut i: usize = 0;
    while i < states.len()
        invariant
            i <= states@.len(),
            r@.len() == i,
            forall|k: int| 0 <= k < states@.len() ==> prepare_fits(#[trigger] states@[k], *cfg),
            forall|j: int| 0 <= j < i ==> prepared(states@[j], *cfg, #[trigger] r@[j]),
        decreases states@.len() - i,
    {
        r.push(U8StatePrepared::prepare(&states[i], cfg));
        i = i + 1;
    }
    r
}

/// An automaton laid out in a blob, with where its states are.
pub struct Msg {
    pub owner: Vec<u8>,
    pub context: AutomatonContext,
}

impl Msg {
    /// The size of the blob.
    pub fn data_len(&self) -> (r: usize)
        ensures
            r == self.owner@.len(),
    {
        self.owner.len()
    }

    /// Lays out an automaton whose initial leaf is `init`.
    pub fn serialize(
        anchize: &AutomatonAnchize,
        kv_states: Vec<StateOrigin>,
        u8_states: Vec<U8StatePrepared>,
        init: LeafOrigin,
    ) -> (r: Msg)
        requires
            anchize.spec_end(
                AutomatonOrigin {
                    get_olds: init.get_olds,
                    exts: init.exts,
                    inits: init.states,
                    kv_states,
                    u8_states,
                },
                0,
            ) <= crate::ancha::max_blob(),
            forall|ctx: AutomatonContext|
                ctx.kvqptrs@.len() == kv_states@.len() && ctx.u8qptrs@.len() == u8_states@.len()
                    ==> #[trigger] anchize.spec_accepts(
                    AutomatonOrigin {
                        get_olds: init.get_olds,
                        exts: init.exts,
                        inits: init.states,
                        kv_states,
                        u8_states,
                    },
                    ctx,
                ),
        ensures
            ({
                let origin = AutomatonOrigin {
                    get_olds: init.get_olds,
                    exts: init.exts,
                    inits: init.states,
                    kv_states,
                    u8_states,
                };
                &&& r.owner@.len() == anchize.spec_end(origin, 0)
                &&& r.context.kvqptrs@ == anchize.kv_positions(origin, 0)
                &&& r.context.u8qptrs@ == anchize.u8_positions(origin, 0)
                &&& anchize.spec_holds(origin, r.context, r.owner@, 0)
            }),
    {
        let origin = AutomatonOrigin {
            get_olds: init.get_olds,
            exts: init.exts,
            inits: init.states,
            kv_states,
            u8_states,
        };
        let (owner, context) = anchize.build(&origin);
        Msg { owner, context }
    }
}

} // verus!

verus! {

/// A command of a configuration: a match, a labelled command, or a jump to
/// a label.
#[derive(Debug)]
pub enum Cmd {
    Match(Match),
    Label(String, Box<Cmd>),
    Goto(String),
}

/// A match: when each key's value matches its regular expression, run the
/// extensions and go on with the commands `then_cmds`.
#[derive(Debug)]
pub struct Match {
    pub when: Vec<(String, String)>,
    pub run: Vec<Vec<u8>>,
    pub then_cmds: Vec<Cmd>,
}

/// The fields of a command in a configuration.
#[derive(Clone, Copy, PartialEq, Eq, Structural, Debug)]
pub enum CmdKey {
    When,
    Run,
    Then,
    Goto,
    Label,
    Body,
}

/// Why the fields of a command make no command.
#[derive(Clone, Copy, PartialEq, Eq, Structural, Debug)]
pub enum CmdError {
    /// The field came twice.
    DuplicateField(CmdKey),
    /// A labelled command has no body.
    MissingBody,
    /// Not exactly one of `when`, `label` and `goto` came.
    ExactlyOne,
}

/// The fields of a command read so far.
pub struct CmdFields {
    pub when: Option<Vec<(String, String)>>,
    pub run: Option<Vec<Vec<u8>>>,
    pub then_cmds: Option<Vec<Cmd>>,
    pub goto: Option<String>,
    pub label: Option<String>,
    pub body: Option<Box<Cmd>>,
}

impl CmdFields {
    /// No field read yet.
    pub fn new() -> (r: Self)
        ensures
            r.when is None,
            r.run is None,
            r.then_cmds is None,
            r.goto is None,
            r.label is None,
            r.body is None,
    {
        CmdFields { when: None, run: None, then_cmds: None, goto: None, label: None, body: None }
    }

    /// Whether the field was read.
    pub open spec fn spec_has(&self, key: CmdKey) -> bool {
        match key {
            CmdKey::When => self.when is Some,
            CmdKey::Run => self.run is Some,
            CmdKey::Then => self.then_cmds is Some,
            CmdKey::Goto => self.goto is Some,
            CmdKey::Label => self.label is Some,
            CmdKey::Body => self.body is Some,
        }
    }

    /// Whether the field was read.
    pub fn has(&self, key: CmdKey) -> (r: bool)
        ensures
            r == self.spec_has(key),
    {
        match key {
            CmdKey::When => self.when.is_some(),
            CmdKey::Run => self.run.is_some(),
            CmdKey::Then => self.then_cmds.is_some(),
            CmdKey::Goto => self.goto.is_some(),
            CmdKey::Label => self.label.is_some(),
            CmdKey::Body => self.body.is_some(),
        }
    }

    /// A field may come once: a field read already is a duplicate.
    pub fn check_new(&self, key: CmdKey) -> (r: Result<(), CmdError>)
        ensures
            r == (if self.spec_has(key) {
                Err::<(), CmdError>(CmdError::DuplicateField(key))
            } else {
                Ok::<(), CmdError>(())
            }),
    {
        if self.has(key) {
            Err(CmdError::DuplicateField(key))
        } else {
            Ok(())
        }
    }

    /// Makes the command: a match where `when` came (with no run and no
    /// follow-up where they did not come), a jump where `goto` came, a
    /// labelled command where `label` and `body` came.
    pub fn finish(self) -> (r: Result<Cmd, CmdError>)
        ensures
            ({
                let (when, goto, label) = (self.when, self.goto, self.label);
                &&& (when is Some && goto is None && label is None) ==> (r matches Ok(Cmd::Match(m)) && Some(
                    m.when,
                ) == when && m.run@ == (match self.run {
                    Some(run) => run@,
                    None => Seq::<Vec<u8>>::empty(),
                }) && m.then_cmds@ == (match self.then_cmds {
                    Some(t) => t@,
                    None => Seq::<Cmd>::empty(),
                }))
                &&& (when is None && goto is Some && label is None) ==> r == Ok::<Cmd, CmdError>(
                    Cmd::Goto(goto->0),
                )
                &&& (when is None && goto is None && label is Some) ==> r == (match self.body {
                    Some(body) => Ok::<Cmd, CmdError>(Cmd::Label(label->0, body)),
                    None => Err::<Cmd, CmdError>(CmdError::MissingBody),
                })
                &&& !((when is Some && goto is None && label is None) || (when is None && goto is Some
                    && label is None) || (when is None && goto is None && label is Some)) ==> r == Err::<Cmd, CmdError>(CmdError::ExactlyOne)
            }),
    {
        let CmdFields { when, run, then_cmds, goto, label, body } = self;
        match (when, goto, label) {
            (Some(when), None, None) => {
                let run = match run {
                    Some(run) => run,
                    None => Vec::new(),
                };
                let then_cmds = match then_cmds {
                    Some(then_cmds) => then_cmds,
                    None => Vec::new(),
                };
                Ok(Cmd::Match(Match { when, run, then_cmds }))
            },
            (None, Some(goto), None) => Ok(Cmd::Goto(goto)),
            (None, None, Some(label)) => match body {
                Some(body) => Ok(Cmd::Label(label, body)),
                None => Err(CmdError::MissingBody),
            },
            _ => Err(CmdError::ExactlyOne),
        }
    }
}

} // verus!

verus! {

/// A leaf by its states, its keys to get and its extensions.
pub open spec fn lv(l: LeafOrigin) -> (Seq<usize>, Seq<Seq<u8>>, Seq<Seq<u8>>) {
    (l.states@, views(l.get_olds@), views(l.exts@))
}

/// The guards of a match: for each, its key, the first byte state of its
/// pattern and the pattern's automaton.
pub open spec fn when_view(w: Seq<(Vec<u8>, (usize, usize))>) -> Seq<(Seq<u8>, usize, usize)> {
    w.map_values(|e: (Vec<u8>, (usize, usize))| (e.0@, e.1.0, e.1.1))
}

/// A leaf that goes to state `st` and gets the value of `key`.
pub open spec fn go_leaf(st: int, key: Seq<u8>) -> (Seq<usize>, Seq<Seq<u8>>, Seq<Seq<u8>>) {
    (seq![st as usize], seq![key], Seq::empty())
}

/// A leaf that only goes to state `st`.
pub open spec fn stay_leaf(st: int) -> (Seq<usize>, Seq<Seq<u8>>, Seq<Seq<u8>>) {
    (seq![st as usize], Seq::empty(), Seq::empty())
}

/// A state with one transition: on `key`, run the byte automaton from state
/// `dsi`; where the tag `dix` comes out, go to the leaf `pos`, else to the
/// leaf `neg`.
pub open spec fn guard_state(
    s: StateOrigin,
    key: Seq<u8>,
    dsi: usize,
    dix: usize,
    pos: (Seq<usize>, Seq<Seq<u8>>, Seq<Seq<u8>>),
    neg: (Seq<usize>, Seq<Seq<u8>>, Seq<Seq<u8>>),
) -> bool {
    &&& s.transitions@.len() == 1
    &&& s.transitions@[0].key@ == key
    &&& s.transitions@[0].dfa_inits@ == seq![dsi]
    &&& match s.transitions@[0].bdd {
        BddOrigin::NodeBothOwned { var, pos: p, neg: q } => {
            &&& var == dix
            &&& match *p {
                BddOrigin::Leaf(l) => lv(l) == pos,
                _ => false,
            }
            &&& match *q {
                BddOrigin::Leaf(l) => lv(l) == neg,
                _ => false,
            }
        },
        _ => false,
    }
}

/// The guard that state `k` of the chain of a match with guards `w` tests:
/// the chain first tests all guards but the last, from the last to the
/// first, then all guards, from the last to the first.
pub open spec fn chain_guard(w: Seq<(Seq<u8>, usize, usize)>, k: int) -> (Seq<u8>, usize, usize) {
    let n = w.len() as int;
    if k < n - 1 {
        w[n - 2 - k]
    } else {
        w[2 * n - 2 - k]
    }
}

/// Where state `k` of the chain (numbered from `b`) goes guards its guard
/// holds: the first of each run goes to `then`; the others to the state
/// before them, getting the key that state tests.
pub open spec fn chain_pos(
    w: Seq<(Seq<u8>, usize, usize)>,
    then: (Seq<usize>, Seq<Seq<u8>>, Seq<Seq<u8>>),
    b: int,
    k: int,
) -> (Seq<usize>, Seq<Seq<u8>>, Seq<Seq<u8>>) {
    let n = w.len() as int;
    if k == 0 {
        then
    } else if k < n - 1 {
        go_leaf(b + k - 1, w[n - 1 - k].0)
    } else if k == n - 1 {
        go_leaf(b + k - 1, w[0].0)
    } else {
        go_leaf(b + k - 1, w[2 * n - 1 - k].0)
    }
}

/// Where state `k` of the chain goes guards its guard fails: a state of the
/// first run goes to the state of the second run that tests the same guard;
/// a state of the second run stays.
pub open spec fn chain_neg(n: int, b: int, k: int) -> (Seq<usize>, Seq<Seq<u8>>, Seq<Seq<u8>>) {
    if k < n - 1 {
        stay_leaf(b + n + k)
    } else {
        stay_leaf(b + k)
    }
}

/// State `b + k` of `s` is state `k` of the chain.
pub open spec fn chain_ok(
    s: Seq<StateOrigin>,
    w: Seq<(Seq<u8>, usize, usize)>,
    then: (Seq<usize>, Seq<Seq<u8>>, Seq<Seq<u8>>),
    b: int,
    k: int,
) -> bool {
    let g = chain_guard(w, k);
    guard_state(s[b + k], g.0, g.1, g.2, chain_pos(w, then, b, k), chain_neg(w.len() as int, b, k))
}

fn copy_bytes(v: &Vec<u8>) -> (r: Vec<u8>)
    ensures
        r@ == v@,
{
    let r = v.clone();
    proof {
        assert(r@ =~= v@);
    }
    r
}

/// The key that a state's transition tests.
pub open spec fn guard_key(s: StateOrigin) -> Seq<u8> {
    s.transitions@[0].key@
}

/// Where a state's transition goes when its pattern matches, where that is
/// a leaf.
pub open spec fn guard_pos(s: StateOrigin) -> Option<LeafOrigin> {
    match s.transitions@[0].bdd {
        BddOrigin::NodeBothOwned { pos, .. } => match *pos {
            BddOrigin::Leaf(l) => Some(l),
            _ => None,
        },
        _ => None,
    }
}

/// Where a state's transition goes when its pattern does not match, where
/// that is a leaf.
pub open spec fn guard_neg(s: StateOrigin) -> Option<LeafOrigin> {
    match s.transitions@[0].bdd {
        BddOrigin::NodeBothOwned { neg, .. } => match *neg {
            BddOrigin::Leaf(l) => Some(l),
            _ => None,
        },
        _ => None,
    }
}

/// A chain goes from state to state and asks, each time, for the old value
/// of the key that the next state tests: the first state of the chain goes
/// on with the match's own leaf; every other state, where its pattern
/// matches, goes to the state before it and gets the key that state tests,
/// and runs nothing. Where its pattern does not match, a state waits, at
/// itself or at the state that tests the same key, asking and running
/// nothing.
pub proof fn lemma_chain_asks_for_next_key(
    s: Seq<StateOrigin>,
    w: Seq<(Seq<u8>, usize, usize)>,
    then: LeafOrigin,
    b: int,
)
    requires
        w.len() > 0,
        0 <= b,
        s.len() == b + 2 * w.len() - 1,
        s.len() <= usize::MAX,
        forall|k: int| 0 <= k < 2 * w.len() - 1 ==> #[trigger] chain_ok(s, w, lv(then), b, k),
    ensures
        guard_pos(s[b]) is Some && lv(guard_pos(s[b])->0) == lv(then),
        forall|k: int|
            1 <= k < 2 * w.len() - 1 ==> {
                let p = #[trigger] guard_pos(s[b + k]);
                &&& p is Some
                &&& p->0.states@ == seq![(b + k - 1) as usize]
                &&& views(p->0.get_olds@) == seq![guard_key(s[b + k - 1])]
                &&& p->0.exts@.len() == 0
            },
        forall|k: int|
            0 <= k < 2 * w.len() - 1 ==> {
                let q = #[trigger] guard_neg(s[b + k]);
                &&& q is Some
                &&& q->0.states@.len() == 1
                &&& b <= q->0.states@[0] < s.len()
                &&& guard_key(s[q->0.states@[0] as int]) == guard_key(s[b + k])
                &&& q->0.get_olds@.len() == 0
                &&& q->0.exts@.len() == 0
            },
{
    let n = w.len() as int;
    assert(chain_ok(s, w, lv(then), b, 0));
    assert forall|k: int| 1 <= k < 2 * n - 1 implies {
        let p = #[trigger] guard_pos(s[b + k]);
        &&& p is Some
        &&& p->0.states@ == seq![(b + k - 1) as usize]
        &&& views(p->0.get_olds@) == seq![guard_key(s[b + k - 1])]
        &&& p->0.exts@.len() == 0
    } by {
        assert(chain_ok(s, w, lv(then), b, k));
        assert(chain_ok(s, w, lv(then), b, k - 1));
        assert(b + k - 1 + 1 == b + k);
    }
    assert forall|k: int| 0 <= k < 2 * n - 1 implies {
        let q = #[trigger] guard_neg(s[b + k]);
        &&& q is Some
        &&& q->0.states@.len() == 1
        &&& b <= q->0.states@[0] < s.len()
        &&& guard_key(s[q->0.states@[0] as int]) == guard_key(s[b + k])
        &&& q->0.get_olds@.len() == 0
        &&& q->0.exts@.len() == 0
    } by {
        assert(chain_ok(s, w, lv(then), b, k));
        let q = guard_neg(s[b + k]);
        if k < n - 1 {
            assert(chain_ok(s, w, lv(then), b, n + k));
            assert(q->0.states@ == seq![(b + n + k) as usize]);
            assert(q->0.states@[0] as int == b + (n + k));
            assert(chain_guard(w, n + k) == chain_guard(w, k));
        } else {
            assert(q->0.states@ == seq![(b + k) as usize]);
            assert(q->0.states@[0] as int == b + k);
        }
        assert(q is Some);
        assert(views(q->0.get_olds@).len() == 0);
        assert(q->0.get_olds@.len() == 0);
        assert(q->0.exts@.len() == 0);
        assert(guard_key(s[q->0.states@[0] as int]) == guard_key(s[b + k]));
    }
}

/// The states of a match whose guards are `when` and which goes on with the
/// leaf `then`: they join `states`, and the leaf that enters the match is
/// returned. With no guards, the match is `then` itself.
pub fn match_states(states: &mut Vec<StateOrigin>, guards: Vec<(Vec<u8>, (usize, usize))>, then: LeafOrigin) -> (r:
    LeafOrigin)
    requires
        old(states)@.len() + 2 * guards@.len() <= usize::MAX,
    ensures
        guards@.len() == 0 ==> r == then && final(states)@ == old(states)@,
        guards@.len() > 0 ==> {
            let w = when_view(guards@);
            let b = old(states)@.len() as int;
            let n = guards@.len() as int;
            &&& final(states)@.len() == b + 2 * n - 1
            &&& final(states)@.subrange(0, b) == old(states)@
            &&& forall|k: int| 0 <= k < 2 * n - 1 ==> #[trigger] chain_ok(final(states)@, w, lv(then), b, k)
            &&& lv(r) == go_leaf(b + 2 * n - 2, w[0].0)
            &&& views(r.get_olds@) == seq![guard_key(final(states)@[b + 2 * n - 2])]
            &&& forall|k: int|
                1 <= k < 2 * n - 1 ==> {
                    let p = #[trigger] guard_pos(final(states)@[b + k]);
                    &&& p is Some
                    &&& p->0.states@ == seq![(b + k - 1) as usize]
                    &&& views(p->0.get_olds@) == seq![guard_key(final(states)@[b + k - 1])]
                    &&& p->0.exts@.len() == 0
                }
        },
{
    let n = guards.len();
    if n == 0 {
        return then;
    }
    let ghost w = when_view(guards@);
    let ghost b = states@.len() as int;
    let ghost s0 = states@;
    let ghost t0 = lv(then);
    let ghost then0 = then;
    let mut then = then;
    let mut j: usize = 0;
    while j + 1 < n
        invariant
            n == guards@.len(),
            n > 0,
            w == when_view(guards@),
            b == s0.len(),
            j + 1 <= n,
            states@.len() == b + j,
            b + 2 * n <= usize::MAX,
            states@.subrange(0, b) == s0,
            forall|k: int| 0 <= k < j ==> #[trigger] chain_ok(states@, w, t0, b, k),
            lv(then) == (if j == 0 {
                t0
            } else {
                go_leaf(b + j - 1, w[n - 1 - j].0)
            }),
        decreases n - j,
    {
        let i = n - 2 - j;
        let st = states.len();
        let key = copy_bytes(&guards[i].0);
        let key2 = copy_bytes(&key);
        let else_ = LeafOrigin { exts: Vec::new(), get_olds: Vec::new(), states: vec![st + n] };
        let ghost then_v = lv(then);
        let ghost before = states@;
        let tran = TranOrigin {
            key,
            dfa_inits: vec![guards[i].1.0],
            bdd: BddOrigin::NodeBothOwned {
                var: guards[i].1.1,
                pos: Box::new(BddOrigin::Leaf(then)),
                neg: Box::new(BddOrigin::Leaf(else_)),
            },
        };
        let ghost tv = tran;
        let trs = vec![tran];
        proof {
            assert(trs@ =~= seq![tv]);
            assert(tv.key@ == w[i as int].0);
            assert(tv.dfa_inits@ =~= seq![w[i as int].1]);
            assert(chain_guard(w, j as int) == w[i as int]);
            assert(lv(else_) =~= stay_leaf(b + n + j));
        }
        states.push(StateOrigin { transitions: trs });
        then = LeafOrigin { exts: Vec::new(), get_olds: vec![key2], states: vec![st] };
        proof {
            assert(states@[b + j] == StateOrigin { transitions: trs });
            assert(states@.subrange(0, b) =~= s0) by {
                assert(states@.subrange(0, b) =~= before.subrange(0, b));
            }
            assert(chain_ok(states@, w, t0, b, j as int));
            assert forall|k: int| 0 <= k < j + 1 implies #[trigger] chain_ok(states@, w, t0, b, k) by {
                if k < j {
                    assert(states@[b + k] == before[b + k]);
                    assert(chain_ok(before, w, t0, b, k));
                }
            }
            assert(views(then.get_olds@) =~= seq![w[n - 2 - j].0]);
            assert(lv(then) =~= go_leaf(b + (j + 1) - 1, w[n - 1 - (j + 1)].0));
        }
        j = j + 1;
    }
    let mut j: usize = 0;
    while j < n
        invariant
            n == guards@.len(),
            n > 0,
            w == when_view(guards@),
            b == s0.len(),
            j <= n,
            states@.len() == b + n - 1 + j,
            b + 2 * n <= usize::MAX,
            states@.subrange(0, b) == s0,
            forall|k: int| 0 <= k < n - 1 + j ==> #[trigger] chain_ok(states@, w, t0, b, k),
            lv(then) == (if j == 0 {
                if n == 1 {
                    t0
                } else {
                    go_leaf(b + n - 2, w[0].0)
                }
            } else {
                go_leaf(b + n - 2 + j, w[n - j].0)
            }),
        decreases n - j,
    {
        let i = n - 1 - j;
        let st = states.len();
        let key = copy_bytes(&guards[i].0);
        let key2 = copy_bytes(&key);
        let else_ = LeafOrigin { exts: Vec::new(), get_olds: Vec::new(), states: vec![st] };
        let ghost before = states@;
        let tran = TranOrigin {
            key,
            dfa_inits: vec![guards[i].1.0],
            bdd: BddOrigin::NodeBothOwned {
                var: guards[i].1.1,
                pos: Box::new(BddOrigin::Leaf(then)),
                neg: Box::new(BddOrigin::Leaf(else_)),
            },
        };
        let ghost tv = tran;
        let trs = vec![tran];
        proof {
            assert(trs@ =~= seq![tv]);
            assert(tv.key@ == w[i as int].0);
            assert(tv.dfa_inits@ =~= seq![w[i as int].1]);
            assert(chain_guard(w, n - 1 + j) == w[i as int]);
            assert(lv(else_) =~= stay_leaf(b + n - 1 + j));
        }
        states.push(StateOrigin { transitions: trs });
        then = LeafOrigin { exts: Vec::new(), get_olds: vec![key2], states: vec![st] };
        proof {
            let k0 = n - 1 + j;
            assert(states@[b + k0] == StateOrigin { transitions: trs });
            assert(states@.subrange(0, b) =~= s0) by {
                assert(states@.subrange(0, b) =~= before.subrange(0, b));
            }
            assert(chain_ok(states@, w, t0, b, k0));
            assert forall|k: int| 0 <= k < k0 + 1 implies #[trigger] chain_ok(states@, w, t0, b, k) by {
                if k < k0 {
                    assert(states@[b + k] == before[b + k]);
                    assert(chain_ok(before, w, t0, b, k));
                }
            }
            assert(views(then.get_olds@) =~= seq![w[n - 1 - j].0]);
            assert(lv(then) =~= go_leaf(b + n - 2 + (j + 1), w[n - (j + 1)].0));
        }
        j = j + 1;
    }
    proof {
        lemma_chain_asks_for_next_key(states@, w, then0, b);
        assert(chain_ok(states@, w, t0, b, 2 * n - 2));
    }
    then
}

} // verus!

verus! {

/// Why a configuration does not compile.
#[derive(Clone, Debug)]
pub enum ParseError {
    /// A jump names a label that the configuration does not define.
    UnresolvedGoto(String),
    /// A match uses a pattern whose automaton is not given.
    UnknownPattern(String),
    /// The states would not fit in the range of indices.
    TooManyStates,
}

/// The command defines a label named `name`, itself or in a command inside it.
pub open spec fn defines_label(c: Cmd, name: Seq<char>) -> bool
    decreases c,
{
    match c {
        Cmd::Label(l, body) => l@ == name || defines_label(*body, name),
        Cmd::Match(m) => defines_in(m.then_cmds@, name),
        Cmd::Goto(_) => false,
    }
}

/// One of the commands defines a label named `name`.
pub open spec fn defines_in(cs: Seq<Cmd>, name: Seq<char>) -> bool
    decreases cs,
{
    if cs.len() == 0 {
        false
    } else {
        defines_in(cs.drop_last(), name) || defines_label(cs.last(), name)
    }
}

/// The command jumps to the label `name`, itself or in a command inside it.
pub open spec fn jumps_to(c: Cmd, name: Seq<char>) -> bool
    decreases c,
{
    match c {
        Cmd::Label(_, body) => jumps_to(*body, name),
        Cmd::Match(m) => jumps_in(m.then_cmds@, name),
        Cmd::Goto(t) => t@ == name,
    }
}

/// One of the commands jumps to the label `name`.
pub open spec fn jumps_in(cs: Seq<Cmd>, name: Seq<char>) -> bool
    decreases cs,
{
    if cs.len() == 0 {
        false
    } else {
        jumps_in(cs.drop_last(), name) || jumps_to(cs.last(), name)
    }
}

/// A match of the command, or of a command inside it, tests a value against
/// the pattern `p`.
pub open spec fn uses_pattern(c: Cmd, p: Seq<char>) -> bool
    decreases c,
{
    match c {
        Cmd::Label(_, body) => uses_pattern(*body, p),
        Cmd::Match(m) => (exists|j: int| 0 <= j < m.when@.len() && (#[trigger] m.when@[j]).1@ == p)
            || uses_in(m.then_cmds@, p),
        Cmd::Goto(_) => false,
    }
}

/// One of the commands uses the pattern `p`.
pub open spec fn uses_in(cs: Seq<Cmd>, p: Seq<char>) -> bool
    decreases cs,
{
    if cs.len() == 0 {
        false
    } else {
        uses_in(cs.drop_last(), p) || uses_pattern(cs.last(), p)
    }
}

/// The number of states that parsing the command once builds: each match
/// with `n > 0` guards builds a chain of `2n - 1` states.
pub open spec fn work(c: Cmd) -> nat
    decreases c,
{
    match c {
        Cmd::Label(_, body) => work(*body),
        Cmd::Match(m) => work_in(m.then_cmds@) + (if m.when@.len() > 0 {
            (2 * m.when@.len() - 1) as nat
        } else {
            0
        }),
        Cmd::Goto(_) => 0,
    }
}

/// The number of states that parsing the commands once builds.
pub open spec fn work_in(cs: Seq<Cmd>) -> nat
    decreases cs,
{
    if cs.len() == 0 {
        0
    } else {
        work_in(cs.drop_last()) + work(cs.last())
    }
}

/// The body of the last definition of the label `name` in the command, in
/// the order in which the commands are written.
pub open spec fn last_def(c: Cmd, name: Seq<char>) -> Option<Cmd>
    decreases c,
{
    match c {
        Cmd::Label(l, body) => match last_def(*body, name) {
            Some(b) => Some(b),
            None => if l@ == name {
                Some(*body)
            } else {
                None
            },
        },
        Cmd::Match(m) => last_def_in(m.then_cmds@, name),
        Cmd::Goto(_) => None,
    }
}

/// The body of the last definition of the label `name` in the commands.
pub open spec fn last_def_in(cs: Seq<Cmd>, name: Seq<char>) -> Option<Cmd>
    decreases cs,
{
    if cs.len() == 0 {
        None
    } else {
        match last_def(cs.last(), name) {
            Some(b) => Some(b),
            None => last_def_in(cs.drop_last(), name),
        }
    }
}

/// The states that parsing the bodies of the first `n` labels builds.
pub open spec fn labels_work(cmds: Seq<Cmd>, labels: Seq<(String, LeafOrigin)>, n: int) -> int
    decreases n,
{
    if n <= 0 {
        0
    } else {
        labels_work(cmds, labels, n - 1) + work(last_def_in(cmds, labels[n - 1].0@)->0)
    }
}

/// A command of a sequence defines, jumps to or uses what one of them does.
pub proof fn lemma_in_seq(cs: Seq<Cmd>, s: Seq<char>)
    ensures
        defines_in(cs, s) <==> exists|i: int| 0 <= i < cs.len() && #[trigger] defines_label(cs[i], s),
        jumps_in(cs, s) <==> exists|i: int| 0 <= i < cs.len() && #[trigger] jumps_to(cs[i], s),
        uses_in(cs, s) <==> exists|i: int| 0 <= i < cs.len() && #[trigger] uses_pattern(cs[i], s),
    decreases cs.len(),
{
    if cs.len() > 0 {
        let d = cs.drop_last();
        lemma_in_seq(d, s);
        assert forall|i: int| 0 <= i < d.len() implies d[i] == cs[i] by {}
        assert(cs.last() == cs[cs.len() - 1]);
        if defines_in(cs, s) && !defines_in(d, s) {
            assert(defines_label(cs[cs.len() - 1], s));
        }
        if jumps_in(cs, s) && !jumps_in(d, s) {
            assert(jumps_to(cs[cs.len() - 1], s));
        }
        if uses_in(cs, s) && !uses_in(d, s) {
            assert(uses_pattern(cs[cs.len() - 1], s));
        }
        if exists|i: int| 0 <= i < cs.len() && #[trigger] defines_label(cs[i], s) {
            let i = choose|i: int| 0 <= i < cs.len() && #[trigger] defines_label(cs[i], s);
            if i < d.len() {
                assert(defines_label(d[i], s));
            }
        }
        if exists|i: int| 0 <= i < cs.len() && #[trigger] jumps_to(cs[i], s) {
            let i = choose|i: int| 0 <= i < cs.len() && #[trigger] jumps_to(cs[i], s);
            if i < d.len() {
                assert(jumps_to(d[i], s));
            }
        }
        if exists|i: int| 0 <= i < cs.len() && #[trigger] uses_pattern(cs[i], s) {
            let i = choose|i: int| 0 <= i < cs.len() && #[trigger] uses_pattern(cs[i], s);
            if i < d.len() {
                assert(uses_pattern(d[i], s));
            }
        }
    }
}

/// One of the commands defines the label `name`.
pub open spec fn cmds_define(cs: Seq<Cmd>, name: Seq<char>) -> bool {
    exists|i: int| 0 <= i < cs.len() && #[trigger] defines_label(cs[i], name)
}

/// One of the commands jumps to the label `name`.
pub open spec fn cmds_jump(cs: Seq<Cmd>, name: Seq<char>) -> bool {
    exists|i: int| 0 <= i < cs.len() && #[trigger] jumps_to(cs[i], name)
}

/// One of the commands uses the pattern `p`.
pub open spec fn cmds_use(cs: Seq<Cmd>, p: Seq<char>) -> bool {
    exists|i: int| 0 <= i < cs.len() && #[trigger] uses_pattern(cs[i], p)
}

/// The automaton of the pattern `p` is among `regexes`.
pub open spec fn known(regexes: Seq<(String, (DfaStateIx, DfaIx))>, p: Seq<char>) -> bool {
    exists|i: int| 0 <= i < regexes.len() && (#[trigger] regexes[i]).0@ == p
}

/// The leaf goes only to states below `m`.
pub open spec fn leaf_ok(l: LeafOrigin, m: int) -> bool {
    forall|i: int| 0 <= i < l.states@.len() ==> #[trigger] l.states@[i] < m
}

/// Every leaf of the diagram goes only to states below `m`.
pub open spec fn bdd_closed(b: BddOrigin<usize, LeafOrigin>, m: int) -> bool
    decreases b,
{
    match b {
        BddOrigin::Leaf(l) => leaf_ok(l, m),
        BddOrigin::NodeNoOwned { .. } => true,
        BddOrigin::NodePosOwned { pos, .. } => bdd_closed(*pos, m),
        BddOrigin::NodeNegOwned { neg, .. } => bdd_closed(*neg, m),
        BddOrigin::NodeBothOwned { pos, neg, .. } => bdd_closed(*pos, m) && bdd_closed(*neg, m),
        BddOrigin::WithDetached { first, rest } => bdd_closed(*first, m) && bdd_closed(*rest, m),
    }
}

/// Every transition of the states goes only to states below `m`.
pub open spec fn states_closed(s: Seq<StateOrigin>, m: int) -> bool {
    forall|k: int, t: int|
        0 <= k < s.len() && 0 <= t < s[k].transitions@.len() ==> bdd_closed(
            #[trigger] s[k].transitions@[t].bdd,
            m,
        )
}

/// A diagram closed below `m` is closed below any larger bound.
pub proof fn lemma_bdd_closed_grows(b: BddOrigin<usize, LeafOrigin>, m: int, m2: int)
    requires
        bdd_closed(b, m),
        m <= m2,
    ensures
        bdd_closed(b, m2),
    decreases b,
{
    match b {
        BddOrigin::Leaf(l) => {},
        BddOrigin::NodeNoOwned { .. } => {},
        BddOrigin::NodePosOwned { pos, .. } => lemma_bdd_closed_grows(*pos, m, m2),
        BddOrigin::NodeNegOwned { neg, .. } => lemma_bdd_closed_grows(*neg, m, m2),
        BddOrigin::NodeBothOwned { pos, neg, .. } => {
            lemma_bdd_closed_grows(*pos, m, m2);
            lemma_bdd_closed_grows(*neg, m, m2);
        },
        BddOrigin::WithDetached { first, rest } => {
            lemma_bdd_closed_grows(*first, m, m2);
            lemma_bdd_closed_grows(*rest, m, m2);
        },
    }
}

/// States closed below `m` are closed below any larger bound.
pub proof fn lemma_states_closed_grows(s: Seq<StateOrigin>, m: int, m2: int)
    requires
        states_closed(s, m),
        m <= m2,
    ensures
        states_closed(s, m2),
{
    assert forall|k: int, t: int|
        0 <= k < s.len() && 0 <= t < s[k].transitions@.len() implies bdd_closed(
        #[trigger] s[k].transitions@[t].bdd,
        m2,
    ) by {
        lemma_bdd_closed_grows(s[k].transitions@[t].bdd, m, m2);
    }
}

/// The chain of a match whose leaf `then` goes below the chain's first
/// state closes the states: every state then goes below the chain's end.
pub proof fn lemma_chain_closed(
    s: Seq<StateOrigin>,
    w: Seq<(Seq<u8>, usize, usize)>,
    then: LeafOrigin,
    b: int,
)
    requires
        w.len() > 0,
        s.len() == b + 2 * w.len() - 1,
        s.len() <= usize::MAX,
        0 <= b,
        states_closed(s.subrange(0, b), b),
        leaf_ok(then, b),
        forall|k: int| 0 <= k < 2 * w.len() - 1 ==> #[trigger] chain_ok(s, w, lv(then), b, k),
    ensures
        states_closed(s, s.len() as int),
{
    let m = s.len() as int;
    let n = w.len() as int;
    lemma_states_closed_grows(s.subrange(0, b), b, m);
    assert forall|k: int, t: int| 0 <= k < s.len() && 0 <= t < s[k].transitions@.len() implies bdd_closed(
        #[trigger] s[k].transitions@[t].bdd,
        m,
    ) by {
        if k < b {
            assert(s.subrange(0, b)[k] == s[k]);
        } else {
            assert(chain_ok(s, w, lv(then), b, k - b));
            let g = chain_guard(w, k - b);
            let pos = chain_pos(w, lv(then), b, k - b);
            let neg = chain_neg(n, b, k - b);
            assert(t == 0);
            match s[k].transitions@[0].bdd {
                BddOrigin::NodeBothOwned { pos: p, neg: q, .. } => {
                    match *p {
                        BddOrigin::Leaf(l) => {
                            assert(l.states@ == pos.0);
                            assert(leaf_ok(l, m));
                            assert(bdd_closed(*p, m));
                        },
                        _ => {},
                    }
                    match *q {
                        BddOrigin::Leaf(l) => {
                            assert(l.states@ == neg.0);
                            if k - b < n - 1 {
                                assert(neg.0 == seq![(b + n + (k - b)) as usize]);
                            } else {
                                assert(neg.0 == seq![k as usize]);
                            }
                            assert(leaf_ok(l, m));
                            assert(bdd_closed(*q, m));
                        },
                        _ => {},
                    }
                },
                _ => {},
            }
        }
    }
}

fn copy_strings(v: &Vec<Vec<u8>>) -> (r: Vec<Vec<u8>>)
    ensures
        views(r@) == views(v@),
{
    let mut r: Vec<Vec<u8>> = Vec::new();
    let mut i: usize = 0;
    while i < v.len()
        invariant
            i <= v@.len(),
            r@.len() == i,
            views(r@) == views(v@.take(i as int)),
        decreases v@.len() - i,
    {
        let ghost r0 = r@;
        r.push(copy_bytes(&v[i]));
        proof {
            assert(v@.take(i + 1) =~= v@.take(i as int).push(v@[i as int]));
            assert forall|k: int| 0 <= k < i + 1 implies #[trigger] views(r@)[k] == views(v@.take(i + 1))[k] by {
                if k < i {
                    assert(r@[k] == r0[k]);
                    assert(views(r0)[k] == views(v@.take(i as int))[k]);
                }
            }
            assert(views(r@) =~= views(v@.take(i + 1)));
        }
        i = i + 1;
    }
    proof {
        assert(v@.take(i as int) =~= v@);
    }
    r
}

fn copy_leaf(l: &LeafOrigin) -> (r: LeafOrigin)
    ensures
        lv(r) == lv(*l),
{
    let states = l.states.clone();
    proof {
        assert(states@ =~= l.states@);
    }
    LeafOrigin { states, get_olds: copy_strings(&l.get_olds), exts: copy_strings(&l.exts) }
}

/// A label of `defs` is named `name`.
pub open spec fn defined_in<'a>(defs: Seq<(&'a String, &'a Cmd)>, name: Seq<char>) -> bool {
    exists|i: int| 0 <= i < defs.len() && (#[trigger] defs[i]).0@ == name
}

/// What the command jumps to, uses and defines, some of `top` does too.
pub open spec fn within(c: Cmd, top: Seq<Cmd>) -> bool {
    &&& forall|t: Seq<char>| #[trigger] jumps_to(c, t) ==> cmds_jump(top, t)
    &&& forall|p: Seq<char>| #[trigger] uses_pattern(c, p) ==> cmds_use(top, p)
    &&& forall|n: Seq<char>| #[trigger] defines_label(c, n) ==> cmds_define(top, n)
}

/// The definitions of labels: each name once, each a label of `top`, each
/// body within `top`.
pub open spec fn defs_ok<'a>(defs: Seq<(&'a String, &'a Cmd)>, top: Seq<Cmd>) -> bool {
    &&& forall|i: int, j: int| 0 <= i < j < defs.len() ==> (#[trigger] defs[i]).0@ != (#[trigger] defs[j]).0@
    &&& forall|i: int| 0 <= i < defs.len() ==> cmds_define(top, (#[trigger] defs[i]).0@)
    &&& forall|i: int| 0 <= i < defs.len() ==> within(*(#[trigger] defs[i]).1, top)
}

/// Definition `j` after collecting: its body is the last definition of its
/// name there is (`last`), or, where there is none, it was there before.
pub open spec fn def_after<'a>(defs: Seq<(&'a String, &'a Cmd)>, before: Seq<(&'a String, &'a Cmd)>, j: int, last: Option<Cmd>) -> bool {
    match last {
        Some(b) => *defs[j].1 == b,
        None => j < before.len() && defs[j] == before[j],
    }
}

/// The definitions by name and body.
pub open spec fn dview<'a>(defs: Seq<(&'a String, &'a Cmd)>) -> Seq<(Seq<char>, Cmd)> {
    defs.map_values(|d: (&'a String, &'a Cmd)| (d.0@, *d.1))
}

/// Where the first definition of `name` is, from `i` on.
pub open spec fn def_index(defs: Seq<(Seq<char>, Cmd)>, name: Seq<char>, i: int) -> Option<int>
    decreases defs.len() - i,
{
    if i < 0 || i >= defs.len() {
        None
    } else if defs[i].0 == name {
        Some(i)
    } else {
        def_index(defs, name, i + 1)
    }
}

/// Adds a definition: it replaces the one of the same name, or comes last.
pub open spec fn add_spec(defs: Seq<(Seq<char>, Cmd)>, name: Seq<char>, body: Cmd) -> Seq<(Seq<char>, Cmd)> {
    match def_index(defs, name, 0) {
        Some(i) => defs.update(i, (name, body)),
        None => defs.push((name, body)),
    }
}

/// The definitions after collecting those of the command, in the order in
/// which the commands are written.
pub open spec fn coll(c: Cmd, acc: Seq<(Seq<char>, Cmd)>) -> Seq<(Seq<char>, Cmd)>
    decreases c,
{
    match c {
        Cmd::Label(l, body) => coll(*body, add_spec(acc, l@, *body)),
        Cmd::Match(m) => coll_in(m.then_cmds@, acc),
        Cmd::Goto(_) => acc,
    }
}

/// The definitions after collecting those of the commands.
pub open spec fn coll_in(cs: Seq<Cmd>, acc: Seq<(Seq<char>, Cmd)>) -> Seq<(Seq<char>, Cmd)>
    decreases cs,
{
    if cs.len() == 0 {
        acc
    } else {
        coll(cs.last(), coll_in(cs.drop_last(), acc))
    }
}

/// Where the name is among the definitions.
fn find_def<'a>(defs: &Vec<(&'a String, &'a Cmd)>, name: &String) -> (r: Option<usize>)
    ensures
        match r {
            Some(i) => i < defs@.len() && defs@[i as int].0@ == name@,
            None => !defined_in(defs@, name@),
        },
        def_index(dview(defs@), name@, 0) == match r {
            Some(i) => Some(i as int),
            None => None::<int>,
        },
{
    let mut i: usize = 0;
    while i < defs.len()
        invariant
            i <= defs@.len(),
            forall|k: int| 0 <= k < i ==> (#[trigger] defs@[k]).0@ != name@,
            def_index(dview(defs@), name@, 0) == def_index(dview(defs@), name@, i as int),
        decreases defs@.len() - i,
    {
        if *defs[i].0 == *name {
            return Some(i);
        }
        i = i + 1;
    }
    None
}

/// Adds the definition of a label; a later definition of a name replaces
/// the earlier one.
fn add_def<'a>(defs: &mut Vec<(&'a String, &'a Cmd)>, name: &'a String, body: &'a Cmd, Ghost(top): Ghost<Seq<Cmd>>)
    requires
        defs_ok(old(defs)@, top),
        cmds_define(top, name@),
        within(*body, top),
    ensures
        defs_ok(final(defs)@, top),
        old(defs)@.len() <= final(defs)@.len(),
        forall|i: int| 0 <= i < old(defs)@.len() ==> (#[trigger] final(defs)@[i]).0@ == old(defs)@[i].0@,
        defined_in(final(defs)@, name@),
        forall|j: int| 0 <= j < final(defs)@.len() ==> (if (#[trigger] final(defs)@[j]).0@ == name@ {
            *final(defs)@[j].1 == *body
        } else {
            j < old(defs)@.len() && final(defs)@[j] == old(defs)@[j]
        }),
        dview(final(defs)@) == add_spec(dview(old(defs)@), name@, *body),
{
    match find_def(defs, name) {
        Some(i) => {
            defs.set(i, (name, body));
            assert(final(defs)@[i as int].0@ == name@);
            assert(dview(defs@) =~= add_spec(dview(old(defs)@), name@, *body));
        },
        None => {
            defs.push((name, body));
            assert(defs@[defs@.len() - 1].0@ == name@);
            assert(dview(defs@) =~= add_spec(dview(old(defs)@), name@, *body));
        },
    }
}

/// Collects the labels that the command defines.
fn collect_labels<'a>(defs: &mut Vec<(&'a String, &'a Cmd)>, c: &'a Cmd, Ghost(top): Ghost<Seq<Cmd>>)
    requires
        defs_ok(old(defs)@, top),
        within(*c, top),
    ensures
        defs_ok(final(defs)@, top),
        old(defs)@.len() <= final(defs)@.len(),
        forall|i: int| 0 <= i < old(defs)@.len() ==> (#[trigger] final(defs)@[i]).0@ == old(defs)@[i].0@,
        forall|n: Seq<char>| #[trigger] defines_label(*c, n) ==> defined_in(final(defs)@, n),
        forall|j: int| 0 <= j < final(defs)@.len() ==> def_after(final(defs)@, old(defs)@, j, last_def(*c, (#[trigger] final(defs)@[j]).0@)),
        dview(final(defs)@) == coll(*c, dview(old(defs)@)),
    decreases c,
{
    match c {
        Cmd::Label(name, body) => {
            assert(defines_label(*c, name@));
            let body: &'a Cmd = &**body;
            assert(within(*body, top)) by {
                assert forall|t: Seq<char>| #[trigger] jumps_to(*body, t) implies cmds_jump(top, t) by {
                    assert(jumps_to(*c, t));
                }
                assert forall|p: Seq<char>| #[trigger] uses_pattern(*body, p) implies cmds_use(top, p) by {
                    assert(uses_pattern(*c, p));
                }
                assert forall|n: Seq<char>| #[trigger] defines_label(*body, n) implies cmds_define(top, n) by {
                    assert(defines_label(*c, n));
                }
            }
            let ghost d0 = defs@;
            add_def(defs, name, body, Ghost(top));
            let ghost d1 = defs@;
            collect_labels(defs, body, Ghost(top));
            assert forall|j: int| 0 <= j < defs@.len() implies def_after(defs@, d0, j, last_def(*c, (#[trigger] defs@[j]).0@)) by {
                assert(def_after(defs@, d1, j, last_def(*body, defs@[j].0@)));
                if last_def(*body, defs@[j].0@) is None {
                    assert(defs@[j] == d1[j]);
                }
            }
            assert forall|n: Seq<char>| #[trigger] defines_label(*c, n) implies defined_in(defs@, n) by {
                if n == name@ {
                    let i = choose|i: int| 0 <= i < d1.len() && (#[trigger] d1[i]).0@ == n;
                    assert(defs@[i].0@ == n);
                } else {
                    assert(defines_label(*body, n));
                }
            }
        },
        Cmd::Match(m) => {
            let ghost d0 = defs@;
            let mut i: usize = 0;
            while i < m.then_cmds.len()
                invariant
                    i <= m.then_cmds@.len(),
                    *c == Cmd::Match(*m),
                    within(*c, top),
                    defs_ok(defs@, top),
                    d0.len() <= defs@.len(),
                    forall|k: int| 0 <= k < d0.len() ==> (#[trigger] defs@[k]).0@ == d0[k].0@,
                    forall|k: int, n: Seq<char>|
                        0 <= k < i && #[trigger] defines_label(m.then_cmds@[k], n) ==> defined_in(defs@, n),
                    forall|j: int| 0 <= j < defs@.len() ==> def_after(defs@, d0, j, last_def_in(m.then_cmds@.take(i as int), (#[trigger] defs@[j]).0@)),
                    dview(defs@) == coll_in(m.then_cmds@.take(i as int), dview(d0)),
                decreases m.then_cmds@.len() - i,
            {
                let sub: &'a Cmd = &m.then_cmds[i];
                assert(*sub == m.then_cmds@[i as int]);
                assert(within(*sub, top)) by {
                    assert forall|t: Seq<char>| #[trigger] jumps_to(*sub, t) implies cmds_jump(top, t) by {
                        lemma_in_seq(m.then_cmds@, t);
                        assert(jumps_to(m.then_cmds@[i as int], t));
                        assert(jumps_to(*c, t));
                    }
                    assert forall|p: Seq<char>| #[trigger] uses_pattern(*sub, p) implies cmds_use(top, p) by {
                        lemma_in_seq(m.then_cmds@, p);
                        assert(uses_pattern(m.then_cmds@[i as int], p));
                        assert(uses_pattern(*c, p));
                    }
                    assert forall|n: Seq<char>| #[trigger] defines_label(*sub, n) implies cmds_define(top, n) by {
                        lemma_in_seq(m.then_cmds@, n);
                        assert(defines_label(m.then_cmds@[i as int], n));
                        assert(defines_label(*c, n));
                    }
                }
                let ghost dk = defs@;
                proof {
                    assert(decreases_to!(*c => (*c)->Match_0));
                    assert((*c)->Match_0 == *m);
                    assert(decreases_to!(*m => m.then_cmds));
                    assert(decreases_to!(m.then_cmds => m.then_cmds@));
                    assert(decreases_to!(m.then_cmds@ => m.then_cmds@[i as int]));
                }
                collect_labels(defs, sub, Ghost(top));
                assert forall|k: int, n: Seq<char>|
                    0 <= k < i + 1 && #[trigger] defines_label(m.then_cmds@[k], n) implies defined_in(defs@, n) by {
                    if k < i {
                        let j = choose|j: int| 0 <= j < dk.len() && (#[trigger] dk[j]).0@ == n;
                        assert(defs@[j].0@ == n);
                    }
                }
                proof {
                    let tk = m.then_cmds@.take(i + 1);
                    assert(tk.drop_last() =~= m.then_cmds@.take(i as int));
                    assert(tk.last() == *sub);
                }
                assert forall|j: int| 0 <= j < defs@.len() implies def_after(defs@, d0, j, last_def_in(m.then_cmds@.take(i + 1), (#[trigger] defs@[j]).0@)) by {
                    let tk = m.then_cmds@.take(i + 1);
                    assert(tk.drop_last() =~= m.then_cmds@.take(i as int));
                    assert(tk.last() == *sub);
                    assert(def_after(defs@, dk, j, last_def(*sub, defs@[j].0@)));
                    if last_def(*sub, defs@[j].0@) is None {
                        assert(defs@[j] == dk[j]);
                        assert(def_after(dk, d0, j, last_def_in(m.then_cmds@.take(i as int), dk[j].0@)));
                    }
                }
                i = i + 1;
            }
            assert(m.then_cmds@.take(i as int) =~= m.then_cmds@);
            assert forall|n: Seq<char>| #[trigger] defines_label(*c, n) implies defined_in(defs@, n) by {
                lemma_in_seq(m.then_cmds@, n);
                let k = choose|k: int| 0 <= k < m.then_cmds@.len() && #[trigger] defines_label(m.then_cmds@[k], n);
            }
        },
        Cmd::Goto(_) => {},
    }
}

} // verus!

verus! {

/// A leaf that goes nowhere and does nothing.
pub open spec fn empty_leaf(l: LeafOrigin) -> bool {
    l.states@.len() == 0 && l.get_olds@.len() == 0 && l.exts@.len() == 0
}

/// The leaves parsed before stay.
pub open spec fn cache_kept(a: Seq<Option<LeafOrigin>>, b: Seq<Option<LeafOrigin>>) -> bool {
    &&& a.len() == b.len()
    &&& forall|i: int| 0 <= i < a.len() && (#[trigger] a[i]) is Some ==> b[i] == a[i]
}

/// Distinct indices below `n` are at most `n`.
proof fn lemma_stack_fits(s: Seq<usize>, n: int)
    requires
        s.no_duplicates(),
        0 <= n,
        forall|k: int| 0 <= k < s.len() ==> #[trigger] s[k] < n,
    ensures
        s.len() <= n,
{
    let si = s.map_values(|x: usize| x as int);
    assert(si.no_duplicates()) by {
        assert forall|i: int, j: int| 0 <= i < si.len() && 0 <= j < si.len() && i != j implies si[i] != si[j] by {
            assert(s[i] != s[j]);
        }
    }
    si.unique_seq_to_set();
    vstd::set_lib::lemma_int_range(0, n);
    assert(si.to_set().subset_of(vstd::set_lib::set_int_range(0, n))) by {
        assert forall|x: int| si.to_set().contains(x) implies vstd::set_lib::set_int_range(0, n).contains(x) by {
            let k = choose|k: int| 0 <= k < si.len() && si[k] == x;
            assert(s[k] < n);
        }
    }
    vstd::set_lib::lemma_len_subset(si.to_set(), vstd::set_lib::set_int_range(0, n));
}

/// Whether `ix` is on the stack.
fn contains_ix(stack: &Vec<usize>, ix: usize) -> (r: bool)
    ensures
        r == stack@.contains(ix),
{
    let mut i: usize = 0;
    while i < stack.len()
        invariant
            i <= stack@.len(),
            forall|k: int| 0 <= k < i ==> stack@[k] != ix,
        decreases stack@.len() - i,
    {
        if stack[i] == ix {
            return true;
        }
        i = i + 1;
    }
    false
}

/// The first byte state and the automaton of pattern `p`: those of its
/// first entry in `rx` from `i` on.
pub open spec fn rx_find(rx: Seq<(String, (DfaStateIx, DfaIx))>, p: Seq<char>, i: int) -> Option<(usize, usize)>
    decreases rx.len() - i,
{
    if i < 0 || i >= rx.len() {
        None
    } else if rx[i].0@ == p {
        Some((rx[i].1.0.0, rx[i].1.1.0))
    } else {
        rx_find(rx, p, i + 1)
    }
}

/// The guards of a match: each key by its bytes, with the automaton of its
/// pattern.
pub open spec fn guards_spec(pairs: Seq<(String, String)>, rx: Seq<(String, (DfaStateIx, DfaIx))>) -> Seq<
    (Seq<u8>, usize, usize),
> {
    Seq::new(
        pairs.len(),
        |j: int|
            (
                vstd::utf8::encode_utf8(pairs[j].0@),
                (rx_find(rx, pairs[j].1@, 0)->0).0,
                (rx_find(rx, pairs[j].1@, 0)->0).1,
            ),
    )
}

/// The first pattern of the guards, from `j` on, that has no automaton.
pub open spec fn first_unknown(pairs: Seq<(String, String)>, rx: Seq<(String, (DfaStateIx, DfaIx))>, j: int) -> Option<
    Seq<char>,
>
    decreases pairs.len() - j,
{
    if j < 0 || j >= pairs.len() {
        None
    } else if rx_find(rx, pairs[j].1@, 0) is None {
        Some(pairs[j].1@)
    } else {
        first_unknown(pairs, rx, j + 1)
    }
}

/// A pattern has an automaton exactly where it has an entry.
proof fn lemma_rx_find(rx: Seq<(String, (DfaStateIx, DfaIx))>, p: Seq<char>, i: int)
    requires
        0 <= i <= rx.len(),
    ensures
        rx_find(rx, p, i) is Some <==> exists|k: int| i <= k < rx.len() && (#[trigger] rx[k]).0@ == p,
    decreases rx.len() - i,
{
    if i < rx.len() {
        lemma_rx_find(rx, p, i + 1);
        if rx_find(rx, p, i + 1) is Some {
            let k = choose|k: int| i + 1 <= k < rx.len() && (#[trigger] rx[k]).0@ == p;
        }
    }
}

/// The first byte state and the automaton of a pattern.
fn find_regex(regexes: &Vec<(String, (DfaStateIx, DfaIx))>, p: &String) -> (r: Option<(usize, usize)>)
    ensures
        r == rx_find(regexes@, p@, 0),
        r is None <==> !known(regexes@, p@),
{
    proof {
        lemma_rx_find(regexes@, p@, 0);
    }
    let mut i: usize = 0;
    while i < regexes.len()
        invariant
            i <= regexes@.len(),
            forall|k: int| 0 <= k < i ==> (#[trigger] regexes@[k]).0@ != p@,
            rx_find(regexes@, p@, 0) == rx_find(regexes@, p@, i as int),
        decreases regexes@.len() - i,
    {
        if regexes[i].0 == *p {
            return Some((regexes[i].1.0.0, regexes[i].1.1.0));
        }
        i = i + 1;
    }
    None
}

/// The guards of a match: each key by its bytes, with the automaton of its
/// pattern. A pattern with no automaton is an error.
fn lookup_guards(pairs: &Vec<(String, String)>, regexes: &Vec<(String, (DfaStateIx, DfaIx))>) -> (r: Result<
    Vec<(Vec<u8>, (usize, usize))>,
    ParseError,
>)
    ensures
        r is Ok <==> first_unknown(pairs@, regexes@, 0) is None,
        r is Ok ==> when_view(r->Ok_0@) == guards_spec(pairs@, regexes@) && forall|k: int|
            0 <= k < pairs@.len() ==> known(regexes@, (#[trigger] pairs@[k]).1@),
        r is Err ==> (r->Err_0 matches ParseError::UnknownPattern(p) && first_unknown(pairs@, regexes@, 0) == Some(p@)
            && !known(regexes@, p@) && exists|k: int| 0 <= k < pairs@.len() && (#[trigger] pairs@[k]).1@ == p@),
{
    let mut guards: Vec<(Vec<u8>, (usize, usize))> = Vec::new();
    let mut j: usize = 0;
    while j < pairs.len()
        invariant
            j <= pairs@.len(),
            guards@.len() == j,
            forall|k: int| 0 <= k < j ==> known(regexes@, (#[trigger] pairs@[k]).1@),
            first_unknown(pairs@, regexes@, 0) == first_unknown(pairs@, regexes@, j as int),
            when_view(guards@) == guards_spec(pairs@, regexes@).take(j as int),
        decreases pairs@.len() - j,
    {
        let regex = &pairs[j].1;
        match find_regex(regexes, regex) {
            None => {
                let p = regex.clone();
                assert(pairs@[j as int].1@ == p@);
                return Err(ParseError::UnknownPattern(p));
            },
            Some(ixs) => {
                let key = pairs[j].0.as_str().as_bytes_vec();
                let ghost g0 = guards@;
                guards.push((key, ixs));
                proof {
                    assert(when_view(guards@) =~= guards_spec(pairs@, regexes@).take(j + 1)) by {
                        assert forall|k: int| 0 <= k < j + 1 implies #[trigger] when_view(guards@)[k] == guards_spec(pairs@, regexes@).take(j + 1)[k] by {
                            if k < j {
                                assert(guards@[k] == g0[k]);
                                assert(when_view(g0)[k] == guards_spec(pairs@, regexes@).take(j as int)[k]);
                            }
                        }
                    }
                }
            },
        }
        j = j + 1;
    }
    proof {
        assert(guards_spec(pairs@, regexes@).take(j as int) =~= guards_spec(pairs@, regexes@));
    }
    Ok(guards)
}

/// Adds copies of the extensions to run to the leaf.
fn extend_run(then: &mut LeafOrigin, run: &Vec<Vec<u8>>)
    ensures
        final(then).states@ == old(then).states@,
        views(final(then).exts@) == views(old(then).exts@) + views(run@),
        final(then).get_olds@ == old(then).get_olds@,
{
    let ghost e0 = then.exts@;
    let mut j: usize = 0;
    while j < run.len()
        invariant
            j <= run@.len(),
            then.states@ == old(then).states@,
            then.get_olds@ == old(then).get_olds@,
            then.exts@.len() == e0.len() + j,
            views(then.exts@) == views(e0) + views(run@.take(j as int)),
        decreases run@.len() - j,
    {
        let ghost x0 = then.exts@;
        then.exts.push(copy_bytes(&run[j]));
        proof {
            assert forall|k: int| 0 <= k < then.exts@.len() implies #[trigger] views(then.exts@)[k] == (views(e0) + views(run@.take(j + 1)))[k] by {
                if k < x0.len() {
                    assert(then.exts@[k] == x0[k]);
                    assert(views(x0)[k] == (views(e0) + views(run@.take(j as int)))[k]);
                }
            }
            assert(views(then.exts@) =~= views(e0) + views(run@.take(j + 1)));
        }
        j = j + 1;
    }
    proof {
        assert(run@.take(j as int) =~= run@);
    }
}

/// Leaves that go below `m` join into a leaf that goes below `m`.
proof fn lemma_join_ok(targets: Seq<LeafOrigin>, r: LeafOrigin, m: int)
    requires
        r.states@.to_set() == leaves_states(targets),
        forall|k: int| 0 <= k < targets.len() ==> leaf_ok(#[trigger] targets[k], m),
    ensures
        leaf_ok(r, m),
{
    assert forall|j: int| 0 <= j < r.states@.len() implies #[trigger] r.states@[j] < m by {
        let x = r.states@[j];
        assert(r.states@.to_set().contains(x));
        assert(leaves_states(targets).contains(x));
        let k = choose|k: int| 0 <= k < targets.len() && (#[trigger] targets[k]).states@.contains(x);
        let q = choose|q: int| 0 <= q < targets[k].states@.len() && targets[k].states@[q] == x;
        assert(leaf_ok(targets[k], m));
    }
}

/// A leaf by its sets: the states it goes to, the keys it gets, the
/// extensions it runs. A leaf that joins others has no order, so this is
/// what the compilation fixes of a leaf.
pub type ALeaf = (Set<usize>, Set<Seq<u8>>, Set<Seq<u8>>);

/// A state of a chain: the key it tests, the first byte state and the
/// automaton of the pattern, and the leaves where the pattern matches and
/// where it does not.
pub type AState = (Seq<u8>, usize, usize, ALeaf, ALeaf);

/// What the compilation has built: the states, and the leaf of each label
/// parsed so far.
pub type Built = (Seq<AState>, Seq<Option<ALeaf>>);

/// An error by its kind (a jump to an undefined label, a pattern with no
/// automaton, too many states) and its name.
pub type AErr = (ParseErrorKind, Seq<char>);

/// The kinds of errors.
#[derive(PartialEq, Eq, Structural)]
pub enum ParseErrorKind {
    UnresolvedGoto,
    UnknownPattern,
    TooManyStates,
    /// A label parsed while more labels are being parsed than there are.
    Overflow,
}

/// The error by its kind and name.
pub open spec fn err_view(e: ParseError) -> AErr {
    match e {
        ParseError::UnresolvedGoto(t) => (ParseErrorKind::UnresolvedGoto, t@),
        ParseError::UnknownPattern(p) => (ParseErrorKind::UnknownPattern, p@),
        ParseError::TooManyStates => (ParseErrorKind::TooManyStates, Seq::empty()),
    }
}

/// The sets of a leaf given by its sequences.
pub open spec fn sets_of(t: (Seq<usize>, Seq<Seq<u8>>, Seq<Seq<u8>>)) -> ALeaf {
    (t.0.to_set(), t.1.to_set(), t.2.to_set())
}

/// A leaf by its sets.
pub open spec fn al(l: LeafOrigin) -> ALeaf {
    sets_of(lv(l))
}

/// The empty leaf.
pub open spec fn empty_al() -> ALeaf {
    (Set::empty(), Set::empty(), Set::empty())
}

/// The leaves joined: everything that one of them has.
pub open spec fn join_al(ls: Seq<ALeaf>) -> ALeaf {
    (
        Set::new(|x: usize| exists|i: int| 0 <= i < ls.len() && (#[trigger] ls[i]).0.contains(x)),
        Set::new(|x: Seq<u8>| exists|i: int| 0 <= i < ls.len() && (#[trigger] ls[i]).1.contains(x)),
        Set::new(|x: Seq<u8>| exists|i: int| 0 <= i < ls.len() && (#[trigger] ls[i]).2.contains(x)),
    )
}

/// The state has the shape of a state of a chain: one transition, one
/// first byte state, a node that owns two leaves.
pub open spec fn shaped(s: StateOrigin) -> bool {
    &&& s.transitions@.len() == 1
    &&& s.transitions@[0].dfa_inits@.len() == 1
    &&& s.transitions@[0].bdd matches BddOrigin::NodeBothOwned { pos, neg, .. }
    &&& *pos is Leaf
    &&& *neg is Leaf
}

/// A state of a chain by its parts.
pub open spec fn astate(s: StateOrigin) -> AState {
    let t = s.transitions@[0];
    match t.bdd {
        BddOrigin::NodeBothOwned { var, pos, neg } => (t.key@, t.dfa_inits@[0], var, al((*pos)->Leaf_0), al((*neg)->Leaf_0)),
        _ => (t.key@, t.dfa_inits@[0], 0, empty_al(), empty_al()),
    }
}

/// The chain of a match with guards `w` that goes on with the leaf `then`,
/// its first state numbered `b`.
pub open spec fn chain_spec(w: Seq<(Seq<u8>, usize, usize)>, then: ALeaf, b: int) -> Seq<AState> {
    Seq::new(
        (2 * w.len() - 1) as nat,
        |k: int|
            {
                let g = chain_guard(w, k);
                let none = (Seq::<usize>::empty(), Seq::<Seq<u8>>::empty(), Seq::<Seq<u8>>::empty());
                (
                    g.0,
                    g.1,
                    g.2,
                    if k == 0 {
                        then
                    } else {
                        sets_of(chain_pos(w, none, b, k))
                    },
                    sets_of(chain_neg(w.len() as int, b, k)),
                )
            },
    )
}

/// The size of a command, for the order of parsing.
pub open spec fn size(c: Cmd) -> nat
    decreases c,
{
    match c {
        Cmd::Label(_, body) => 1 + size(*body),
        Cmd::Match(m) => 1 + size_in(m.then_cmds@),
        Cmd::Goto(_) => 1,
    }
}

/// The size of commands.
pub open spec fn size_in(cs: Seq<Cmd>) -> nat
    decreases cs,
{
    if cs.len() == 0 {
        0
    } else {
        size_in(cs.drop_last()) + size(cs.last()) + 1
    }
}

/// Parsing the command, with the labels `stack` being parsed, from what is
/// built `st`: what is built then and the command's leaf, or an error.
pub open spec fn sp_cmd(
    defs: Seq<(Seq<char>, Cmd)>,
    rx: Seq<(String, (DfaStateIx, DfaIx))>,
    stack: Seq<usize>,
    c: Cmd,
    st: Built,
) -> Result<(Built, ALeaf), AErr>
    decreases defs.len() - stack.len(), 1int, size(c),
{
    match c {
        Cmd::Label(_, body) => sp_cmd(defs, rx, stack, *body, st),
        Cmd::Goto(t) => match def_index(defs, t@, 0) {
            None => Err((ParseErrorKind::UnresolvedGoto, t@)),
            Some(i) => if 0 <= i < st.1.len() && st.1[i] is Some {
                Ok((st, st.1[i]->0))
            } else {
                sp_label(defs, rx, stack, i, st)
            },
        },
        Cmd::Match(m) => match sp_in(defs, rx, stack, m.then_cmds@, st) {
            Err(e) => Err(e),
            Ok((st1, ls)) => {
                let j = join_al(ls);
                let then = (j.0, j.1, j.2.union(views(m.run@).to_set()));
                let n = m.when@.len() as int;
                if n == 0 {
                    Ok((st1, then))
                } else if first_unknown(m.when@, rx, 0) is Some {
                    Err((ParseErrorKind::UnknownPattern, first_unknown(m.when@, rx, 0)->0))
                } else if st1.0.len() + 2 * n > usize::MAX {
                    Err((ParseErrorKind::TooManyStates, Seq::empty()))
                } else {
                    let w = guards_spec(m.when@, rx);
                    let b = st1.0.len() as int;
                    Ok(((st1.0 + chain_spec(w, then, b), st1.1), sets_of(go_leaf(b + 2 * n - 2, w[0].0))))
                }
            },
        },
    }
}

/// Parsing the commands one after another: what is built then and their
/// leaves, or the first error.
pub open spec fn sp_in(
    defs: Seq<(Seq<char>, Cmd)>,
    rx: Seq<(String, (DfaStateIx, DfaIx))>,
    stack: Seq<usize>,
    cs: Seq<Cmd>,
    st: Built,
) -> Result<(Built, Seq<ALeaf>), AErr>
    decreases defs.len() - stack.len(), 1int, size_in(cs),
{
    if cs.len() == 0 {
        Ok((st, Seq::empty()))
    } else {
        match sp_in(defs, rx, stack, cs.drop_last(), st) {
            Err(e) => Err(e),
            Ok((st1, ls)) => match sp_cmd(defs, rx, stack, cs.last(), st1) {
                Err(e) => Err(e),
                Ok((st2, l)) => Ok((st2, ls.push(l))),
            },
        }
    }
}

/// Parsing the label of definition `i`: a label being parsed gives the
/// empty leaf, a label parsed gives its leaf, else its body is parsed with
/// the label on the stack, and its leaf is kept.
pub open spec fn sp_label(
    defs: Seq<(Seq<char>, Cmd)>,
    rx: Seq<(String, (DfaStateIx, DfaIx))>,
    stack: Seq<usize>,
    i: int,
    st: Built,
) -> Result<(Built, ALeaf), AErr>
    decreases defs.len() - stack.len(), 0int, 0nat,
{
    if stack.contains(i as usize) {
        Ok((st, empty_al()))
    } else if 0 <= i < st.1.len() && st.1[i] is Some {
        Ok((st, st.1[i]->0))
    } else if stack.len() >= defs.len() || i < 0 || i >= defs.len() || i >= st.1.len() {
        Err((ParseErrorKind::Overflow, Seq::empty()))
    } else {
        match sp_cmd(defs, rx, stack.push(i as usize), defs[i].1, st) {
            Err(e) => Err(e),
            Ok((st1, l)) => Ok(((st1.0, st1.1.update(i, Some(l))), l)),
        }
    }
}

/// The states that parsing the bodies of the labels parsed so far (among
/// the first `n`) built.
pub open spec fn cached_work<'a>(defs: Seq<(&'a String, &'a Cmd)>, cache: Seq<Option<LeafOrigin>>, n: int) -> int
    decreases n,
{
    if n <= 0 {
        0
    } else {
        cached_work(defs, cache, n - 1) + if cache[n - 1] is Some {
            work(*defs[n - 1].1) as int
        } else {
            0int
        }
    }
}

/// Parsing one more label adds the work of its body.
proof fn lemma_cached_work_set<'a>(
    defs: Seq<(&'a String, &'a Cmd)>,
    a: Seq<Option<LeafOrigin>>,
    b: Seq<Option<LeafOrigin>>,
    ix: int,
    n: int,
)
    requires
        0 <= ix,
        n <= a.len(),
        a.len() == b.len(),
        a[ix] is None,
        ix < b.len() ==> b[ix] is Some,
        forall|j: int| 0 <= j < a.len() && j != ix ==> ((#[trigger] b[j]) is Some <==> a[j] is Some),
    ensures
        cached_work(defs, b, n) == cached_work(defs, a, n) + if ix < n {
            work(*defs[ix].1) as int
        } else {
            0int
        },
    decreases n,
{
    if n > 0 {
        lemma_cached_work_set(defs, a, b, ix, n - 1);
        if n - 1 != ix {
            assert(b[n - 1] is Some <==> a[n - 1] is Some);
        }
    }
}

/// The work of the labels parsed depends only on which are parsed.
proof fn lemma_cached_work_same<'a>(defs: Seq<(&'a String, &'a Cmd)>, a: Seq<Option<LeafOrigin>>, b: Seq<Option<LeafOrigin>>, n: int)
    requires
        n <= a.len(),
        a.len() == b.len(),
        forall|j: int| 0 <= j < a.len() ==> ((#[trigger] b[j]) is Some <==> a[j] is Some),
    ensures
        cached_work(defs, b, n) == cached_work(defs, a, n),
    decreases n,
{
    if n > 0 {
        lemma_cached_work_same(defs, a, b, n - 1);
        assert(b[n - 1] is Some <==> a[n - 1] is Some);
    }
}

/// With no label parsed, no work is done.
proof fn lemma_cached_work_none<'a>(defs: Seq<(&'a String, &'a Cmd)>, cache: Seq<Option<LeafOrigin>>, n: int)
    requires
        n <= cache.len(),
        forall|j: int| 0 <= j < cache.len() ==> (#[trigger] cache[j]) is None,
    ensures
        cached_work(defs, cache, n) == 0,
    decreases n,
{
    if n > 0 {
        lemma_cached_work_none(defs, cache, n - 1);
    }
}

/// With every label parsed, the work done is that of the last definition of
/// each label.
proof fn lemma_labels_work<'a>(
    cmds: Seq<Cmd>,
    labels: Seq<(String, LeafOrigin)>,
    defs: Seq<(&'a String, &'a Cmd)>,
    cache: Seq<Option<LeafOrigin>>,
    n: int,
)
    requires
        n <= labels.len(),
        n <= defs.len(),
        n <= cache.len(),
        forall|k: int| 0 <= k < n ==> (#[trigger] labels[k]).0@ == defs[k].0@,
        forall|k: int| 0 <= k < n ==> (#[trigger] cache[k]) is Some,
        forall|k: int| 0 <= k < n ==> last_def_in(cmds, (#[trigger] defs[k]).0@) == Some(*defs[k].1),
    ensures
        labels_work(cmds, labels, n) == cached_work(defs, cache, n),
    decreases n,
{
    if n > 0 {
        lemma_labels_work(cmds, labels, defs, cache, n - 1);
        assert(cache[n - 1] is Some);
        assert(last_def_in(cmds, defs[n - 1].0@) == Some(*defs[n - 1].1));
    }
}

/// The sets of joined leaves are those of the join of their sets.
proof fn lemma_join_al(targets: Seq<LeafOrigin>)
    ensures
        leaves_states(targets) == join_al(targets.map_values(|l: LeafOrigin| al(l))).0,
        leaves_strings(targets, true) == join_al(targets.map_values(|l: LeafOrigin| al(l))).1,
        leaves_strings(targets, false) == join_al(targets.map_values(|l: LeafOrigin| al(l))).2,
{
    let ls = targets.map_values(|l: LeafOrigin| al(l));
    assert(leaves_states(targets) =~= join_al(ls).0) by {
        assert forall|x: usize| leaves_states(targets).contains(x) implies join_al(ls).0.contains(x) by {
            let i = choose|i: int| 0 <= i < targets.len() && (#[trigger] targets[i]).states@.contains(x);
            assert(ls[i].0.contains(x));
        }
        assert forall|x: usize| join_al(ls).0.contains(x) implies leaves_states(targets).contains(x) by {
            let i = choose|i: int| 0 <= i < ls.len() && (#[trigger] ls[i]).0.contains(x);
            assert(targets[i].states@.contains(x));
        }
    }
    assert forall|g: bool| #![auto] leaves_strings(targets, g) =~= (if g { join_al(ls).1 } else { join_al(ls).2 }) by {
        let js = if g { join_al(ls).1 } else { join_al(ls).2 };
        assert forall|x: Seq<u8>| leaves_strings(targets, g).contains(x) implies js.contains(x) by {
            let (i, j) = choose|i: int, j: int|
                0 <= i < targets.len() && 0 <= j < leaf_strings(targets[i], g).len() && (#[trigger] leaf_strings(targets[i], g)[j])@ == x;
            let v = views(leaf_strings(targets[i], g));
            assert(v[j] == x);
            assert(v.to_set().contains(x));
            if g {
                assert(ls[i].1.contains(x));
            } else {
                assert(ls[i].2.contains(x));
            }
        }
        assert forall|x: Seq<u8>| js.contains(x) implies leaves_strings(targets, g).contains(x) by {
            if g {
                let i = choose|i: int| 0 <= i < ls.len() && (#[trigger] ls[i]).1.contains(x);
                let v = views(targets[i].get_olds@);
                assert(v.to_set().contains(x));
                let j = choose|j: int| 0 <= j < v.len() && v[j] == x;
                assert(leaf_strings(targets[i], g)[j]@ == x);
            } else {
                let i = choose|i: int| 0 <= i < ls.len() && (#[trigger] ls[i]).2.contains(x);
                let v = views(targets[i].exts@);
                assert(v.to_set().contains(x));
                let j = choose|j: int| 0 <= j < v.len() && v[j] == x;
                assert(leaf_strings(targets[i], g)[j]@ == x);
            }
        }
    }
    assert(leaves_strings(targets, true) == join_al(ls).1);
    assert(leaves_strings(targets, false) == join_al(ls).2);
}

/// The elements of two sequences, one after the other, are those of both.
proof fn lemma_concat_set<A>(a: Seq<A>, b: Seq<A>)
    ensures
        (a + b).to_set() == a.to_set().union(b.to_set()),
{
    assert forall|x: A| (a + b).to_set().contains(x) implies a.to_set().union(b.to_set()).contains(x) by {
        let k = choose|k: int| 0 <= k < (a + b).len() && (a + b)[k] == x;
        if k < a.len() {
            assert(a[k] == x);
        } else {
            assert(b[k - a.len()] == x);
        }
    }
    assert forall|x: A| a.to_set().union(b.to_set()).contains(x) implies (a + b).to_set().contains(x) by {
        if a.to_set().contains(x) {
            let k = choose|k: int| 0 <= k < a.len() && a[k] == x;
            assert((a + b)[k] == x);
        } else {
            let k = choose|k: int| 0 <= k < b.len() && b[k] == x;
            assert((a + b)[a.len() + k] == x);
        }
    }
    assert((a + b).to_set() =~= a.to_set().union(b.to_set()));
}

/// A state of a chain has the shape of one, and its parts are those of the
/// chain's spec.
proof fn lemma_chain_abs(s: Seq<StateOrigin>, w: Seq<(Seq<u8>, usize, usize)>, then: LeafOrigin, b: int, k: int)
    requires
        w.len() > 0,
        0 <= k < 2 * w.len() - 1,
        chain_ok(s, w, lv(then), b, k),
    ensures
        shaped(s[b + k]),
        astate(s[b + k]) == chain_spec(w, al(then), b)[k],
{
    let none = (Seq::<usize>::empty(), Seq::<Seq<u8>>::empty(), Seq::<Seq<u8>>::empty());
    if k != 0 {
        assert(chain_pos(w, lv(then), b, k) == chain_pos(w, none, b, k));
    }
}

/// An error among the first commands is the error of all.
proof fn lemma_sp_in_err(
    defs: Seq<(Seq<char>, Cmd)>,
    rx: Seq<(String, (DfaStateIx, DfaIx))>,
    stack: Seq<usize>,
    cs: Seq<Cmd>,
    i: int,
    st: Built,
)
    requires
        0 <= i <= cs.len(),
        sp_in(defs, rx, stack, cs.take(i), st) is Err,
    ensures
        sp_in(defs, rx, stack, cs, st) == sp_in(defs, rx, stack, cs.take(i), st),
    decreases cs.len() - i,
{
    if i < cs.len() {
        let t = cs.take(i + 1);
        assert(t.drop_last() =~= cs.take(i));
        lemma_sp_in_err(defs, rx, stack, cs, i + 1, st);
    } else {
        assert(cs.take(i) =~= cs);
    }
}

/// The state of a compilation: the definitions of the labels, the leaf of
/// each label once parsed, the labels being parsed, and the states built.
struct Resolver<'a> {
    defs: Vec<(&'a String, &'a Cmd)>,
    cache: Vec<Option<LeafOrigin>>,
    stack: Vec<usize>,
    states: Vec<StateOrigin>,
    regexes: &'a Vec<(String, (DfaStateIx, DfaIx))>,
    top: Ghost<Seq<Cmd>>,
}

impl<'a> Resolver<'a> {
    spec fn wf(&self) -> bool {
        &&& defs_ok(self.defs@, self.top@)
        &&& forall|n: Seq<char>| cmds_define(self.top@, n) ==> defined_in(self.defs@, n)
        &&& self.cache@.len() == self.defs@.len()
        &&& self.stack@.no_duplicates()
        &&& forall|k: int| 0 <= k < self.stack@.len() ==> #[trigger] self.stack@[k] < self.defs@.len()
        &&& forall|k: int| 0 <= k < self.stack@.len() ==> self.cache@[#[trigger] self.stack@[k] as int] is None
        &&& forall|i: int|
            0 <= i < self.cache@.len() && (#[trigger] self.cache@[i]) is Some ==> leaf_ok(
                self.cache@[i]->0,
                self.states@.len() as int,
            )
        &&& states_closed(self.states@, self.states@.len() as int)
        &&& forall|k: int| 0 <= k < self.states@.len() ==> shaped(#[trigger] self.states@[k])
    }

    spec fn built(&self) -> Built {
        (
            self.states@.map_values(|s: StateOrigin| astate(s)),
            self.cache@.map_values(
                |o: Option<LeafOrigin>|
                    match o {
                        Some(l) => Some(al(l)),
                        None => None::<ALeaf>,
                    },
            ),
        )
    }

    spec fn res_view(&self, r: Result<LeafOrigin, ParseError>) -> Result<(Built, ALeaf), AErr> {
        match r {
            Ok(l) => Ok((self.built(), al(l))),
            Err(e) => Err(err_view(e)),
        }
    }

    spec fn done(&self) -> int {
        cached_work(self.defs@, self.cache@, self.defs@.len() as int)
    }

    spec fn rem(&self) -> int {
        self.defs@.len() - self.stack@.len()
    }

    spec fn same_frame(&self, o: Self) -> bool {
        &&& self.defs == o.defs
        &&& self.regexes == o.regexes
        &&& self.top == o.top
    }

    spec fn grown(&self, o: Self) -> bool {
        &&& self.wf()
        &&& self.stack@ == o.stack@
        &&& o.states@.len() <= self.states@.len()
        &&& cache_kept(o.cache@, self.cache@)
    }

    spec fn errs_ok(&self, r: Result<LeafOrigin, ParseError>) -> bool {
        &&& (r matches Err(ParseError::UnresolvedGoto(t)) ==> cmds_jump(self.top@, t@) && !cmds_define(
            self.top@,
            t@,
        ))
        &&& (r matches Err(ParseError::UnknownPattern(p)) ==> cmds_use(self.top@, p@) && !known(
            self.regexes@,
            p@,
        ))
    }

    /// Parses a command: a match builds its chain of states, a labelled
    /// command is its body, a jump is the leaf of its label.
    fn parse_cmd(&mut self, c: &'a Cmd) -> (r: Result<LeafOrigin, ParseError>)
        requires
            old(self).wf(),
            within(*c, old(self).top@),
        ensures
            final(self).same_frame(*old(self)),
            final(self).errs_ok(r),
            sp_cmd(dview(old(self).defs@), old(self).regexes@, old(self).stack@, *c, old(self).built())
                == final(self).res_view(r),
            r is Ok ==> {
                &&& final(self).grown(*old(self))
                &&& leaf_ok(r->Ok_0, final(self).states@.len() as int)
                &&& forall|t: Seq<char>| #[trigger] jumps_to(*c, t) ==> cmds_define(old(self).top@, t)
                &&& forall|p: Seq<char>| #[trigger] uses_pattern(*c, p) ==> known(old(self).regexes@, p)
                &&& final(self).states@.len() == old(self).states@.len() + work(*c) + final(self).done() - old(self).done()
            },
        decreases old(self).rem(), 1int, *c, 1int,
    {
        match c {
            Cmd::Match(_) => self.parse_match(c),
            Cmd::Label(_, body) => {
                let body: &'a Cmd = &**body;
                assert(within(*body, self.top@)) by {
                    assert forall|t: Seq<char>| #[trigger] jumps_to(*body, t) implies cmds_jump(self.top@, t) by {
                        assert(jumps_to(*c, t));
                    }
                    assert forall|p: Seq<char>| #[trigger] uses_pattern(*body, p) implies cmds_use(self.top@, p) by {
                        assert(uses_pattern(*c, p));
                    }
                    assert forall|n: Seq<char>| #[trigger] defines_label(*body, n) implies cmds_define(self.top@, n) by {
                        assert(defines_label(*c, n));
                    }
                }
                let r = self.parse_cmd(body);
                proof {
                    assert forall|t: Seq<char>| #[trigger] jumps_to(*c, t) implies jumps_to(*body, t) by {}
                    assert forall|p: Seq<char>| #[trigger] uses_pattern(*c, p) implies uses_pattern(*body, p) by {}
                }
                r
            },
            Cmd::Goto(t) => {
                match find_def(&self.defs, t) {
                    None => {
                        assert(jumps_to(*c, t@));
                        Err(ParseError::UnresolvedGoto(t.clone()))
                    },
                    Some(i) => {
                        proof {
                            assert(cmds_define(self.top@, self.defs@[i as int].0@));
                        }
                        match &self.cache[i] {
                            Some(l) => {
                                let r = copy_leaf(l);
                                assert(self.cache@[i as int] is Some);
                                assert(leaf_ok(r, self.states@.len() as int)) by {
                                    assert(r.states@ == l.states@);
                                }
                                return Ok(r);
                            },
                            None => {},
                        }
                        self.parse_label(i)
                    },
                }
            },
        }
    }

    /// Parses a match: its follow-up commands, joined, with its extensions
    /// added; then its chain of states.
    fn parse_match(&mut self, c: &'a Cmd) -> (r: Result<LeafOrigin, ParseError>)
        requires
            old(self).wf(),
            within(*c, old(self).top@),
            *c is Match,
        ensures
            final(self).same_frame(*old(self)),
            final(self).errs_ok(r),
            sp_cmd(dview(old(self).defs@), old(self).regexes@, old(self).stack@, *c, old(self).built())
                == final(self).res_view(r),
            r is Ok ==> {
                &&& final(self).grown(*old(self))
                &&& leaf_ok(r->Ok_0, final(self).states@.len() as int)
                &&& forall|t: Seq<char>| #[trigger] jumps_to(*c, t) ==> cmds_define(old(self).top@, t)
                &&& forall|p: Seq<char>| #[trigger] uses_pattern(*c, p) ==> known(old(self).regexes@, p)
                &&& final(self).states@.len() == old(self).states@.len() + work(*c) + final(self).done() - old(self).done()
            },
        decreases old(self).rem(), 1int, *c, 0int,
    {
        let m: &'a Match = match c {
            Cmd::Match(m) => m,
            _ => vstd::pervasive::unreached(),
        };
        let ghost s0 = *self;
        let mut targets: Vec<LeafOrigin> = Vec::new();
        let mut i: usize = 0;
        proof {
            assert(m.then_cmds@.take(0) =~= Seq::<Cmd>::empty());
            assert(targets@.map_values(|l: LeafOrigin| al(l)) =~= Seq::<ALeaf>::empty());
        }
        while i < m.then_cmds.len()
            invariant
                *c == Cmd::Match(*m),
                s0 == *old(self),
                i <= m.then_cmds@.len(),
                self.same_frame(s0),
                self.grown(s0),
                s0.wf(),
                within(*c, s0.top@),
                targets@.len() == i,
                forall|k: int| 0 <= k < i ==> leaf_ok(#[trigger] targets@[k], self.states@.len() as int),
                self.states@.len() == s0.states@.len() + work_in(m.then_cmds@.take(i as int)) + self.done() - s0.done(),
                sp_in(dview(s0.defs@), s0.regexes@, s0.stack@, m.then_cmds@.take(i as int), s0.built()) == Ok::<
                    (Built, Seq<ALeaf>),
                    AErr,
                >((self.built(), targets@.map_values(|l: LeafOrigin| al(l)))),
                forall|k: int, t: Seq<char>|
                    0 <= k < i && #[trigger] jumps_to(m.then_cmds@[k], t) ==> cmds_define(s0.top@, t),
                forall|k: int, p: Seq<char>|
                    0 <= k < i && #[trigger] uses_pattern(m.then_cmds@[k], p) ==> known(s0.regexes@, p),
            decreases m.then_cmds@.len() - i,
        {
            let sub: &'a Cmd = &m.then_cmds[i];
            assert(*sub == m.then_cmds@[i as int]);
            assert(within(*sub, self.top@)) by {
                assert forall|t: Seq<char>| #[trigger] jumps_to(*sub, t) implies cmds_jump(self.top@, t) by {
                    lemma_in_seq(m.then_cmds@, t);
                    assert(jumps_to(m.then_cmds@[i as int], t));
                    assert(jumps_to(*c, t));
                }
                assert forall|p: Seq<char>| #[trigger] uses_pattern(*sub, p) implies cmds_use(self.top@, p) by {
                    lemma_in_seq(m.then_cmds@, p);
                    assert(uses_pattern(m.then_cmds@[i as int], p));
                    assert(uses_pattern(*c, p));
                }
                assert forall|n: Seq<char>| #[trigger] defines_label(*sub, n) implies cmds_define(self.top@, n) by {
                    lemma_in_seq(m.then_cmds@, n);
                    assert(defines_label(m.then_cmds@[i as int], n));
                    assert(defines_label(*c, n));
                }
            }
            proof {
                assert(decreases_to!(*c => (*c)->Match_0));
                assert((*c)->Match_0 == *m);
                assert(decreases_to!(*m => m.then_cmds));
                assert(decreases_to!(m.then_cmds => m.then_cmds@));
                assert(decreases_to!(m.then_cmds@ => m.then_cmds@[i as int]));
            }
            let ghost before = *self;
            let r = self.parse_cmd(sub);
            proof {
                let tk = m.then_cmds@.take(i + 1);
                assert(tk.drop_last() =~= m.then_cmds@.take(i as int));
                assert(tk.last() == *sub);
            }
            match r {
                Err(e) => {
                    proof {
                        lemma_sp_in_err(dview(s0.defs@), s0.regexes@, s0.stack@, m.then_cmds@, i + 1, s0.built());
                    }
                    return Err(e);
                },
                Ok(l) => {
                    let ghost t0 = targets@;
                    targets.push(l);
                    proof {
                        assert forall|k: int| 0 <= k < i + 1 implies leaf_ok(#[trigger] targets@[k], self.states@.len() as int) by {
                            if k < i {
                                assert(targets@[k] == t0[k]);
                                assert(leaf_ok(t0[k], before.states@.len() as int));
                            }
                        }
                        assert(targets@.map_values(|l: LeafOrigin| al(l)) =~= t0.map_values(|l: LeafOrigin| al(l)).push(al(l)));
                    }
                },
            }
            i = i + 1;
        }
        let ghost tg = targets@;
        let mut then = join_leaves(targets);
        proof {
            lemma_join_ok(tg, then, self.states@.len() as int);
            assert(m.then_cmds@.take(i as int) =~= m.then_cmds@);
            lemma_join_al(tg);
        }
        let ghost j0 = then;
        extend_run(&mut then, &m.run);
        let ghost ls = tg.map_values(|l: LeafOrigin| al(l));
        proof {
            lemma_concat_set(views(j0.exts@), views(m.run@));
            let j = join_al(ls);
            assert(al(then) == (j.0, j.1, j.2.union(views(m.run@).to_set())));
        }
        proof {
            assert forall|t: Seq<char>| #[trigger] jumps_to(*c, t) implies cmds_define(s0.top@, t) by {
                lemma_in_seq(m.then_cmds@, t);
                let k = choose|k: int| 0 <= k < m.then_cmds@.len() && #[trigger] jumps_to(m.then_cmds@[k], t);
            }
        }
        if m.when.len() == 0 {
            proof {
                assert forall|p: Seq<char>| #[trigger] uses_pattern(*c, p) implies known(s0.regexes@, p) by {
                    lemma_in_seq(m.then_cmds@, p);
                    let k = choose|k: int| 0 <= k < m.then_cmds@.len() && #[trigger] uses_pattern(m.then_cmds@[k], p);
                }
            }
            return Ok(then);
        }
        let guards = match lookup_guards(&m.when, self.regexes) {
            Err(e) => {
                proof {
                    let p = choose|p: String| e == ParseError::UnknownPattern(p);
                    assert(uses_pattern(*c, p@));
                }
                return Err(e);
            },
            Ok(g) => g,
        };
        proof {
            assert forall|p: Seq<char>| #[trigger] uses_pattern(*c, p) implies known(s0.regexes@, p) by {
                if exists|j: int| 0 <= j < m.when@.len() && (#[trigger] m.when@[j]).1@ == p {
                    let j = choose|j: int| 0 <= j < m.when@.len() && (#[trigger] m.when@[j]).1@ == p;
                } else {
                    lemma_in_seq(m.then_cmds@, p);
                    let k = choose|k: int| 0 <= k < m.then_cmds@.len() && #[trigger] uses_pattern(m.then_cmds@[k], p);
                }
            }
        }
        let n = guards.len();
        if n > (usize::MAX - self.states.len()) / 2 {
            assert(self.states@.len() + 2 * n > usize::MAX);
            return Err(ParseError::TooManyStates);
        }
        let ghost b = self.states@.len() as int;
        let ghost s1 = self.states@;
        let ghost tv = then;
        let ghost gv = guards@;
        let r = match_states(&mut self.states, guards, then);
        proof {
            let w = when_view(gv);
            let ch = chain_spec(w, al(tv), b);
            assert forall|k: int| 0 <= k < self.states@.len() implies shaped(#[trigger] self.states@[k]) && astate(
                self.states@[k],
            ) == (s1.map_values(|s: StateOrigin| astate(s)) + ch)[k] by {
                if k < b {
                    assert(self.states@.subrange(0, b)[k] == s1[k]);
                } else {
                    assert(chain_ok(self.states@, w, lv(tv), b, k - b));
                    lemma_chain_abs(self.states@, w, tv, b, k - b);
                }
            }
            assert(self.built().0 =~= s1.map_values(|s: StateOrigin| astate(s)) + ch);
            assert(self.states@.subrange(0, b) == s1);
            lemma_chain_closed(self.states@, when_view(guards@), tv, b);
            let m2 = self.states@.len() as int;
            assert forall|i: int| 0 <= i < self.cache@.len() && (#[trigger] self.cache@[i]) is Some implies leaf_ok(
                self.cache@[i]->0,
                m2,
            ) by {
                assert(leaf_ok(self.cache@[i]->0, b));
            }
            assert(r.states@ == seq![(b + 2 * n - 2) as usize]);
            assert(leaf_ok(r, m2));
        }
        Ok(r)
    }

    /// Parses the label of definition `ix`: a label being parsed (a cycle)
    /// gives an empty leaf; a label parsed before gives its leaf again;
    /// else its body is parsed, and its leaf kept.
    fn parse_label(&mut self, ix: usize) -> (r: Result<LeafOrigin, ParseError>)
        requires
            old(self).wf(),
            ix < old(self).defs@.len(),
        ensures
            final(self).same_frame(*old(self)),
            final(self).errs_ok(r),
            sp_label(dview(old(self).defs@), old(self).regexes@, old(self).stack@, ix as int, old(self).built())
                == final(self).res_view(r),
            old(self).stack@.contains(ix) ==> r is Ok && empty_leaf(r->Ok_0) && *final(self) == *old(self),
            !old(self).stack@.contains(ix) && old(self).cache@[ix as int] is Some ==> r is Ok && lv(r->Ok_0) == lv(
                old(self).cache@[ix as int]->0,
            ) && *final(self) == *old(self),
            r is Ok ==> {
                &&& final(self).grown(*old(self))
                &&& leaf_ok(r->Ok_0, final(self).states@.len() as int)
                &&& !old(self).stack@.contains(ix) ==> final(self).cache@[ix as int] is Some && lv(
                    final(self).cache@[ix as int]->0,
                ) == lv(r->Ok_0)
                &&& final(self).states@.len() == old(self).states@.len() + final(self).done() - old(self).done()
            },
        decreases old(self).rem(), 0int, *old(self).defs@[ix as int].1, 0int,
    {
        if contains_ix(&self.stack, ix) {
            let r = LeafOrigin { states: Vec::new(), get_olds: Vec::new(), exts: Vec::new() };
            assert(al(r) =~= empty_al()) by {
                assert(r.states@.to_set() =~= Set::empty());
                assert(views(r.get_olds@).to_set() =~= Set::empty());
                assert(views(r.exts@).to_set() =~= Set::empty());
            }
            return Ok(r);
        }
        match &self.cache[ix] {
            Some(l) => {
                let r = copy_leaf(l);
                assert(leaf_ok(r, self.states@.len() as int)) by {
                    assert(r.states@ == l.states@);
                }
                assert(self.built().1[ix as int] == Some(al(*l)));
                return Ok(r);
            },
            None => {},
        }
        let body: &'a Cmd = self.defs[ix].1;
        proof {
            lemma_stack_fits(self.stack@.push(ix), self.defs@.len() as int);
        }
        let ghost s0 = *self;
        self.stack.push(ix);
        assert(self.built() == s0.built());
        assert(dview(s0.defs@)[ix as int].1 == *body);
        assert(!s0.stack@.contains(ix));
        let r = self.parse_cmd(body);
        match r {
            Err(e) => Err(e),
            Ok(l) => {
                self.stack.pop();
                let kept = copy_leaf(&l);
                let ghost c1 = self.cache@;
                self.cache.set(ix, Some(kept));
                proof {
                    lemma_cached_work_set(self.defs@, c1, self.cache@, ix as int, self.defs@.len() as int);
                    assert(self.built().1 =~= c1.map_values(
                        |o: Option<LeafOrigin>|
                            match o {
                                Some(l) => Some(al(l)),
                                None => None::<ALeaf>,
                            },
                    ).update(ix as int, Some(al(l))));
                    assert(self.stack@ == s0.stack@);
                    assert forall|i: int| 0 <= i < self.cache@.len() && (#[trigger] self.cache@[i]) is Some implies leaf_ok(
                        self.cache@[i]->0,
                        self.states@.len() as int,
                    ) by {
                        if i == ix {
                            assert(kept.states@ == l.states@);
                        }
                    }
                }
                Ok(l)
            },
        }
    }
}

} // verus!

verus! {

/// The second pass of the compilation: each label not parsed yet is parsed,
/// in the order of the definitions, from definition `i` on.
pub open spec fn sp_labels(
    defs: Seq<(Seq<char>, Cmd)>,
    rx: Seq<(String, (DfaStateIx, DfaIx))>,
    i: int,
    st: Built,
) -> Result<Built, AErr>
    decreases defs.len() - i,
{
    if i < 0 || i >= defs.len() {
        Ok(st)
    } else if i < st.1.len() && st.1[i] is Some {
        sp_labels(defs, rx, i + 1, st)
    } else {
        match sp_label(defs, rx, Seq::empty(), i, st) {
            Err(e) => Err(e),
            Ok((st1, _)) => sp_labels(defs, rx, i + 1, st1),
        }
    }
}

/// No label parsed yet.
pub open spec fn none_parsed(n: nat) -> Seq<Option<ALeaf>> {
    Seq::new(n, |i: int| None::<ALeaf>)
}

/// The compilation of a configuration: the definitions of its labels are
/// collected, each label is parsed, then the commands; the result is the
/// states, the leaf that enters the configuration (the join of the
/// commands' leaves) and the leaf of each label, or the first error.
pub open spec fn sp_parse(cmds: Seq<Cmd>, rx: Seq<(String, (DfaStateIx, DfaIx))>) -> Result<
    (Seq<AState>, ALeaf, Seq<(Seq<char>, ALeaf)>),
    AErr,
> {
    let defs = coll_in(cmds, Seq::empty());
    let st0: Built = (Seq::empty(), none_parsed(defs.len()));
    match sp_labels(defs, rx, 0, st0) {
        Err(e) => Err(e),
        Ok(st2) => match sp_in(defs, rx, Seq::empty(), cmds, st2) {
            Err(e) => Err(e),
            Ok((st3, ls)) => Ok((st3.0, join_al(ls), Seq::new(defs.len(), |i: int| (defs[i].0, st3.1[i]->0)))),
        },
    }
}

/// A label of `labels` is named `name`.
pub open spec fn has_label(labels: Seq<(String, LeafOrigin)>, name: Seq<char>) -> bool {
    exists|i: int| 0 <= i < labels.len() && (#[trigger] labels[i]).0@ == name
}

/// A configuration compiled into key-value states.
pub struct Parser {
    /// The key-value states.
    pub states: Vec<StateOrigin>,
    /// The automaton of each pattern: its first byte state and its index.
    pub regexes: Vec<(String, (DfaStateIx, DfaIx))>,
    /// The leaf of each label.
    pub labels: Vec<(String, LeafOrigin)>,
}

impl Parser {
    /// Compiles the commands into key-value states, given the automata of
    /// their patterns; the returned leaf enters the configuration.
    ///
    /// The labels are collected first (a later definition of a name
    /// replaces an earlier one) and each is parsed once, in the order of
    /// their first definitions; then the commands are parsed and their
    /// leaves joined. A jump to a label that is being parsed (a cycle) gets
    /// an empty leaf. A jump to a label that the configuration does not
    /// define, and a pattern with no automaton, are errors.
    ///
    /// The result is that of `sp_parse`: the states, the entering leaf and
    /// the leaf of each label, each leaf by its sets (a join has no order).
    /// From it: what a jump or a pattern names must exist, every state goes
    /// only to states that exist, and the number of states is the work of
    /// the commands plus that of each label's last definition.
    pub fn parse(cmds: Vec<Cmd>, regexes: Vec<(String, (DfaStateIx, DfaIx))>) -> (r: Result<
        (Parser, LeafOrigin),
        ParseError,
    >)
        ensures
            sp_parse(cmds@, regexes@) == match r {
                Ok((p, init)) => Ok((
                    p.states@.map_values(|s: StateOrigin| astate(s)),
                    al(init),
                    p.labels@.map_values(|x: (String, LeafOrigin)| (x.0@, al(x.1))),
                )),
                Err(e) => Err(err_view(e)),
            },
            r is Ok ==> forall|k: int| 0 <= k < r->Ok_0.0.states@.len() ==> shaped(#[trigger] r->Ok_0.0.states@[k]),
            r matches Err(ParseError::UnresolvedGoto(t)) ==> cmds_jump(cmds@, t@) && !cmds_define(cmds@, t@),
            r matches Err(ParseError::UnknownPattern(p)) ==> cmds_use(cmds@, p@) && !known(regexes@, p@),
            r is Ok ==> {
                let (p, init) = r->Ok_0;
                &&& forall|t: Seq<char>| #[trigger] cmds_jump(cmds@, t) ==> cmds_define(cmds@, t)
                &&& forall|q: Seq<char>| #[trigger] cmds_use(cmds@, q) ==> known(regexes@, q)
                &&& p.regexes@ == regexes@
                &&& states_closed(p.states@, p.states@.len() as int)
                &&& leaf_ok(init, p.states@.len() as int)
                &&& forall|n: Seq<char>| #[trigger] cmds_define(cmds@, n) <==> has_label(p.labels@, n)
                &&& forall|i: int, j: int|
                    0 <= i < j < p.labels@.len() ==> (#[trigger] p.labels@[i]).0@ != (#[trigger] p.labels@[j]).0@
                &&& forall|i: int| 0 <= i < p.labels@.len() ==> leaf_ok((#[trigger] p.labels@[i]).1, p.states@.len() as int)
                &&& p.states@.len() == labels_work(cmds@, p.labels@, p.labels@.len() as int) + work_in(cmds@)
            },
    {
        let ghost top = cmds@;
        let mut defs: Vec<(&String, &Cmd)> = Vec::new();
        let mut i: usize = 0;
        proof {
            assert(cmds@.take(0) =~= Seq::<Cmd>::empty());
            assert(dview(defs@) =~= Seq::<(Seq<char>, Cmd)>::empty());
        }
        while i < cmds.len()
            invariant
                i <= cmds@.len(),
                top == cmds@,
                defs_ok(defs@, top),
                forall|k: int, n: Seq<char>| 0 <= k < i && #[trigger] defines_label(cmds@[k], n) ==> defined_in(defs@, n),
                forall|j: int| 0 <= j < defs@.len() ==> last_def_in(cmds@.take(i as int), (#[trigger] defs@[j]).0@) == Some(*defs@[j].1),
                dview(defs@) == coll_in(cmds@.take(i as int), Seq::empty()),
            decreases cmds@.len() - i,
        {
            let c = &cmds[i];
            assert(within(*c, top)) by {
                assert forall|t: Seq<char>| #[trigger] jumps_to(*c, t) implies cmds_jump(top, t) by {
                    assert(jumps_to(top[i as int], t));
                }
                assert forall|p: Seq<char>| #[trigger] uses_pattern(*c, p) implies cmds_use(top, p) by {
                    assert(uses_pattern(top[i as int], p));
                }
                assert forall|n: Seq<char>| #[trigger] defines_label(*c, n) implies cmds_define(top, n) by {
                    assert(defines_label(top[i as int], n));
                }
            }
            let ghost d0 = defs@;
            collect_labels(&mut defs, c, Ghost(top));
            proof {
                assert forall|k: int, n: Seq<char>| 0 <= k < i + 1 && #[trigger] defines_label(cmds@[k], n) implies defined_in(defs@, n) by {
                    if k < i {
                        let j = choose|j: int| 0 <= j < d0.len() && (#[trigger] d0[j]).0@ == n;
                        assert(defs@[j].0@ == n);
                    }
                }
                let tk = cmds@.take(i + 1);
                assert(tk.drop_last() =~= cmds@.take(i as int));
                assert(tk.last() == *c);
                assert forall|j: int| 0 <= j < defs@.len() implies last_def_in(cmds@.take(i + 1), (#[trigger] defs@[j]).0@) == Some(*defs@[j].1) by {
                    let tk = cmds@.take(i + 1);
                    assert(tk.drop_last() =~= cmds@.take(i as int));
                    assert(tk.last() == *c);
                    assert(def_after(defs@, d0, j, last_def(*c, defs@[j].0@)));
                    if last_def(*c, defs@[j].0@) is None {
                        assert(defs@[j] == d0[j]);
                    }
                }
            }
            i = i + 1;
        }
        proof {
            assert(cmds@.take(i as int) =~= cmds@);
        }
        let mut cache: Vec<Option<LeafOrigin>> = Vec::new();
        while cache.len() < defs.len()
            invariant
                cache@.len() <= defs@.len(),
                forall|k: int| 0 <= k < cache@.len() ==> (#[trigger] cache@[k]) is None,
            decreases defs@.len() - cache@.len(),
        {
            cache.push(None);
        }
        let mut res = Resolver { defs, cache, stack: Vec::new(), states: Vec::new(), regexes: &regexes, top: Ghost(top) };
        let ghost dd = dview(res.defs@);
        let ghost st0: Built = (Seq::empty(), none_parsed(dd.len()));
        proof {
            lemma_cached_work_none(res.defs@, res.cache@, res.defs@.len() as int);
            assert(dd == coll_in(cmds@, Seq::empty()));
            assert(res.built() =~= st0) by {
                assert(res.built().0 =~= Seq::<AState>::empty());
                assert(res.built().1 =~= none_parsed(dd.len()));
            }
        }
        assert(res.wf()) by {
            assert forall|n: Seq<char>| cmds_define(top, n) implies defined_in(res.defs@, n) by {
                let k = choose|k: int| 0 <= k < top.len() && #[trigger] defines_label(top[k], n);
                assert(defines_label(cmds@[k], n));
            }
        }
        let mut i: usize = 0;
        while i < res.defs.len()
            invariant
                res.wf(),
                res.stack@.len() == 0,
                res.top@ == top,
                top == cmds@,
                *res.regexes == regexes,
                i <= res.defs@.len(),
                forall|k: int| 0 <= k < i ==> (#[trigger] res.cache@[k]) is Some,
                res.states@.len() == res.done(),
                forall|j: int| 0 <= j < res.defs@.len() ==> last_def_in(cmds@, (#[trigger] res.defs@[j]).0@) == Some(*res.defs@[j].1),
                dd == dview(res.defs@),
                dd == coll_in(cmds@, Seq::empty()),
                st0 == (Seq::<AState>::empty(), none_parsed(dd.len())),
                sp_labels(dd, regexes@, 0, st0) == sp_labels(dd, regexes@, i as int, res.built()),
            decreases res.defs@.len() - i,
        {
            let ghost before = res;
            proof {
                assert(res.stack@ =~= Seq::<usize>::empty());
            }
            if res.cache[i].is_none() {
                assert(before.built().1[i as int] is None);
                match res.parse_label(i) {
                    Err(e) => {
                        return Err(e);
                    },
                    Ok(_) => {
                        assert(!before.stack@.contains(i));
                    },
                }
            }
            proof {
                assert forall|k: int| 0 <= k < i + 1 implies (#[trigger] res.cache@[k]) is Some by {
                    if k < i {
                        assert(before.cache@[k] is Some);
                    }
                }
            }
            i = i + 1;
        }
        let ghost st2 = res.built();
        let mut targets: Vec<LeafOrigin> = Vec::new();
        let mut i: usize = 0;
        proof {
            assert(sp_labels(dd, regexes@, 0, st0) == Ok::<Built, AErr>(st2));
            assert(cmds@.take(0) =~= Seq::<Cmd>::empty());
            assert(targets@.map_values(|l: LeafOrigin| al(l)) =~= Seq::<ALeaf>::empty());
        }
        while i < cmds.len()
            invariant
                sp_labels(dd, regexes@, 0, st0) == Ok::<Built, AErr>(st2),
                st0 == (Seq::<AState>::empty(), none_parsed(dd.len())),
                dd == dview(res.defs@),
                dd == coll_in(cmds@, Seq::empty()),
                res.stack@ == Seq::<usize>::empty(),
                sp_in(dd, regexes@, Seq::empty(), cmds@.take(i as int), st2) == Ok::<(Built, Seq<ALeaf>), AErr>(
                    (res.built(), targets@.map_values(|l: LeafOrigin| al(l))),
                ),
                res.wf(),
                res.stack@.len() == 0,
                res.top@ == top,
                top == cmds@,
                *res.regexes == regexes,
                i <= cmds@.len(),
                targets@.len() == i,
                forall|k: int| 0 <= k < res.cache@.len() ==> (#[trigger] res.cache@[k]) is Some,
                forall|k: int| 0 <= k < i ==> leaf_ok(#[trigger] targets@[k], res.states@.len() as int),
                res.states@.len() == res.done() + work_in(cmds@.take(i as int)),
                forall|j: int| 0 <= j < res.defs@.len() ==> last_def_in(cmds@, (#[trigger] res.defs@[j]).0@) == Some(*res.defs@[j].1),
                forall|k: int, t: Seq<char>| 0 <= k < i && #[trigger] jumps_to(cmds@[k], t) ==> cmds_define(top, t),
                forall|k: int, p: Seq<char>| 0 <= k < i && #[trigger] uses_pattern(cmds@[k], p) ==> known(regexes@, p),
            decreases cmds@.len() - i,
        {
            let c = &cmds[i];
            assert(within(*c, top)) by {
                assert forall|t: Seq<char>| #[trigger] jumps_to(*c, t) implies cmds_jump(top, t) by {
                    assert(jumps_to(top[i as int], t));
                }
                assert forall|p: Seq<char>| #[trigger] uses_pattern(*c, p) implies cmds_use(top, p) by {
                    assert(uses_pattern(top[i as int], p));
                }
                assert forall|n: Seq<char>| #[trigger] defines_label(*c, n) implies cmds_define(top, n) by {
                    assert(defines_label(top[i as int], n));
                }
            }
            let ghost before = res;
            let ghost ls0 = targets@.map_values(|l: LeafOrigin| al(l));
            let r = res.parse_cmd(c);
            proof {
                let tk = cmds@.take(i + 1);
                assert(tk.drop_last() =~= cmds@.take(i as int));
                assert(tk.last() == *c);
            }
            match r {
                Err(e) => {
                    proof {
                        lemma_sp_in_err(dd, regexes@, Seq::empty(), cmds@, i + 1, st2);
                    }
                    return Err(e);
                },
                Ok(l) => {
                    let ghost t0 = targets@;
                    targets.push(l);
                    proof {
                        assert forall|k: int| 0 <= k < res.cache@.len() implies (#[trigger] res.cache@[k]) is Some by {
                            assert(before.cache@[k] is Some);
                        }
                        assert forall|k: int| 0 <= k < res.cache@.len() implies ((#[trigger] res.cache@[k]) is Some <==> before.cache@[k] is Some) by {
                            assert(before.cache@[k] is Some);
                        }
                        lemma_cached_work_same(res.defs@, before.cache@, res.cache@, res.defs@.len() as int);
                        let tk = cmds@.take(i + 1);
                        assert(tk.drop_last() =~= cmds@.take(i as int));
                        assert(tk.last() == *c);
                        assert forall|k: int| 0 <= k < i + 1 implies leaf_ok(#[trigger] targets@[k], res.states@.len() as int) by {
                            if k < i {
                                assert(targets@[k] == t0[k]);
                                assert(leaf_ok(t0[k], before.states@.len() as int));
                            }
                        }
                        assert(targets@.map_values(|l: LeafOrigin| al(l)) =~= ls0.push(al(l)));
                    }
                },
            }
            i = i + 1;
        }
        let ghost tg = targets@;
        let init = join_leaves(targets);
        proof {
            lemma_join_ok(tg, init, res.states@.len() as int);
            assert(cmds@.take(i as int) =~= cmds@);
            lemma_join_al(tg);
        }
        let mut labels: Vec<(String, LeafOrigin)> = Vec::new();
        let mut i: usize = 0;
        while i < res.defs.len()
            invariant
                res.wf(),
                i <= res.defs@.len(),
                labels@.len() == i,
                forall|k: int| 0 <= k < res.cache@.len() ==> (#[trigger] res.cache@[k]) is Some,
                forall|k: int| 0 <= k < i ==> (#[trigger] labels@[k]).0@ == res.defs@[k].0@,
                forall|k: int| 0 <= k < i ==> leaf_ok((#[trigger] labels@[k]).1, res.states@.len() as int),
                res.states@.len() == res.done() + work_in(cmds@),
                forall|j: int| 0 <= j < res.defs@.len() ==> last_def_in(cmds@, (#[trigger] res.defs@[j]).0@) == Some(*res.defs@[j].1),
                forall|k: int| 0 <= k < i ==> al((#[trigger] labels@[k]).1) == al(res.cache@[k]->0),
            decreases res.defs@.len() - i,
        {
            match &res.cache[i] {
                Some(l) => {
                    let name: String = (*res.defs[i].0).clone();
                    let kept = copy_leaf(l);
                    assert(kept.states@ == l.states@);
                    let ghost l0 = labels@;
                    labels.push((name, kept));
                    assert(forall|k: int| 0 <= k < i ==> labels@[k] == l0[k]);
                },
                None => {
                    assert(res.cache@[i as int] is Some);
                },
            }
            i = i + 1;
        }
        proof {
            assert forall|n: Seq<char>| #[trigger] cmds_define(cmds@, n) <==> has_label(labels@, n) by {
                if cmds_define(cmds@, n) {
                    let j = choose|j: int| 0 <= j < res.defs@.len() && (#[trigger] res.defs@[j]).0@ == n;
                    assert(labels@[j].0@ == n);
                }
                if has_label(labels@, n) {
                    let j = choose|j: int| 0 <= j < labels@.len() && (#[trigger] labels@[j]).0@ == n;
                    assert(cmds_define(top, res.defs@[j].0@));
                }
            }
            assert forall|i: int, j: int| 0 <= i < j < labels@.len() implies (#[trigger] labels@[i]).0@ != (#[trigger] labels@[j]).0@ by {
                assert(res.defs@[i].0@ != res.defs@[j].0@);
            }
            assert forall|t: Seq<char>| #[trigger] cmds_jump(cmds@, t) implies cmds_define(cmds@, t) by {
                let k = choose|k: int| 0 <= k < cmds@.len() && #[trigger] jumps_to(cmds@[k], t);
            }
            assert forall|q: Seq<char>| #[trigger] cmds_use(cmds@, q) implies known(regexes@, q) by {
                let k = choose|k: int| 0 <= k < cmds@.len() && #[trigger] uses_pattern(cmds@[k], q);
            }
            lemma_labels_work(cmds@, labels@, res.defs@, res.cache@, labels@.len() as int);
            let lv2 = labels@.map_values(|x: (String, LeafOrigin)| (x.0@, al(x.1)));
            assert(lv2 =~= Seq::new(dd.len(), |i: int| (dd[i].0, res.built().1[i]->0))) by {
                assert forall|k: int| 0 <= k < dd.len() implies #[trigger] lv2[k] == (dd[k].0, res.built().1[k]->0) by {
                    assert(res.cache@[k] is Some);
                }
            }
        }
        let Resolver { states, .. } = res;
        Ok((Parser { states, regexes, labels }, init))
    }
}

} // verus!
