//! Running the key-value automaton over an automaton's blob.
//!
//! The runner keeps, for each key, the current key-value states that have a
//! transition for it. Reading a key and its value fires those transitions:
//! their states stop listening, the byte automaton runs over the value from
//! the transitions' initial byte states, and the tags it ends with decide,
//! through each transition's diagram, the leaf reached: its states start
//! listening, and its keys to get and extensions to run are reported.
use vstd::prelude::*;

use crate::ancha::bdd::{bdd_eval, bdd_realizes, AnchaBdd};
use crate::ancha::list::{list_value, AnchaList};
use crate::ancha::sediment::sediment_first;
use crate::ancha::vec::{lemma_vec_end, vec_elem, vec_end, AnchaVec};
use crate::ancha::{align_up, cell_at, lemma_align_up, max_blob, spec_align_up, Cell, Layout};
use crate::char_runner::{char_run, char_tags, push_new};
use crate::keyval_nfa::views;
use crate::my_ancha::keyval_state::{Bytes, Finals, KeyValState, Leaf0, Tran0};

verus! {

// ---------------------------------------------------------------------------
// Reading the key-value states of a blob
// ---------------------------------------------------------------------------

/// The cells of the vector at cursor `p` (its header aligned first), and the
/// cursor behind it; none where the blob does not hold it.
pub open spec fn cells_at<X: Cell>(bytes: Seq<u8>, p: int) -> Option<(Seq<X>, int)> {
    let at = spec_align_up(p, 8);
    if p < 0 || at + 8 > bytes.len() {
        None
    } else {
        let n = cell_at::<usize>(bytes, at) as int;
        let e = vec_end::<X>(at, n);
        if e > bytes.len() {
            None
        } else {
            Some((Seq::new(n as nat, |i: int| cell_at::<X>(bytes, vec_elem::<X>(at, i))), e))
        }
    }
}

/// `n` byte vectors laid out one behind the other from cursor `p` on, and
/// the cursor behind them.
pub open spec fn bytes_run(bytes: Seq<u8>, p: int, n: nat) -> Option<(Seq<Seq<u8>>, int)>
    decreases n,
{
    if n == 0 {
        Some((Seq::empty(), p))
    } else {
        match bytes_run(bytes, p, (n - 1) as nat) {
            Some((xs, q)) => match cells_at::<u8>(bytes, q) {
                Some((x, e)) => Some((xs.push(x), e)),
                None => None,
            },
            None => None,
        }
    }
}

/// The byte vectors of the sediment at cursor `p`, and the cursor behind it.
pub open spec fn sediment_at(bytes: Seq<u8>, p: int) -> Option<(Seq<Seq<u8>>, int)> {
    let at = spec_align_up(p, 8);
    if p < 0 || at + 8 > bytes.len() {
        None
    } else {
        bytes_run(bytes, sediment_first::<Bytes<'static>>(p), cell_at::<usize>(bytes, at) as nat)
    }
}

/// A leaf at cursor `l`: the key-value states it leads to, the keys to get
/// and the extensions to run.
pub open spec fn leaf_at(bytes: Seq<u8>, l: int) -> Option<(Seq<usize>, Seq<Seq<u8>>, Seq<Seq<u8>>)> {
    match cells_at::<usize>(bytes, l) {
        Some((states, e1)) => match sediment_at(bytes, e1) {
            Some((gets, e2)) => match sediment_at(bytes, e2) {
                Some((exts, _)) => Some((states, gets, exts)),
                None => None,
            },
            None => None,
        },
        None => None,
    }
}

/// The transition whose initial states start at cursor `c`: those states,
/// and the position of the root of its diagram.
pub open spec fn tran_at(bytes: Seq<u8>, c: int) -> Option<(Seq<usize>, int)> {
    match cells_at::<usize>(bytes, c) {
        Some((inits, e)) => Some((inits, spec_align_up(e, Finals::<'static>::spec_align() as int))),
        None => None,
    }
}

/// The transitions of the key-value state at cursor `p`, from node to node
/// by the links: the key of each and the cursor behind the key. The walk
/// stops at a link of 0, at a link that does not lead forward, and where the
/// blob does not hold a node.
pub open spec fn kv_trans(bytes: Seq<u8>, p: int) -> Seq<(Seq<u8>, int)>
    decreases bytes.len() - p,
{
    let at = spec_align_up(p, 8);
    if p < 0 || at + 8 > bytes.len() {
        Seq::empty()
    } else {
        match cells_at::<u8>(bytes, list_value::<Tran0<'static>>(at)) {
            None => Seq::empty(),
            Some((key, e)) => {
                let link = cell_at::<usize>(bytes, at) as int;
                seq![(key, e)] + (if p < link <= bytes.len() {
                    kv_trans(bytes, link)
                } else {
                    Seq::empty()
                })
            },
        }
    }
}

/// Keys with cursors, as plain values.
pub open spec fn trans_view(ts: Seq<(Vec<u8>, usize)>) -> Seq<(Seq<u8>, int)> {
    ts.map_values(|t: (Vec<u8>, usize)| (t.0@, t.1 as int))
}

/// Whether two byte strings are equal.
pub fn same_bytes(a: &[u8], b: &[u8]) -> (r: bool)
    ensures
        r == (a@ == b@),
{
    if a.len() != b.len() {
        return false;
    }
    let mut i: usize = 0;
    while i < a.len()
        invariant
            a@.len() == b@.len(),
            i <= a@.len(),
            forall|j: int| 0 <= j < i ==> a@[j] == b@[j],
        decreases a@.len() - i,
    {
        if a[i] != b[i] {
            return false;
        }
        i = i + 1;
    }
    assert(a@ =~= b@);
    true
}

/// The vector at cursor `p`, and the cursor behind it.
pub fn read_cells<X: Cell>(blob: &[u8], p: usize) -> (r: Option<(Vec<X>, usize)>)
    requires
        blob@.len() <= max_blob(),
    ensures
        match cells_at::<X>(blob@, p as int) {
            Some((xs, e)) => r matches Some(v) && v.0@ == xs && v.1 == e,
            None => r is None,
        },
{
    let len = blob.len();
    if p > len {
        proof {
            lemma_align_up(p as int, 8);
        }
        return None;
    }
    let at = align_up(p, 8);
    proof {
        lemma_align_up(p as int, 8);
    }
    if at > len || len - at < 8 {
        return None;
    }
    let v = AnchaVec::<X>::from_blob(blob, at);
    proof {
        X::lemma_layout();
        lemma_align_up(at + 8, X::spec_align() as int);
        lemma_vec_end::<X>(at as int, v.len as int);
    }
    let first = align_up(at + 8, X::align());
    if first > len {
        return None;
    }
    let size = X::size();
    let room = len - first;
    if size > 0 && v.len > room / size {
        proof {
            assert(v.len * size > room) by (nonlinear_arith)
                requires
                    size > 0,
                    v.len > room / size,
            ;
        }
        return None;
    }
    proof {
        if size > 0 {
            assert(v.len * size <= room) by (nonlinear_arith)
                requires
                    size > 0,
                    v.len <= room / size,
            ;
        } else {
            assert(v.len * size == 0) by (nonlinear_arith)
                requires
                    size == 0,
            ;
        }
    }
    let xs = v.as_ref();
    let e = first + v.len * size;
    proof {
        assert(xs@ =~= Seq::new(v.len as nat, |i: int| cell_at::<X>(blob@, vec_elem::<X>(at as int, i))));
    }
    Some((xs, e))
}

/// A run that fails fails whatever follows it.
proof fn lemma_bytes_run_fail(bytes: Seq<u8>, p: int, k: nat, n: nat)
    requires
        k <= n,
        bytes_run(bytes, p, k) is None,
    ensures
        bytes_run(bytes, p, n) is None,
    decreases n,
{
    if k < n {
        lemma_bytes_run_fail(bytes, p, k, (n - 1) as nat);
    }
}

/// The byte vectors of the sediment at cursor `p`, and the cursor behind it.
pub fn read_sediment(blob: &[u8], p: usize) -> (r: Option<(Vec<Vec<u8>>, usize)>)
    requires
        blob@.len() <= max_blob(),
    ensures
        match sediment_at(blob@, p as int) {
            Some((xs, e)) => r matches Some(v) && views(v.0@) == xs && v.1 == e,
            None => r is None,
        },
{
    let len = blob.len();
    if p > len {
        proof {
            lemma_align_up(p as int, 8);
        }
        return None;
    }
    let at = align_up(p, 8);
    proof {
        lemma_align_up(p as int, 8);
    }
    if at > len || len - at < 8 {
        return None;
    }
    let n = usize::read_cell(blob, at);
    proof {
        Bytes::<'static>::lemma_layout();
    }
    let first = align_up(at + 8, 8);
    let ghost g = first as int;
    proof {
        assert(g == sediment_first::<Bytes<'static>>(p as int));
    }
    let mut acc: Vec<Vec<u8>> = Vec::new();
    let mut cur = first;
    let mut i: usize = 0;
    while i < n
        invariant
            blob@.len() <= max_blob(),
            i <= n,
            p <= blob@.len(),
            spec_align_up(p as int, 8) + 8 <= blob@.len(),
            n == cell_at::<usize>(blob@, spec_align_up(p as int, 8)),
            g == sediment_first::<Bytes<'static>>(p as int),
            bytes_run(blob@, g, i as nat) == Some((views(acc@), cur as int)),
        decreases n - i,
    {
        match read_cells::<u8>(blob, cur) {
            None => {
                proof {
                    assert(cells_at::<u8>(blob@, cur as int) is None);
                    assert(bytes_run(blob@, g, (i + 1) as nat) is None);
                    lemma_bytes_run_fail(blob@, g, (i + 1) as nat, n as nat);
                }
                return None;
            },
            Some((x, e)) => {
                let ghost before = acc@;
                acc.push(x);
                proof {
                    assert(views(acc@) =~= views(before).push(x@));
                }
                cur = e;
            },
        }
        i = i + 1;
    }
    Some((acc, cur))
}

/// The leaf at cursor `l`.
fn read_leaf(blob: &[u8], l: usize) -> (r: Option<(Vec<usize>, Vec<Vec<u8>>, Vec<Vec<u8>>)>)
    requires
        blob@.len() <= max_blob(),
    ensures
        match leaf_at(blob@, l as int) {
            Some((ss, gs, xs)) => r matches Some(v) && v.0@ == ss && views(v.1@) == gs && views(v.2@) == xs,
            None => r is None,
        },
{
    match read_cells::<usize>(blob, l) {
        None => None,
        Some((states, e1)) => match read_sediment(blob, e1) {
            None => None,
            Some((gets, e2)) => match read_sediment(blob, e2) {
                None => None,
                Some((exts, _)) => Some((states, gets, exts)),
            },
        },
    }
}

/// The transitions of the key-value state at `p`: the key of each and the
/// cursor behind the key.
pub(crate) fn read_trans(blob: &[u8], p: usize) -> (r: Vec<(Vec<u8>, usize)>)
    requires
        blob@.len() <= max_blob(),
    ensures
        trans_view(r@) == kv_trans(blob@, p as int),
{
    let len = blob.len();
    let mut acc: Vec<(Vec<u8>, usize)> = Vec::new();
    if p > len {
        proof {
            lemma_align_up(p as int, 8);
            assert(trans_view(acc@) =~= kv_trans(blob@, p as int));
        }
        return acc;
    }
    let mut cur = p;
    let mut more = true;
    while more
        invariant
            len == blob@.len(),
            len <= max_blob(),
            cur <= len,
            trans_view(acc@) + (if more {
                kv_trans(blob@, cur as int)
            } else {
                Seq::empty()
            }) == kv_trans(blob@, p as int),
        decreases (if more { len + 1 - cur } else { 0 }),
    {
        let ghost rest = kv_trans(blob@, cur as int);
        let at = align_up(cur, 8);
        proof {
            lemma_align_up(cur as int, 8);
        }
        if at > len || len - at < 8 {
            more = false;
            proof {
                assert(trans_view(acc@) + Seq::<(Seq<u8>, int)>::empty() =~= trans_view(acc@));
            }
        } else {
            let node = AnchaList::<Tran0>::from_blob(blob, at);
            let v = node.value();
            match read_cells::<u8>(blob, v) {
                None => {
                    more = false;
                    proof {
                        assert(trans_view(acc@) + Seq::<(Seq<u8>, int)>::empty() =~= trans_view(acc@));
                    }
                },
                Some((key, e)) => {
                    let ghost before = acc@;
                    let link = node.next();
                    acc.push((key, e));
                    proof {
                        assert(trans_view(acc@) =~= trans_view(before) + seq![(key@, e as int)]);
                    }
                    if cur < link && link <= len {
                        proof {
                            assert(trans_view(acc@) + kv_trans(blob@, link as int) =~= trans_view(before)
                                + rest);
                        }
                        cur = link;
                    } else {
                        more = false;
                        proof {
                            assert(trans_view(acc@) + Seq::<(Seq<u8>, int)>::empty() =~= trans_view(before)
                                + rest);
                        }
                    }
                },
            }
        }
    }
    proof {
        assert(trans_view(acc@) + Seq::<(Seq<u8>, int)>::empty() =~= trans_view(acc@));
    }
    acc
}

/// The inits of the transition whose initial states start at `c`, and its
/// diagram's root.
fn read_tran(blob: &[u8], c: usize) -> (r: Option<(Vec<usize>, usize)>)
    requires
        blob@.len() <= max_blob(),
    ensures
        match tran_at(blob@, c as int) {
            Some((xs, root)) => r matches Some(v) && v.0@ == xs && v.1 == root,
            None => r is None,
        },
{
    match read_cells::<usize>(blob, c) {
        None => None,
        Some((inits, e)) => {
            proof {
                Finals::<'static>::lemma_layout();
                lemma_align_up(e as int, 4);
            }
            Some((inits, align_up(e, Finals::align())))
        },
    }
}

/// Whether `xs` holds `x`.
fn holds(xs: &Vec<usize>, x: usize) -> (r: bool)
    ensures
        r == xs@.contains(x),
{
    let mut i: usize = 0;
    while i < xs.len()
        invariant
            i <= xs@.len(),
            forall|j: int| 0 <= j < i ==> xs@[j] != x,
        decreases xs@.len() - i,
    {
        if xs[i] == x {
            assert(xs@[i as int] == x);
            return true;
        }
        i = i + 1;
    }
    false
}

/// The valuation of the diagrams' variables under the tags `tags`: a
/// variable holds where it is one of the tags.
pub open spec fn tag_val(tags: Seq<usize>) -> spec_fn(usize) -> bool {
    |v: usize| tags.contains(v)
}

/// The leaf that the transition whose initial states start at `c` reaches
/// under the tags `tags`.
pub open spec fn tran_leaf(bytes: Seq<u8>, c: int, tags: Seq<usize>) -> Option<
    (Seq<usize>, Seq<Seq<u8>>, Seq<Seq<u8>>),
> {
    match tran_at(bytes, c) {
        Some((_, root)) => match bdd_eval::<usize, Leaf0<'static>>(bytes, root, tag_val(tags), bytes.len() as nat) {
            Some(l) => leaf_at(bytes, l),
            None => None,
        },
        None => None,
    }
}

/// The valuation of a read makes a variable true exactly when it is one of
/// the tags the byte automaton ends with, wherever it stands among them.
pub proof fn lemma_tag_val_is_membership(tags: Seq<usize>, i: int, v: usize)
    ensures
        tag_val(tags)(v) <==> tags.contains(v),
        0 <= i < tags.len() ==> tag_val(tags)(tags[i]),
{
}

/// Where a fired transition goes depends only on which tags came out: not
/// on their order, nor on how often each came.
pub proof fn lemma_tran_leaf_tag_set(bytes: Seq<u8>, c: int, t1: Seq<usize>, t2: Seq<usize>)
    requires
        t1.to_set() == t2.to_set(),
    ensures
        tran_leaf(bytes, c, t1) == tran_leaf(bytes, c, t2),
{
    assert forall|v: usize| #[trigger] tag_val(t1)(v) == tag_val(t2)(v) by {
        assert(t1.contains(v) == t1.to_set().contains(v));
        assert(t2.contains(v) == t2.to_set().contains(v));
    }
    assert(tag_val(t1) =~= tag_val(t2));
}

/// A leaf that a diagram leads to lies near the blob.
proof fn lemma_bdd_eval_range(bytes: Seq<u8>, p: int, val: spec_fn(usize) -> bool, fuel: nat)
    ensures
        bdd_eval::<usize, Leaf0<'static>>(bytes, p, val, fuel) matches Some(l) ==> 0 <= l <= bytes.len() + 8,
    decreases fuel,
{
    Leaf0::<'static>::lemma_layout();
    if fuel > 0 && p >= 0 {
        lemma_align_up(p + 4, Leaf0::<'static>::spec_align() as int);
        let tag = cell_at::<u32>(bytes, p);
        let q = crate::ancha::bdd::bdd_q::<usize>(p);
        let ptr = cell_at::<usize>(bytes, q) as int;
        let b = val(cell_at::<usize>(bytes, crate::ancha::bdd::bdd_h::<usize>(p)));
        let next = if tag == 1 {
            if b { ptr } else { cell_at::<usize>(bytes, q + 8) as int }
        } else if tag == 3 {
            if b { ptr } else { q + 8 }
        } else {
            if b { q + 8 } else { ptr }
        };
        lemma_bdd_eval_range(bytes, next, val, (fuel - 1) as nat);
    }
}

/// The leaf that the transition at `c` reaches under `tags`.
fn eval_leaf(blob: &[u8], c: usize, tags: &Vec<usize>) -> (r: Option<(Vec<usize>, Vec<Vec<u8>>, Vec<Vec<u8>>)>)
    requires
        blob@.len() <= max_blob(),
    ensures
        match tran_leaf(blob@, c as int, tags@) {
            Some((ss, gs, xs)) => r matches Some(v) && v.0@ == ss && views(v.1@) == gs && views(v.2@) == xs,
            None => r is None,
        },
{
    match read_tran(blob, c) {
        None => None,
        Some((_, root)) => {
            let f = |v: &usize| -> (b: bool)
                ensures
                    b == tags@.contains(*v),
                { holds(tags, *v) };
            let d = AnchaBdd::<usize, Leaf0>::from_blob(blob, root);
            proof {
                assert forall|v: usize, b: bool| #[trigger] f.ensures((&v,), b) implies b == tag_val(tags@)(v) by {
                }
                assert(bdd_realizes(f, tag_val(tags@)));
            }
            let leaf = d.evaluate(&f);
            proof {
                let val = tag_val(tags@);
                assert(bdd_realizes(f, val));
                lemma_bdd_eval_range(blob@, root as int, val, blob@.len() as nat);
                assert(match bdd_eval::<usize, Leaf0<'static>>(blob@, root as int, val, blob@.len() as nat) {
                    Some(l) => leaf == Some(l as usize),
                    None => leaf is None,
                });
            }
            match leaf {
                None => None,
                Some(l) => read_leaf(blob, l),
            }
        },
    }
}

// ---------------------------------------------------------------------------
// Which states listen for which key
// ---------------------------------------------------------------------------

/// For each key, the key-value states that have a transition for it, in
/// the order in which they came, each once: a hashbrown map of indexmap sets.
#[verifier::external_body]
pub struct Listeners {
    map: hashbrown::HashMap<Vec<u8>, indexmap::IndexSet<usize>>,
}

/// What a `Listeners` holds: for each key, its states in order.
pub uninterp spec fn listeners(m: Listeners) -> Map<Seq<u8>, Seq<usize>>;

/// No key's states repeat (an index set holds each value once).
pub open spec fn listeners_wf(m: Map<Seq<u8>, Seq<usize>>) -> bool {
    forall|k: Seq<u8>| #[trigger] m.dom().contains(k) ==> m[k].no_duplicates()
}

/// No key has an entry.
pub open spec fn no_listeners() -> Map<Seq<u8>, Seq<usize>> {
    Map::empty()
}

/// The states that listen for `k`; none where no entry is kept for it.
pub open spec fn listening(m: Map<Seq<u8>, Seq<usize>>, k: Seq<u8>) -> Seq<usize> {
    if m.dom().contains(k) {
        m[k]
    } else {
        Seq::empty()
    }
}

/// `s` with `x` behind it, unless it holds `x` already.
pub open spec fn added(s: Seq<usize>, x: usize) -> Seq<usize> {
    if s.contains(x) {
        s
    } else {
        s.push(x)
    }
}

/// `s` without `x`: the last item takes the place of `x`.
pub open spec fn swap_removed(s: Seq<usize>, x: usize) -> Seq<usize> {
    if s.contains(x) {
        s.update(s.index_of(x), s.last()).drop_last()
    } else {
        s
    }
}

impl Listeners {
    /// `hashbrown::HashMap::new`: no key has an entry.
    #[verifier::external_body]
    fn new() -> (r: Self)
        ensures
            listeners(r) == no_listeners(),
    {
        Listeners { map: hashbrown::HashMap::new() }
    }

    /// `HashMap::contains_key`: whether the key has an entry.
    #[verifier::external_body]
    fn contains_key(&self, key: &[u8]) -> (r: bool)
        ensures
            r == listeners(*self).dom().contains(key@),
    {
        self.map.contains_key(key)
    }

    /// `HashMap::get_mut` and `std::mem::take` of the key's set: its states
    /// in order; the key keeps an empty entry.
    #[verifier::external_body]
    fn take(&mut self, key: &[u8]) -> (r: Vec<usize>)
        requires
            listeners(*old(self)).dom().contains(key@),
        ensures
            r@ == listeners(*old(self))[key@],
            listeners(*final(self)) == listeners(*old(self)).insert(key@, Seq::empty()),
    {
        std::mem::take(self.map.get_mut(key).unwrap()).into_iter().collect()
    }

    /// `HashMap::get_mut` and `IndexSet::swap_remove` on the key's set: the
    /// state leaves it, and the last state takes its place.
    #[verifier::external_body]
    fn swap_remove(&mut self, key: &[u8], state: usize)
        requires
            listeners(*old(self)).dom().contains(key@),
            listeners_wf(listeners(*old(self))),
        ensures
            listeners(*final(self)) == listeners(*old(self)).insert(
                key@,
                swap_removed(listeners(*old(self))[key@], state),
            ),
    {
        self.map.get_mut(key).unwrap().swap_remove(&state);
    }

    /// `HashMap::entry`, `or_insert` of an empty `IndexSet`, then
    /// `IndexSet::insert`: the state joins the key's states at the end,
    /// unless it is there already.
    #[verifier::external_body]
    fn insert(&mut self, key: &[u8], state: usize)
        ensures
            listeners(*final(self)) == listeners(*old(self)).insert(
                key@,
                added(listening(listeners(*old(self)), key@), state),
            ),
    {
        self.map.entry(key.to_vec()).or_insert(indexmap::IndexSet::new()).insert(state);
    }
}

// ---------------------------------------------------------------------------
// What a read does
// ---------------------------------------------------------------------------

/// State `s` listens for the key of each of its transitions `ts`, in turn.
pub open spec fn attach(m: Map<Seq<u8>, Seq<usize>>, ts: Seq<(Seq<u8>, int)>, s: usize) -> Map<
    Seq<u8>,
    Seq<usize>,
>
    decreases ts.len(),
{
    if ts.len() == 0 {
        m
    } else {
        let m2 = attach(m, ts.drop_last(), s);
        m2.insert(ts.last().0, added(listening(m2, ts.last().0), s))
    }
}

/// Each of the states `ss` listens for the keys of its transitions, in turn.
pub open spec fn attach_all(m: Map<Seq<u8>, Seq<usize>>, bytes: Seq<u8>, ss: Seq<usize>) -> Map<
    Seq<u8>,
    Seq<usize>,
>
    decreases ss.len(),
{
    if ss.len() == 0 {
        m
    } else {
        attach(attach_all(m, bytes, ss.drop_last()), kv_trans(bytes, ss.last() as int), ss.last())
    }
}

/// State `s` stops listening for the keys of its transitions `ts` other than
/// `sym`, where they have an entry.
pub open spec fn detach(m: Map<Seq<u8>, Seq<usize>>, ts: Seq<(Seq<u8>, int)>, sym: Seq<u8>, s: usize) -> Map<
    Seq<u8>,
    Seq<usize>,
>
    decreases ts.len(),
{
    if ts.len() == 0 {
        m
    } else {
        let m2 = detach(m, ts.drop_last(), sym, s);
        let k = ts.last().0;
        if k == sym || !m2.dom().contains(k) {
            m2
        } else {
            m2.insert(k, swap_removed(m2[k], s))
        }
    }
}

/// Each of the states `ls` stops listening for its keys other than `sym`.
pub open spec fn detach_all(m: Map<Seq<u8>, Seq<usize>>, bytes: Seq<u8>, sym: Seq<u8>, ls: Seq<usize>) -> Map<
    Seq<u8>,
    Seq<usize>,
>
    decreases ls.len(),
{
    if ls.len() == 0 {
        m
    } else {
        detach(detach_all(m, bytes, sym, ls.drop_last()), kv_trans(bytes, ls.last() as int), sym, ls.last())
    }
}

/// The cursors of those transitions `ts` whose key is `sym`.
pub open spec fn keyed(ts: Seq<(Seq<u8>, int)>, sym: Seq<u8>) -> Seq<int>
    decreases ts.len(),
{
    if ts.len() == 0 {
        Seq::empty()
    } else {
        keyed(ts.drop_last(), sym) + (if ts.last().0 == sym {
            seq![ts.last().1]
        } else {
            Seq::empty()
        })
    }
}

/// The transitions that reading `sym` fires from the states `ls`, in turn.
pub open spec fn fired(bytes: Seq<u8>, sym: Seq<u8>, ls: Seq<usize>) -> Seq<int>
    decreases ls.len(),
{
    if ls.len() == 0 {
        Seq::empty()
    } else {
        fired(bytes, sym, ls.drop_last()) + keyed(kv_trans(bytes, ls.last() as int), sym)
    }
}

/// The initial byte states of the transitions at `cs`, in turn.
pub open spec fn fired_inits(bytes: Seq<u8>, cs: Seq<int>) -> Seq<usize>
    decreases cs.len(),
{
    if cs.len() == 0 {
        Seq::empty()
    } else {
        fired_inits(bytes, cs.drop_last()) + match tran_at(bytes, cs.last()) {
            Some((inits, _)) => inits,
            None => Seq::empty(),
        }
    }
}

/// The states of the leaves that the transitions at `cs` reach under `tags`
/// listen for their keys, leaf by leaf.
pub open spec fn settle(m: Map<Seq<u8>, Seq<usize>>, bytes: Seq<u8>, cs: Seq<int>, tags: Seq<usize>) -> Map<
    Seq<u8>,
    Seq<usize>,
>
    decreases cs.len(),
{
    if cs.len() == 0 {
        m
    } else {
        let m2 = settle(m, bytes, cs.drop_last(), tags);
        match tran_leaf(bytes, cs.last(), tags) {
            Some((ss, _, _)) => attach_all(m2, bytes, ss),
            None => m2,
        }
    }
}

/// The keys to get (`gets`) or the extensions to run (not `gets`) of the
/// leaves that the transitions at `cs` reach under `tags`, leaf by leaf.
pub open spec fn reported(bytes: Seq<u8>, cs: Seq<int>, tags: Seq<usize>, gets: bool) -> Seq<Seq<u8>>
    decreases cs.len(),
{
    if cs.len() == 0 {
        Seq::empty()
    } else {
        reported(bytes, cs.drop_last(), tags, gets) + match tran_leaf(bytes, cs.last(), tags) {
            Some((_, gs, xs)) => if gets {
                gs
            } else {
                xs
            },
            None => Seq::empty(),
        }
    }
}

/// The tags that the byte automaton ends with on `value`, started from the
/// initial states of the transitions at `cs`.
pub open spec fn value_tags(bytes: Seq<u8>, cs: Seq<int>, value: Seq<u8>) -> Seq<usize> {
    char_tags(bytes, char_run(bytes, push_new(Seq::empty(), fired_inits(bytes, cs)), value))
}

/// What reading `sym` with `value` does to the listeners `m`: the listeners
/// after, the keys to get and the extensions to run.
pub open spec fn runner_read(m: Map<Seq<u8>, Seq<usize>>, bytes: Seq<u8>, sym: Seq<u8>, value: Seq<u8>) -> (
    Map<Seq<u8>, Seq<usize>>,
    Seq<Seq<u8>>,
    Seq<Seq<u8>>,
) {
    if !m.dom().contains(sym) {
        (m, Seq::empty(), Seq::empty())
    } else {
        let ls = m[sym];
        let cs = fired(bytes, sym, ls);
        let tags = value_tags(bytes, cs, value);
        let m1 = detach_all(m.insert(sym, Seq::empty()), bytes, sym, ls);
        (settle(m1, bytes, cs, tags), reported(bytes, cs, tags, true), reported(bytes, cs, tags, false))
    }
}

/// Reading a key that no state listens for changes nothing and reports
/// nothing.
pub proof fn lemma_read_unheard(m: Map<Seq<u8>, Seq<usize>>, bytes: Seq<u8>, sym: Seq<u8>, value: Seq<u8>)
    requires
        !m.dom().contains(sym),
    ensures
        runner_read(m, bytes, sym, value) == (m, Seq::<Seq<u8>>::empty(), Seq::<Seq<u8>>::empty()),
{
}

/// Cursors, as integers.
pub open spec fn ints(s: Seq<usize>) -> Seq<int> {
    s.map_values(|x: usize| x as int)
}

proof fn lemma_added_wf(m: Map<Seq<u8>, Seq<usize>>, k: Seq<u8>, s: usize)
    requires
        listeners_wf(m),
    ensures
        listeners_wf(m.insert(k, added(listening(m, k), s))),
{
    let l = listening(m, k);
    if !l.contains(s) {
        assert forall|i: int, j: int| 0 <= i < j < l.push(s).len() implies l.push(s)[i] != l.push(s)[j] by {
            if j == l.len() {
                assert(l[i] == l.push(s)[i]);
            }
        }
    }
}

proof fn lemma_swap_removed_wf(m: Map<Seq<u8>, Seq<usize>>, k: Seq<u8>, s: usize)
    requires
        listeners_wf(m),
        m.dom().contains(k),
    ensures
        listeners_wf(m.insert(k, swap_removed(m[k], s))),
{
    let l = m[k];
    if l.contains(s) {
        let i0 = l.index_of(s);
        let r = l.update(i0, l.last()).drop_last();
        assert(l[i0] == s);
        assert forall|i: int, j: int| 0 <= i < j < r.len() implies r[i] != r[j] by {
            let n = l.len() - 1;
            if i == i0 {
                assert(r[i] == l[n]);
                assert(r[j] == l[j]);
            } else if j == i0 {
                assert(r[j] == l[n]);
                assert(r[i] == l[i]);
            } else {
                assert(r[i] == l[i]);
                assert(r[j] == l[j]);
            }
        }
    }
}

/// Swap-removing `x` from items that each come once takes `x` out and
/// brings nothing in.
proof fn lemma_swap_removed_drops(l: Seq<usize>, x: usize)
    requires
        l.no_duplicates(),
    ensures
        !swap_removed(l, x).contains(x),
        forall|y: usize| #[trigger] swap_removed(l, x).contains(y) ==> l.contains(y),
{
    if l.contains(x) {
        let i0 = l.index_of(x);
        let r = l.update(i0, l.last()).drop_last();
        assert(l[i0] == x);
        assert forall|j: int| 0 <= j < r.len() implies r[j] != x && l.contains(r[j]) by {
            if j == i0 {
                assert(r[j] == l[l.len() - 1]);
                assert(l.len() - 1 != i0);
            } else {
                assert(r[j] == l[j]);
            }
        }
    }
}

/// The states that a key's listeners hold after `detach` were there
/// before, and the listeners stay well formed.
proof fn lemma_detach_shrinks(m: Map<Seq<u8>, Seq<usize>>, ts: Seq<(Seq<u8>, int)>, sym: Seq<u8>, s: usize)
    requires
        listeners_wf(m),
    ensures
        listeners_wf(detach(m, ts, sym, s)),
        forall|k: Seq<u8>, y: usize| #[trigger] listening(detach(m, ts, sym, s), k).contains(y) ==> listening(m, k).contains(y),
        forall|i: int| 0 <= i < ts.len() && (#[trigger] ts[i]).0 != sym ==> !listening(detach(m, ts, sym, s), ts[i].0).contains(s),
    decreases ts.len(),
{
    if ts.len() > 0 {
        let m2 = detach(m, ts.drop_last(), sym, s);
        lemma_detach_shrinks(m, ts.drop_last(), sym, s);
        let kk = ts.last().0;
        if kk != sym && m2.dom().contains(kk) {
            lemma_swap_removed_wf(m2, kk, s);
            lemma_swap_removed_drops(m2[kk], s);
        }
        let m3 = detach(m, ts, sym, s);
        assert forall|k: Seq<u8>, y: usize| #[trigger] listening(m3, k).contains(y) implies listening(m, k).contains(y) by {
            if kk != sym && m2.dom().contains(kk) && k == kk {
                assert(listening(m2, k).contains(y));
            } else {
                assert(listening(m3, k) == listening(m2, k));
            }
        }
        assert forall|i: int| 0 <= i < ts.len() && (#[trigger] ts[i]).0 != sym implies !listening(m3, ts[i].0).contains(s) by {
            if i < ts.len() - 1 {
                assert(ts.drop_last()[i] == ts[i]);
                let k = ts[i].0;
                if kk != sym && m2.dom().contains(kk) && k == kk {
                } else {
                    assert(listening(m3, k) == listening(m2, k));
                }
            }
        }
    }
}

/// After the left states `ls` stop listening, a key's listeners hold only
/// states they held before, and none of `ls` for one of its own keys other
/// than `sym`.
proof fn lemma_detach_all_leaves(m: Map<Seq<u8>, Seq<usize>>, bytes: Seq<u8>, sym: Seq<u8>, ls: Seq<usize>)
    requires
        listeners_wf(m),
    ensures
        listeners_wf(detach_all(m, bytes, sym, ls)),
        forall|k: Seq<u8>, y: usize| #[trigger] listening(detach_all(m, bytes, sym, ls), k).contains(y) ==> listening(m, k).contains(y),
        forall|j: int, i: int|
            0 <= j < ls.len() && 0 <= i < kv_trans(bytes, ls[j] as int).len() && (#[trigger] kv_trans(bytes, ls[j] as int)[i]).0 != sym
                ==> !listening(detach_all(m, bytes, sym, ls), kv_trans(bytes, ls[j] as int)[i].0).contains(ls[j]),
    decreases ls.len(),
{
    if ls.len() > 0 {
        let d = ls.drop_last();
        let m2 = detach_all(m, bytes, sym, d);
        lemma_detach_all_leaves(m, bytes, sym, d);
        let s = ls.last();
        let ts = kv_trans(bytes, s as int);
        lemma_detach_shrinks(m2, ts, sym, s);
        let m3 = detach_all(m, bytes, sym, ls);
        assert forall|k: Seq<u8>, y: usize| #[trigger] listening(m3, k).contains(y) implies listening(m, k).contains(y) by {
            assert(listening(m2, k).contains(y));
        }
        assert forall|j: int, i: int|
            0 <= j < ls.len() && 0 <= i < kv_trans(bytes, ls[j] as int).len() && (#[trigger] kv_trans(bytes, ls[j] as int)[i]).0 != sym
                implies !listening(m3, kv_trans(bytes, ls[j] as int)[i].0).contains(ls[j]) by {
            let k = kv_trans(bytes, ls[j] as int)[i].0;
            if j < ls.len() - 1 {
                assert(d[j] == ls[j]);
                assert(!listening(m2, k).contains(ls[j]));
                if listening(m3, k).contains(ls[j]) {
                    assert(listening(m2, k).contains(ls[j]));
                }
            } else {
                assert(ts[i].0 == k);
            }
        }
    }
}

/// A state that listens after `attach` listened before, or is the one
/// attached.
proof fn lemma_attach_adds(m: Map<Seq<u8>, Seq<usize>>, ts: Seq<(Seq<u8>, int)>, s: usize)
    ensures
        forall|k: Seq<u8>, y: usize| #[trigger] listening(attach(m, ts, s), k).contains(y) ==> listening(m, k).contains(y) || y == s,
    decreases ts.len(),
{
    if ts.len() > 0 {
        let m2 = attach(m, ts.drop_last(), s);
        lemma_attach_adds(m, ts.drop_last(), s);
        assert forall|k: Seq<u8>, y: usize| #[trigger] listening(attach(m, ts, s), k).contains(y) implies listening(m, k).contains(y) || y == s by {
            if k == ts.last().0 {
                if y != s {
                    assert(listening(m2, k).contains(y));
                }
            } else {
                assert(listening(attach(m, ts, s), k) == listening(m2, k));
            }
        }
    }
}

/// A state that listens after `attach_all` listened before, or is one of
/// the states attached.
proof fn lemma_attach_all_adds(m: Map<Seq<u8>, Seq<usize>>, bytes: Seq<u8>, ss: Seq<usize>)
    ensures
        forall|k: Seq<u8>, y: usize| #[trigger] listening(attach_all(m, bytes, ss), k).contains(y) ==> listening(m, k).contains(y) || ss.contains(y),
    decreases ss.len(),
{
    if ss.len() > 0 {
        let d = ss.drop_last();
        lemma_attach_all_adds(m, bytes, d);
        let m2 = attach_all(m, bytes, d);
        lemma_attach_adds(m2, kv_trans(bytes, ss.last() as int), ss.last());
        assert forall|k: Seq<u8>, y: usize| #[trigger] listening(attach_all(m, bytes, ss), k).contains(y) implies listening(m, k).contains(y) || ss.contains(y) by {
            if listening(m2, k).contains(y) {
                if !listening(m, k).contains(y) {
                    let q = choose|q: int| 0 <= q < d.len() && d[q] == y;
                    assert(ss[q] == y);
                }
            } else {
                assert(ss[ss.len() - 1] == y);
            }
        }
    }
}

/// The leaf goes to state `s`.
pub open spec fn goes_to(l: Option<(Seq<usize>, Seq<Seq<u8>>, Seq<Seq<u8>>)>, s: usize) -> bool {
    match l {
        Some(l) => l.0.contains(s),
        None => false,
    }
}

/// The transitions at `cs` reach, under `tags`, a leaf that goes to `s`.
pub open spec fn reenters(bytes: Seq<u8>, cs: Seq<int>, tags: Seq<usize>, s: usize) -> bool {
    exists|j: int| 0 <= j < cs.len() && goes_to(#[trigger] tran_leaf(bytes, cs[j], tags), s)
}

/// A state that listens after `settle` listened before, or is re-entered by
/// a leaf reached.
proof fn lemma_settle_adds(m: Map<Seq<u8>, Seq<usize>>, bytes: Seq<u8>, cs: Seq<int>, tags: Seq<usize>)
    ensures
        forall|k: Seq<u8>, y: usize| #[trigger] listening(settle(m, bytes, cs, tags), k).contains(y) ==> listening(m, k).contains(y)
            || reenters(bytes, cs, tags, y),
    decreases cs.len(),
{
    if cs.len() > 0 {
        let d = cs.drop_last();
        lemma_settle_adds(m, bytes, d, tags);
        let m2 = settle(m, bytes, d, tags);
        assert forall|k: Seq<u8>, y: usize| #[trigger] listening(settle(m, bytes, cs, tags), k).contains(y) implies listening(m, k).contains(y)
            || reenters(bytes, cs, tags, y) by {
            let last = cs.len() - 1;
            assert(cs[last] == cs.last());
            let y_before = listening(m2, k).contains(y);
            match tran_leaf(bytes, cs.last(), tags) {
                Some(l) => {
                    lemma_attach_all_adds(m2, bytes, l.0);
                    if !y_before {
                        assert(l.0.contains(y));
                        assert(goes_to(tran_leaf(bytes, cs[last], tags), y));
                    }
                },
                None => {},
            }
            if y_before && !listening(m, k).contains(y) {
                let j = choose|j: int| 0 <= j < d.len() && goes_to(#[trigger] tran_leaf(bytes, d[j], tags), y);
                assert(d[j] == cs[j]);
            }
        }
    }
}

/// A read leaves the states it fires from: a state that listened for the
/// key read, and that no leaf reached goes back to, afterwards listens for
/// none of the other keys of its transitions.
pub proof fn lemma_read_leaves_state(
    m: Map<Seq<u8>, Seq<usize>>,
    bytes: Seq<u8>,
    sym: Seq<u8>,
    value: Seq<u8>,
    s: usize,
    i: int,
)
    requires
        listeners_wf(m),
        m.dom().contains(sym),
        m[sym].contains(s),
        0 <= i < kv_trans(bytes, s as int).len(),
        kv_trans(bytes, s as int)[i].0 != sym,
        !reenters(bytes, fired(bytes, sym, m[sym]), value_tags(bytes, fired(bytes, sym, m[sym]), value), s),
    ensures
        !listening(runner_read(m, bytes, sym, value).0, kv_trans(bytes, s as int)[i].0).contains(s),
{
    let ls = m[sym];
    let cs = fired(bytes, sym, ls);
    let tags = value_tags(bytes, cs, value);
    let m0 = m.insert(sym, Seq::empty());
    assert(listeners_wf(m0)) by {
        assert forall|k: Seq<u8>| #[trigger] m0.dom().contains(k) implies m0[k].no_duplicates() by {
            if k != sym {
                assert(m.dom().contains(k));
            }
        }
    }
    lemma_detach_all_leaves(m0, bytes, sym, ls);
    let m1 = detach_all(m0, bytes, sym, ls);
    let j = choose|j: int| 0 <= j < ls.len() && ls[j] == s;
    let k = kv_trans(bytes, s as int)[i].0;
    assert(kv_trans(bytes, ls[j] as int)[i].0 != sym);
    assert(!listening(m1, k).contains(s));
    lemma_settle_adds(m1, bytes, cs, tags);
}

/// One thing a read reports: a key whose old value to get, or an extension
/// to run.
#[derive(Debug)]
pub enum Reaction {
    GetOld(Vec<u8>),
    RunExt(Vec<u8>),
}

impl Reaction {
    /// Whether it is a key to get, and its bytes.
    pub open spec fn spec_pair(self) -> (bool, Seq<u8>) {
        match self {
            Reaction::GetOld(k) => (true, k@),
            Reaction::RunExt(e) => (false, e@),
        }
    }
}

/// Reactions by kind and bytes.
pub open spec fn reaction_views(s: Seq<Reaction>) -> Seq<(bool, Seq<u8>)> {
    s.map_values(|r: Reaction| r.spec_pair())
}

/// Byte strings, each marked as a key to get (`get`) or an extension.
pub open spec fn tagged(s: Seq<Seq<u8>>, get: bool) -> Seq<(bool, Seq<u8>)> {
    s.map_values(|x: Seq<u8>| (get, x))
}

/// What the transitions at `cs` report under `tags`, leaf by leaf: the keys
/// to get of each leaf, then its extensions.
pub open spec fn reported_steps(bytes: Seq<u8>, cs: Seq<int>, tags: Seq<usize>) -> Seq<(bool, Seq<u8>)>
    decreases cs.len(),
{
    if cs.len() == 0 {
        Seq::empty()
    } else {
        reported_steps(bytes, cs.drop_last(), tags) + match tran_leaf(bytes, cs.last(), tags) {
            Some((_, gs, xs)) => tagged(gs, true) + tagged(xs, false),
            None => Seq::empty(),
        }
    }
}

/// What a read of `sym` with `value` reports, in order.
pub open spec fn runner_steps(m: Map<Seq<u8>, Seq<usize>>, bytes: Seq<u8>, sym: Seq<u8>, value: Seq<u8>) -> Seq<
    (bool, Seq<u8>),
> {
    if !m.dom().contains(sym) {
        Seq::empty()
    } else {
        let cs = fired(bytes, sym, m[sym]);
        reported_steps(bytes, cs, value_tags(bytes, cs, value))
    }
}

/// Append `items`, each as a key to get (`get`) or an extension.
fn push_steps(steps: &mut Vec<Reaction>, items: &Vec<Vec<u8>>, get: bool)
    ensures
        reaction_views(final(steps)@) == reaction_views(old(steps)@) + tagged(views(items@), get),
{
    let ghost s0 = old(steps)@;
    let mut j: usize = 0;
    while j < items.len()
        invariant
            j <= items@.len(),
            reaction_views(steps@) == reaction_views(s0) + tagged(views(items@.take(j as int)), get),
        decreases items@.len() - j,
    {
        let c = items[j].clone();
        proof {
            assert(c@ =~= items@[j as int]@);
        }
        let ghost before = steps@;
        if get {
            steps.push(Reaction::GetOld(c));
        } else {
            steps.push(Reaction::RunExt(c));
        }
        proof {
            assert(items@.take(j + 1) =~= items@.take(j as int).push(items@[j as int]));
            assert(views(items@.take(j + 1)) =~= views(items@.take(j as int)).push(items@[j as int]@));
            assert(reaction_views(steps@) =~= reaction_views(before).push((get, items@[j as int]@)));
            assert(tagged(views(items@.take(j + 1)), get) =~= tagged(views(items@.take(j as int)), get).push(
                (get, items@[j as int]@),
            ));
        }
        j = j + 1;
    }
    proof {
        assert(items@.take(items@.len() as int) =~= items@);
    }
}

/// What a read reports: the keys whose values to get and the extensions to
/// run, each in the order in which the fired transitions reached them, and
/// both together in that order (`steps`: for each leaf, its keys to get,
/// then its extensions).
pub struct Reactions {
    pub get_olds: Vec<Vec<u8>>,
    pub exts: Vec<Vec<u8>>,
    pub steps: Vec<Reaction>,
}

/// The key-value runner: which current states listen for which key.
pub struct Runner {
    pub sparse: Listeners,
}

impl Runner {
    /// No key's states repeat.
    pub open spec fn wf(&self) -> bool {
        listeners_wf(listeners(self.sparse))
    }

    /// State `s` listens for the key of each of its transitions.
    fn attach_state(&mut self, blob: &[u8], s: usize)
        requires
            old(self).wf(),
            blob@.len() <= max_blob(),
        ensures
            final(self).wf(),
            listeners(final(self).sparse) == attach(listeners(old(self).sparse), kv_trans(blob@, s as int), s),
    {
        let ts = KeyValState::from_blob(blob, s).keyvals();
        let ghost tv = trans_view(ts@);
        let ghost m0 = listeners(self.sparse);
        let mut j: usize = 0;
        while j < ts.len()
            invariant
                self.wf(),
                j <= ts@.len(),
                tv == trans_view(ts@),
                listeners(self.sparse) == attach(m0, tv.take(j as int), s),
            decreases ts@.len() - j,
        {
            proof {
                assert(tv.take(j + 1).drop_last() =~= tv.take(j as int));
                assert(tv.take(j + 1).last() == tv[j as int]);
                lemma_added_wf(listeners(self.sparse), ts@[j as int].0@, s);
            }
            self.sparse.insert(&ts[j].0, s);
            j = j + 1;
        }
        proof {
            assert(tv.take(tv.len() as int) =~= tv);
        }
    }

    /// Each of the states `ss` listens for its keys, in turn.
    fn attach_states(&mut self, blob: &[u8], ss: &Vec<usize>)
        requires
            old(self).wf(),
            blob@.len() <= max_blob(),
        ensures
            final(self).wf(),
            listeners(final(self).sparse) == attach_all(listeners(old(self).sparse), blob@, ss@),
    {
        let ghost m0 = listeners(self.sparse);
        let mut i: usize = 0;
        while i < ss.len()
            invariant
                self.wf(),
                blob@.len() <= max_blob(),
                i <= ss@.len(),
                listeners(self.sparse) == attach_all(m0, blob@, ss@.take(i as int)),
            decreases ss@.len() - i,
        {
            proof {
                assert(ss@.take(i + 1).drop_last() =~= ss@.take(i as int));
            }
            self.attach_state(blob, ss[i]);
            i = i + 1;
        }
        proof {
            assert(ss@.take(ss@.len() as int) =~= ss@);
        }
    }

    /// The runner whose current states are `inits`: each listens for the
    /// keys of its transitions.
    pub fn new(blob: &[u8], inits: &Vec<usize>) -> (r: Self)
        requires
            blob@.len() <= max_blob(),
        ensures
            r.wf(),
            listeners(r.sparse) == attach_all(no_listeners(), blob@, inits@),
    {
        let mut r = Runner { sparse: Listeners::new() };
        r.attach_states(blob, inits);
        r
    }

    /// State `l` stops listening for its keys other than `sym`; the cursors
    /// of its transitions for `sym` join `cs`.
    fn detach_state(&mut self, blob: &[u8], sym: &[u8], l: usize, cs: &mut Vec<usize>)
        requires
            old(self).wf(),
            blob@.len() <= max_blob(),
        ensures
            final(self).wf(),
            listeners(final(self).sparse) == detach(listeners(old(self).sparse), kv_trans(blob@, l as int), sym@, l),
            ints(final(cs)@) == ints(old(cs)@) + keyed(kv_trans(blob@, l as int), sym@),
    {
        let ts = KeyValState::from_blob(blob, l).keyvals();
        let ghost tv = trans_view(ts@);
        let ghost m0 = listeners(self.sparse);
        let ghost c0 = ints(cs@);
        let mut j: usize = 0;
        while j < ts.len()
            invariant
                self.wf(),
                j <= ts@.len(),
                tv == trans_view(ts@),
                listeners(self.sparse) == detach(m0, tv.take(j as int), sym@, l),
                ints(cs@) == c0 + keyed(tv.take(j as int), sym@),
            decreases ts@.len() - j,
        {
            proof {
                assert(tv.take(j + 1).drop_last() =~= tv.take(j as int));
                assert(tv.take(j + 1).last() == tv[j as int]);
            }
            let ghost before = cs@;
            if same_bytes(&ts[j].0, sym) {
                cs.push(ts[j].1);
                proof {
                    assert(ints(cs@) =~= ints(before) + seq![ts@[j as int].1 as int]);
                }
            } else {
                proof {
                    assert(ints(cs@) =~= ints(before) + Seq::<int>::empty());
                }
                if self.sparse.contains_key(&ts[j].0) {
                    proof {
                        lemma_swap_removed_wf(listeners(self.sparse), ts@[j as int].0@, l);
                    }
                    self.sparse.swap_remove(&ts[j].0, l);
                }
            }
            j = j + 1;
        }
        proof {
            assert(tv.take(tv.len() as int) =~= tv);
        }
    }

    /// Read key `sym` with value `value`: the states that listen for `sym`
    /// stop listening, their transitions for `sym` fire, the byte automaton
    /// runs over `value` from those transitions' initial states, and each
    /// fired transition's diagram, under the tags it ends with, picks a
    /// leaf; the leaf's states start listening, and its keys to get and its
    /// extensions are reported. Where no state listens for `sym`, nothing
    /// happens.
    pub fn read(&mut self, blob: &[u8], sym: &[u8], value: &[u8]) -> (r: Reactions)
        requires
            old(self).wf(),
            blob@.len() <= max_blob(),
        ensures
            final(self).wf(),
            (listeners(final(self).sparse), views(r.get_olds@), views(r.exts@)) == runner_read(
                listeners(old(self).sparse),
                blob@,
                sym@,
                value@,
            ),
            reaction_views(r.steps@) == runner_steps(listeners(old(self).sparse), blob@, sym@, value@),
    {
        let ghost bytes = blob@;
        let ghost m0 = listeners(self.sparse);
        if !self.sparse.contains_key(sym) {
            let r = Reactions { get_olds: Vec::new(), exts: Vec::new(), steps: Vec::new() };
            proof {
                assert(views(r.get_olds@) =~= Seq::<Seq<u8>>::empty());
                assert(views(r.exts@) =~= Seq::<Seq<u8>>::empty());
                assert(reaction_views(r.steps@) =~= Seq::<(bool, Seq<u8>)>::empty());
            }
            return r;
        }
        let left = self.sparse.take(sym);
        let ghost m1 = listeners(self.sparse);
        proof {
            assert(listeners_wf(m1)) by {
                assert(Seq::<usize>::empty().no_duplicates());
            }
        }
        // The states that listen for `sym` stop listening.
        let mut cs: Vec<usize> = Vec::new();
        let mut i: usize = 0;
        while i < left.len()
            invariant
                self.wf(),
                bytes == blob@,
                blob@.len() <= max_blob(),
                i <= left@.len(),
                listeners(self.sparse) == detach_all(m1, bytes, sym@, left@.take(i as int)),
                ints(cs@) == fired(bytes, sym@, left@.take(i as int)),
            decreases left@.len() - i,
        {
            proof {
                assert(left@.take(i + 1).drop_last() =~= left@.take(i as int));
            }
            self.detach_state(blob, sym, left[i], &mut cs);
            i = i + 1;
        }
        proof {
            assert(left@.take(left@.len() as int) =~= left@);
        }
        let ghost cv = ints(cs@);
        let ghost m2 = listeners(self.sparse);
        // The byte automaton runs over the value.
        let mut inits: Vec<usize> = Vec::new();
        let mut k: usize = 0;
        while k < cs.len()
            invariant
                bytes == blob@,
                blob@.len() <= max_blob(),
                k <= cs@.len(),
                cv == ints(cs@),
                inits@ == fired_inits(bytes, cv.take(k as int)),
            decreases cs@.len() - k,
        {
            proof {
                assert(cv.take(k + 1).drop_last() =~= cv.take(k as int));
                assert(cv.take(k + 1).last() == cs@[k as int] as int);
            }
            match read_tran(blob, cs[k]) {
                Some((xs, _)) => {
                    let mut xs = xs;
                    inits.append(&mut xs);
                },
                None => {
                    proof {
                        assert(inits@ =~= inits@ + Seq::<usize>::empty());
                    }
                },
            }
            k = k + 1;
        }
        proof {
            assert(cv.take(cv.len() as int) =~= cv);
        }
        let mut cr = crate::char_runner::Runner::new(&inits);
        let ghost start = cr.states@;
        let mut b: usize = 0;
        while b < value.len()
            invariant
                bytes == blob@,
                blob@.len() <= max_blob(),
                b <= value@.len(),
                cr.states@ == char_run(bytes, start, value@.take(b as int)),
            decreases value@.len() - b,
        {
            proof {
                assert(value@.take(b + 1).drop_last() =~= value@.take(b as int));
            }
            cr.read(blob, value[b]);
            b = b + 1;
        }
        proof {
            assert(value@.take(value@.len() as int) =~= value@);
        }
        let tags = cr.get_tags(blob);
        proof {
            assert(tags@ == value_tags(bytes, cv, value@));
        }
        // Each fired transition reaches its leaf.
        let mut get_olds: Vec<Vec<u8>> = Vec::new();
        let mut exts: Vec<Vec<u8>> = Vec::new();
        let mut steps: Vec<Reaction> = Vec::new();
        proof {
            assert(reaction_views(steps@) =~= Seq::<(bool, Seq<u8>)>::empty());
        }
        let mut k: usize = 0;
        while k < cs.len()
            invariant
                self.wf(),
                bytes == blob@,
                blob@.len() <= max_blob(),
                k <= cs@.len(),
                cv == ints(cs@),
                listeners(self.sparse) == settle(m2, bytes, cv.take(k as int), tags@),
                views(get_olds@) == reported(bytes, cv.take(k as int), tags@, true),
                views(exts@) == reported(bytes, cv.take(k as int), tags@, false),
                reaction_views(steps@) == reported_steps(bytes, cv.take(k as int), tags@),
            decreases cs@.len() - k,
        {
            proof {
                assert(cv.take(k + 1).drop_last() =~= cv.take(k as int));
                assert(cv.take(k + 1).last() == cs@[k as int] as int);
            }
            let ghost g0 = get_olds@;
            let ghost x0 = exts@;
            let ghost s0 = steps@;
            match eval_leaf(blob, cs[k], &tags) {
                Some((ss, gs, xs)) => {
                    self.attach_states(blob, &ss);
                    push_steps(&mut steps, &gs, true);
                    push_steps(&mut steps, &xs, false);
                    proof {
                        assert(reaction_views(steps@) =~= reaction_views(s0) + (tagged(views(gs@), true) + tagged(
                            views(xs@),
                            false,
                        )));
                    }
                    let mut gs = gs;
                    let mut xs = xs;
                    let ghost gv = gs@;
                    let ghost xv = xs@;
                    get_olds.append(&mut gs);
                    exts.append(&mut xs);
                    proof {
                        assert(views(get_olds@) =~= views(g0) + views(gv));
                        assert(views(exts@) =~= views(x0) + views(xv));
                    }
                },
                None => {
                    proof {
                        assert(views(get_olds@) =~= views(g0) + Seq::<Seq<u8>>::empty());
                        assert(views(exts@) =~= views(x0) + Seq::<Seq<u8>>::empty());
                        assert(reaction_views(steps@) =~= reaction_views(s0) + Seq::<(bool, Seq<u8>)>::empty());
                    }
                },
            }
            k = k + 1;
        }
        Reactions { get_olds, exts, steps }
    }
}

} // verus!
