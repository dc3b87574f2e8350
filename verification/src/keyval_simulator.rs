//! Simulating an automaton over a stream of key-value updates.
//!
//! A simulation keeps the key-value runner, the extensions that have been
//! reached and the keys whose values are still to get. The values come from
//! outside (a database, say): whoever drives the simulation takes the next
//! key to get, looks it up, and reads it back in while keys remain.
use vstd::prelude::*;

use crate::ancha::max_blob;
use crate::keyval_nfa::views;
use crate::keyval_runner::{cells_at, listeners, no_listeners, runner_read, same_bytes, sediment_at, attach_all, Runner};

verus! {

/// The automaton at the start of a blob: the keys to get first, the
/// extensions reached from the start, and the initial key-value states.
pub open spec fn automaton_at(bytes: Seq<u8>) -> Option<(Seq<Seq<u8>>, Seq<Seq<u8>>, Seq<usize>)> {
    match sediment_at(bytes, 0) {
        Some((gets, e1)) => match sediment_at(bytes, e1) {
            Some((exts, e2)) => match cells_at::<usize>(bytes, e2) {
                Some((inits, _)) => Some((gets, exts, inits)),
                None => None,
            },
            None => None,
        },
        None => None,
    }
}

/// `s` with `x` behind it, unless it holds `x` already.
pub open spec fn with_item(s: Seq<Seq<u8>>, x: Seq<u8>) -> Seq<Seq<u8>> {
    if s.contains(x) {
        s
    } else {
        s.push(x)
    }
}

/// `s` with each of `xs` behind it, in turn, unless it holds it already.
pub open spec fn with_items(s: Seq<Seq<u8>>, xs: Seq<Seq<u8>>) -> Seq<Seq<u8>>
    decreases xs.len(),
{
    if xs.len() == 0 {
        s
    } else {
        with_item(with_items(s, xs.drop_last()), xs.last())
    }
}

/// Adding strings keeps what was there, in its order, in front; afterwards
/// the sequence holds exactly what was there and what was added, and
/// repeats nothing that it did not repeat before. So a simulation never
/// loses an extension it has reached, nor reports one twice.
pub proof fn lemma_with_items(s: Seq<Seq<u8>>, xs: Seq<Seq<u8>>)
    ensures
        with_items(s, xs).len() >= s.len(),
        with_items(s, xs).take(s.len() as int) == s,
        forall|x: Seq<u8>| #[trigger] with_items(s, xs).contains(x) <==> s.contains(x) || xs.contains(x),
        s.no_duplicates() ==> with_items(s, xs).no_duplicates(),
    decreases xs.len(),
{
    if xs.len() > 0 {
        let prev = xs.drop_last();
        lemma_with_items(s, prev);
        let a = with_items(s, prev);
        let x0 = xs.last();
        if !a.contains(x0) {
            assert(a.push(x0).take(s.len() as int) =~= a.take(s.len() as int));
            if a.no_duplicates() {
                assert forall|i: int, j: int| 0 <= i < j < a.push(x0).len() implies a.push(x0)[i] != a.push(x0)[j] by {
                    if j == a.len() {
                        assert(a.push(x0)[i] == a[i]);
                    }
                }
            }
        }
        assert forall|x: Seq<u8>| #[trigger] with_items(s, xs).contains(x) <==> s.contains(x) || xs.contains(x) by {
            if prev.contains(x) {
                let j = choose|j: int| 0 <= j < prev.len() && prev[j] == x;
                assert(xs[j] == x);
            }
            if xs.contains(x) && x != x0 {
                let j = choose|j: int| 0 <= j < xs.len() && xs[j] == x;
                assert(prev[j] == x);
            }
            assert(xs[xs.len() - 1] == x0);
            if !a.contains(x0) {
                if a.push(x0).contains(x) && x != x0 {
                    let j = choose|j: int| 0 <= j < a.push(x0).len() && a.push(x0)[j] == x;
                    assert(a[j] == x);
                }
                if a.contains(x) {
                    let j = choose|j: int| 0 <= j < a.len() && a[j] == x;
                    assert(a.push(x0)[j] == x);
                }
                assert(a.push(x0)[a.len() as int] == x0);
            }
        }
    } else {
        assert(s.take(s.len() as int) =~= s);
    }
}

/// Byte strings in the order in which they came, each once: an indexmap set.
#[verifier::external_body]
pub struct ByteSet {
    set: indexmap::IndexSet<Vec<u8>>,
}

/// What a `ByteSet` holds, in order.
pub uninterp spec fn byte_set(s: ByteSet) -> Seq<Seq<u8>>;

/// A set that holds nothing.
pub open spec fn no_bytes() -> Seq<Seq<u8>> {
    Seq::empty()
}

impl ByteSet {
    /// `IndexSet::new`: a set that holds nothing.
    #[verifier::external_body]
    fn new() -> (r: Self)
        ensures
            byte_set(r) == no_bytes(),
    {
        ByteSet { set: indexmap::IndexSet::new() }
    }

    /// `IndexSet::insert`: the string joins at the end, unless the set holds
    /// it already.
    #[verifier::external_body]
    fn insert(&mut self, x: Vec<u8>)
        ensures
            byte_set(*final(self)) == with_item(byte_set(*old(self)), x@),
    {
        self.set.insert(x);
    }

    /// `IndexSet::pop`: the last string leaves the set.
    #[verifier::external_body]
    fn pop(&mut self) -> (r: Option<Vec<u8>>)
        ensures
            byte_set(*old(self)).len() == 0 ==> r is None && byte_set(*final(self)) == byte_set(*old(self)),
            byte_set(*old(self)).len() > 0 ==> (r matches Some(x) && x@ == byte_set(*old(self)).last()
                && byte_set(*final(self)) == byte_set(*old(self)).drop_last()),
    {
        self.set.pop()
    }

    /// `IndexSet::iter`, cloned and collected: the strings in order.
    #[verifier::external_body]
    fn to_vec(&self) -> (r: Vec<Vec<u8>>)
        ensures
            views(r@) == byte_set(*self),
    {
        self.set.iter().cloned().collect()
    }
}

/// Each of `xs` joins `s`, in turn.
fn insert_all(s: &mut ByteSet, xs: Vec<Vec<u8>>)
    ensures
        byte_set(*final(s)) == with_items(byte_set(*old(s)), views(xs@)),
{
    let ghost s0 = byte_set(*s);
    let ghost xv = views(xs@);
    let mut i: usize = 0;
    while i < xs.len()
        invariant
            i <= xs@.len(),
            xv == views(xs@),
            byte_set(*s) == with_items(s0, xv.take(i as int)),
        decreases xs@.len() - i,
    {
        proof {
            assert(xv.take(i + 1).drop_last() =~= xv.take(i as int));
            assert(xv.take(i + 1).last() == xs@[i as int]@);
        }
        s.insert(xs[i].clone());
        i = i + 1;
    }
    proof {
        assert(xv.take(xv.len() as int) =~= xv);
    }
}

/// The value of `key` among `values`: that of the last pair with the key.
pub open spec fn value_of(values: Seq<(Seq<u8>, Seq<u8>)>, key: Seq<u8>) -> Option<Seq<u8>>
    decreases values.len(),
{
    if values.len() == 0 {
        None
    } else if values.last().0 == key {
        Some(values.last().1)
    } else {
        value_of(values.drop_last(), key)
    }
}

/// Key-value pairs as byte sequences.
pub open spec fn pair_views(v: Seq<(Vec<u8>, Vec<u8>)>) -> Seq<(Seq<u8>, Seq<u8>)> {
    v.map_values(|p: (Vec<u8>, Vec<u8>)| (p.0@, p.1@))
}

/// The value of `key` among `values`, the last pair with the key winning.
pub fn value_for<'v>(values: &'v Vec<(Vec<u8>, Vec<u8>)>, key: &[u8]) -> (r: Option<&'v Vec<u8>>)
    ensures
        match value_of(pair_views(values@), key@) {
            None => r is None,
            Some(v) => r matches Some(x) && x@ == v,
        },
{
    let ghost pv = pair_views(values@);
    let mut i: usize = values.len();
    proof {
        assert(pv.take(i as int) =~= pv);
    }
    while i > 0
        invariant
            i <= values@.len(),
            pv == pair_views(values@),
            value_of(pv, key@) == value_of(pv.take(i as int), key@),
        decreases i,
    {
        proof {
            assert(pv.take(i as int).drop_last() =~= pv.take(i - 1));
            assert(pv.take(i as int).last() == pv[i - 1]);
        }
        if same_bytes(values[i - 1].0.as_slice(), key) {
            return Some(&values[i - 1].1);
        }
        i = i - 1;
    }
    None
}

/// A simulation of an automaton: its runner, the extensions reached, and
/// the keys whose values are still to get.
pub struct Simulation {
    pub keyval_runner: Runner,
    pub exts: ByteSet,
    pub getolds: ByteSet,
}

impl Simulation {
    /// The runner is well formed.
    pub open spec fn wf(&self) -> bool {
        self.keyval_runner.wf()
    }

    /// The simulation of the automaton at the start of `blob`: its initial
    /// states listen, its first keys are to get and its first extensions
    /// are reached. `None` where the blob does not hold an automaton's head.
    pub fn new(blob: &[u8]) -> (r: Option<Self>)
        requires
            blob@.len() <= max_blob(),
        ensures
            match automaton_at(blob@) {
                None => r is None,
                Some((gets, exts, inits)) => r matches Some(sim) && sim.wf() && listeners(
                    sim.keyval_runner.sparse,
                ) == attach_all(no_listeners(), blob@, inits) && byte_set(sim.getolds) == with_items(
                    no_bytes(),
                    gets,
                ) && byte_set(sim.exts) == with_items(no_bytes(), exts),
            },
    {
        let (gets, e1) = match crate::keyval_runner::read_sediment(blob, 0) {
            Some(x) => x,
            None => {
                return None;
            },
        };
        let (exts, e2) = match crate::keyval_runner::read_sediment(blob, e1) {
            Some(x) => x,
            None => {
                return None;
            },
        };
        let inits = match crate::keyval_runner::read_cells::<usize>(blob, e2) {
            Some(x) => x.0,
            None => {
                return None;
            },
        };
        let keyval_runner = Runner::new(blob, &inits);
        let mut getolds = ByteSet::new();
        insert_all(&mut getolds, gets);
        let mut ext_set = ByteSet::new();
        insert_all(&mut ext_set, exts);
        Some(Simulation { keyval_runner, exts: ext_set, getolds })
    }

    /// Read `key` with value `val`: the runner reads it, and what it reports
    /// joins the keys to get and the extensions reached.
    pub fn read(&mut self, blob: &[u8], key: &[u8], val: &[u8])
        requires
            old(self).wf(),
            blob@.len() <= max_blob(),
        ensures
            final(self).wf(),
            ({
                let (m, gets, exts) = runner_read(listeners(old(self).keyval_runner.sparse), blob@, key@, val@);
                &&& listeners(final(self).keyval_runner.sparse) == m
                &&& byte_set(final(self).getolds) == with_items(byte_set(old(self).getolds), gets)
                &&& byte_set(final(self).exts) == with_items(byte_set(old(self).exts), exts)
            }),
    {
        let r = self.keyval_runner.read(blob, key, val);
        insert_all(&mut self.getolds, r.get_olds);
        insert_all(&mut self.exts, r.exts);
    }

    /// The next key whose value to get: the last that joined; it leaves the
    /// keys to get.
    pub fn next_get_old(&mut self) -> (r: Option<Vec<u8>>)
        ensures
            final(self).keyval_runner == old(self).keyval_runner,
            byte_set(final(self).exts) == byte_set(old(self).exts),
            byte_set(old(self).getolds).len() == 0 ==> r is None && byte_set(final(self).getolds) == byte_set(
                old(self).getolds,
            ),
            byte_set(old(self).getolds).len() > 0 ==> (r matches Some(k) && k@ == byte_set(
                old(self).getolds,
            ).last() && byte_set(final(self).getolds) == byte_set(old(self).getolds).drop_last()),
    {
        self.getolds.pop()
    }

    /// One step of finishing a read: the next key to get leaves the keys to
    /// get and, where `values` hold it, is read in with its value. `false`
    /// where no key is left to get (nothing changes then).
    pub fn finish_step(&mut self, blob: &[u8], values: &Vec<(Vec<u8>, Vec<u8>)>) -> (r: bool)
        requires
            old(self).wf(),
            blob@.len() <= max_blob(),
        ensures
            final(self).wf(),
            r == (byte_set(old(self).getolds).len() > 0),
            !r ==> listeners(final(self).keyval_runner.sparse) == listeners(old(self).keyval_runner.sparse)
                && byte_set(final(self).getolds) == byte_set(old(self).getolds)
                && byte_set(final(self).exts) == byte_set(old(self).exts),
            r ==> ({
                let key = byte_set(old(self).getolds).last();
                let rest = byte_set(old(self).getolds).drop_last();
                match value_of(pair_views(values@), key) {
                    None => {
                        &&& listeners(final(self).keyval_runner.sparse) == listeners(old(self).keyval_runner.sparse)
                        &&& byte_set(final(self).getolds) == rest
                        &&& byte_set(final(self).exts) == byte_set(old(self).exts)
                    },
                    Some(val) => {
                        let (m, gets, exts) = runner_read(listeners(old(self).keyval_runner.sparse), blob@, key, val);
                        &&& listeners(final(self).keyval_runner.sparse) == m
                        &&& byte_set(final(self).getolds) == with_items(rest, gets)
                        &&& byte_set(final(self).exts) == with_items(byte_set(old(self).exts), exts)
                    },
                }
            }),
    {
        match self.next_get_old() {
            None => false,
            Some(key) => {
                match value_for(values, key.as_slice()) {
                    Some(val) => {
                        self.read(blob, key.as_slice(), val.as_slice());
                    },
                    None => {},
                }
                true
            },
        }
    }

    /// The extensions reached so far, in the order in which they were first
    /// reached.
    pub fn exts(&self) -> (r: Vec<Vec<u8>>)
        ensures
            views(r@) == byte_set(self.exts),
    {
        self.exts.to_vec()
    }
}

} // verus!
