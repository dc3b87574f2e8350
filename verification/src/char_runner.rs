//! Running the byte automaton: the set of current byte states, stepped by
//! each byte of a value, and the tags that the current states carry.
//!
//! States are positions of `U8State`s in the automaton's blob.
use vstd::prelude::*;

use crate::ancha::max_blob;
use crate::my_ancha::state::{state_tags, state_targets, U8State};

verus! {

/// `acc`, then each item of `xs` that it does not hold yet, in order of first
/// occurrence.
pub open spec fn push_new(acc: Seq<usize>, xs: Seq<usize>) -> Seq<usize>
    decreases xs.len(),
{
    if xs.len() == 0 {
        acc
    } else {
        let a = push_new(acc, xs.drop_last());
        if a.contains(xs.last()) {
            a
        } else {
            a.push(xs.last())
        }
    }
}

/// What `push_new` holds: `acc` and `xs`; and it repeats nothing that `acc`
/// does not repeat.
pub proof fn lemma_push_new(acc: Seq<usize>, xs: Seq<usize>)
    ensures
        forall|x: usize| #[trigger] push_new(acc, xs).contains(x) <==> acc.contains(x) || xs.contains(x),
        acc.no_duplicates() ==> push_new(acc, xs).no_duplicates(),
    decreases xs.len(),
{
    if xs.len() > 0 {
        lemma_push_new(acc, xs.drop_last());
        let a = push_new(acc, xs.drop_last());
        assert forall|x: usize| #[trigger] push_new(acc, xs).contains(x) <==> acc.contains(x) || xs.contains(x) by {
            if xs.contains(x) && !xs.drop_last().contains(x) {
                let j = choose|j: int| 0 <= j < xs.len() && xs[j] == x;
                if j < xs.len() - 1 {
                    assert(xs.drop_last()[j] == x);
                }
            }
            if xs.drop_last().contains(x) {
                let j = choose|j: int| 0 <= j < xs.drop_last().len() && xs.drop_last()[j] == x;
                assert(xs[j] == x);
            }
            if !a.contains(xs.last()) {
                if a.push(xs.last()).contains(x) && x != xs.last() {
                    let j = choose|j: int| 0 <= j < a.push(xs.last()).len() && a.push(xs.last())[j] == x;
                    assert(a[j] == x);
                }
                if a.contains(x) {
                    let j = choose|j: int| 0 <= j < a.len() && a[j] == x;
                    assert(a.push(xs.last())[j] == x);
                }
                assert(a.push(xs.last())[a.len() as int] == xs.last());
            }
            assert(xs[xs.len() - 1] == xs.last());
        }
    }
}

/// Adds to `acc` each item of `xs` that it does not hold yet, in order.
pub fn push_new_into(acc: &mut Vec<usize>, xs: &Vec<usize>)
    ensures
        final(acc)@ == push_new(old(acc)@, xs@),
{
    let mut i: usize = 0;
    while i < xs.len()
        invariant
            i <= xs@.len(),
            acc@ == push_new(old(acc)@, xs@.take(i as int)),
        decreases xs@.len() - i,
    {
        let x = xs[i];
        let mut found = false;
        let mut j: usize = 0;
        while j < acc.len()
            invariant
                j <= acc@.len(),
                found == (exists|k: int| 0 <= k < j && acc@[k] == x),
            decreases acc@.len() - j,
        {
            if acc[j] == x {
                found = true;
            }
            j = j + 1;
        }
        proof {
            let t = xs@.take(i + 1);
            assert(t.drop_last() =~= xs@.take(i as int));
            assert(t.last() == x);
            if found {
                let k = choose|k: int| 0 <= k < j && acc@[k] == x;
                assert(acc@.contains(x));
            } else {
                assert(!acc@.contains(x));
            }
        }
        if !found {
            acc.push(x);
        }
        i = i + 1;
    }
    proof {
        assert(xs@.take(xs@.len() as int) =~= xs@);
    }
}

/// The targets that byte `c` takes from the state at `s`; none where the
/// blob does not hold the state's head.
pub open spec fn u8_targets(bytes: Seq<u8>, s: usize, c: u8) -> Seq<usize> {
    if s + 24 <= bytes.len() {
        state_targets(bytes, s as int, c)
    } else {
        Seq::empty()
    }
}

/// The tags of the state at `s`; none where the blob does not hold the
/// state's head.
pub open spec fn u8_tags(bytes: Seq<u8>, s: usize) -> Seq<usize> {
    if s + 24 <= bytes.len() {
        state_tags(bytes, s as int)
    } else {
        Seq::empty()
    }
}

/// The states that byte `c` leads to from the states `ss`: the targets of
/// each state in turn, each once, in order of first occurrence.
pub open spec fn char_step(bytes: Seq<u8>, ss: Seq<usize>, c: u8) -> Seq<usize>
    decreases ss.len(),
{
    if ss.len() == 0 {
        Seq::empty()
    } else {
        push_new(char_step(bytes, ss.drop_last(), c), u8_targets(bytes, ss.last(), c))
    }
}

/// The states reached from `ss` by reading `value`, byte by byte.
pub open spec fn char_run(bytes: Seq<u8>, ss: Seq<usize>, value: Seq<u8>) -> Seq<usize>
    decreases value.len(),
{
    if value.len() == 0 {
        ss
    } else {
        char_step(bytes, char_run(bytes, ss, value.drop_last()), value.last())
    }
}

/// Reading a value reads every one of its bytes, in order: reading nothing
/// leaves the states as they are; reading a byte and then the rest is
/// reading the rest from the states that the byte leads to; and reading a
/// value and then a byte is reading the longer value.
pub proof fn lemma_char_run_reads_each_byte(bytes: Seq<u8>, ss: Seq<usize>, c: u8, v: Seq<u8>)
    ensures
        char_run(bytes, ss, Seq::empty()) == ss,
        char_run(bytes, ss, seq![c]) == char_step(bytes, ss, c),
        char_run(bytes, ss, seq![c] + v) == char_run(bytes, char_step(bytes, ss, c), v),
        char_run(bytes, ss, v.push(c)) == char_step(bytes, char_run(bytes, ss, v), c),
    decreases v.len(),
{
    assert(seq![c].drop_last() =~= Seq::<u8>::empty());
    assert(v.push(c).drop_last() =~= v);
    if v.len() == 0 {
        assert(seq![c] + v =~= seq![c]);
    } else {
        let w = v.drop_last();
        lemma_char_run_reads_each_byte(bytes, ss, c, w);
        assert((seq![c] + v).drop_last() =~= seq![c] + w);
        assert((seq![c] + v).last() == v.last());
    }
}

/// The tags of the states `ss`: those of each state in turn, each once.
pub open spec fn char_tags(bytes: Seq<u8>, ss: Seq<usize>) -> Seq<usize>
    decreases ss.len(),
{
    if ss.len() == 0 {
        Seq::empty()
    } else {
        push_new(char_tags(bytes, ss.drop_last()), u8_tags(bytes, ss.last()))
    }
}

/// A step of the byte automaton repeats no state, and reaches exactly the
/// targets of the current states: `t` is reached by byte `c` from `ss` if and
/// only if some state of `ss` has `t` among its targets for `c`.
pub proof fn lemma_char_step(bytes: Seq<u8>, ss: Seq<usize>, c: u8)
    ensures
        char_step(bytes, ss, c).no_duplicates(),
        forall|t: usize|
            #[trigger] char_step(bytes, ss, c).contains(t) <==> exists|i: int|
                0 <= i < ss.len() && #[trigger] u8_targets(bytes, ss[i], c).contains(t),
    decreases ss.len(),
{
    if ss.len() > 0 {
        let prev = ss.drop_last();
        lemma_char_step(bytes, prev, c);
        lemma_push_new(char_step(bytes, prev, c), u8_targets(bytes, ss.last(), c));
        assert forall|t: usize| #[trigger] char_step(bytes, ss, c).contains(t) <==> exists|i: int|
            0 <= i < ss.len() && #[trigger] u8_targets(bytes, ss[i], c).contains(t) by {
            if char_step(bytes, prev, c).contains(t) {
                let i = choose|i: int| 0 <= i < prev.len() && #[trigger] u8_targets(bytes, prev[i], c).contains(t);
                assert(ss[i] == prev[i]);
            }
            if u8_targets(bytes, ss.last(), c).contains(t) {
                assert(u8_targets(bytes, ss[ss.len() - 1], c).contains(t));
            }
            if exists|i: int| 0 <= i < ss.len() && #[trigger] u8_targets(bytes, ss[i], c).contains(t) {
                let i = choose|i: int| 0 <= i < ss.len() && #[trigger] u8_targets(bytes, ss[i], c).contains(t);
                if i < ss.len() - 1 {
                    assert(prev[i] == ss[i]);
                }
            }
        }
    } else {
        assert(char_step(bytes, ss, c) =~= Seq::<usize>::empty());
    }
}

/// The tags of the current states are each tag of some current state, each
/// once.
pub proof fn lemma_char_tags(bytes: Seq<u8>, ss: Seq<usize>)
    ensures
        char_tags(bytes, ss).no_duplicates(),
        forall|t: usize|
            #[trigger] char_tags(bytes, ss).contains(t) <==> exists|i: int|
                0 <= i < ss.len() && #[trigger] u8_tags(bytes, ss[i]).contains(t),
    decreases ss.len(),
{
    if ss.len() > 0 {
        let prev = ss.drop_last();
        lemma_char_tags(bytes, prev);
        lemma_push_new(char_tags(bytes, prev), u8_tags(bytes, ss.last()));
        assert forall|t: usize| #[trigger] char_tags(bytes, ss).contains(t) <==> exists|i: int|
            0 <= i < ss.len() && #[trigger] u8_tags(bytes, ss[i]).contains(t) by {
            if char_tags(bytes, prev).contains(t) {
                let i = choose|i: int| 0 <= i < prev.len() && #[trigger] u8_tags(bytes, prev[i]).contains(t);
                assert(ss[i] == prev[i]);
            }
            if u8_tags(bytes, ss.last()).contains(t) {
                assert(u8_tags(bytes, ss[ss.len() - 1]).contains(t));
            }
            if exists|i: int| 0 <= i < ss.len() && #[trigger] u8_tags(bytes, ss[i]).contains(t) {
                let i = choose|i: int| 0 <= i < ss.len() && #[trigger] u8_tags(bytes, ss[i]).contains(t);
                if i < ss.len() - 1 {
                    assert(prev[i] == ss[i]);
                }
            }
        }
    } else {
        assert(char_tags(bytes, ss) =~= Seq::<usize>::empty());
    }
}

/// The current states of the byte automaton.
pub struct Runner {
    pub states: Vec<usize>,
}

/// The targets of the state at `s`, in order.
fn targets_of(blob: &[u8], s: usize, c: u8) -> (r: Vec<usize>)
    requires
        blob@.len() <= max_blob(),
    ensures
        r@ == u8_targets(blob@, s, c),
{
    let mut r: Vec<usize> = Vec::new();
    if s < blob.len() && 24 <= blob.len() - s {
        let mut it = U8State::from_blob(blob, s).iter_matches(c);
        let ghost all = it.rest();
        loop
            invariant
                it.wf(),
                r@ + it.rest() == all,
            ensures
                r@ == all,
            decreases it.rest().len(),
        {
            match it.next() {
                Some(t) => {
                    let ghost rest = it.rest();
                    r.push(t);
                    proof {
                        assert(r@ + rest =~= all);
                    }
                },
                None => {
                    proof {
                        assert(r@ =~= all);
                    }
                    break;
                },
            }
        }
    }
    r
}

impl Runner {
    /// The runner at the states `inits`, each once.
    pub fn new(inits: &Vec<usize>) -> (r: Self)
        ensures
            r.states@ == push_new(Seq::empty(), inits@),
    {
        let mut states: Vec<usize> = Vec::new();
        push_new_into(&mut states, inits);
        Runner { states }
    }

    /// Step every current state by byte `c`.
    pub fn read(&mut self, blob: &[u8], c: u8)
        requires
            blob@.len() <= max_blob(),
        ensures
            final(self).states@ == char_step(blob@, old(self).states@, c),
    {
        let mut next: Vec<usize> = Vec::new();
        let mut i: usize = 0;
        while i < self.states.len()
            invariant
                blob@.len() <= max_blob(),
                i <= self.states@.len(),
                next@ == char_step(blob@, self.states@.take(i as int), c),
            decreases self.states@.len() - i,
        {
            let ts = targets_of(blob, self.states[i], c);
            proof {
                let t = self.states@.take(i + 1);
                assert(t.drop_last() =~= self.states@.take(i as int));
            }
            push_new_into(&mut next, &ts);
            i = i + 1;
        }
        proof {
            assert(self.states@.take(self.states@.len() as int) =~= self.states@);
        }
        self.states = next;
    }

    /// The tags of the current states, each once.
    pub fn get_tags(&self, blob: &[u8]) -> (r: Vec<usize>)
        requires
            blob@.len() <= max_blob(),
        ensures
            r@ == char_tags(blob@, self.states@),
    {
        let mut tags: Vec<usize> = Vec::new();
        let mut i: usize = 0;
        while i < self.states.len()
            invariant
                blob@.len() <= max_blob(),
                i <= self.states@.len(),
                tags@ == char_tags(blob@, self.states@.take(i as int)),
            decreases self.states@.len() - i,
        {
            let s = self.states[i];
            let ts = if s < blob.len() && 24 <= blob.len() - s {
                U8State::from_blob(blob, s).get_tags()
            } else {
                Vec::new()
            };
            proof {
                let t = self.states@.take(i + 1);
                assert(t.drop_last() =~= self.states@.take(i as int));
            }
            push_new_into(&mut tags, &ts);
            i = i + 1;
        }
        proof {
            assert(self.states@.take(self.states@.len() as int) =~= self.states@);
        }
        tags
    }
}

} // verus!
