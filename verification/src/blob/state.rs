//! Preparing a state of a byte automaton for its blob layout.
//!
//! A state with few transitions becomes sparse: the targets of its large
//! guards are kept per guard, and the other transitions are spelled out per
//! byte, in the buckets of a hash map. A state with many transitions becomes
//! dense: one list of targets for each byte.
use vstd::arithmetic::power2::pow2;
use vstd::prelude::*;

use crate::char_nfa::State;
use crate::guards::{guard_count, guard_has, Guard};
use crate::my_ancha::state::{U8DenseStatePrepared, U8SparseStatePrepared, U8StatePrepared};

verus! {

/// How states are prepared. Implemented by the users of the library.
pub trait U8BuildConfig {
    spec fn spec_guard_size_keep(&self) -> u32;

    spec fn spec_hashmap_cap_power(&self, len: usize) -> usize;

    spec fn spec_dense_guard_count(&self) -> usize;

    /// Guards that hold at least this many bytes are kept as guards.
    fn guard_size_keep(&self) -> (r: u32)
        ensures
            r == self.spec_guard_size_keep(),
    ;

    /// The number of buckets (as a power of two) for `len` bytes.
    fn hashmap_cap_power_fn(&self, len: usize) -> (r: usize)
        ensures
            r == self.spec_hashmap_cap_power(len),
    ;

    /// States with at least this many transitions become dense.
    fn dense_guard_count(&self) -> (r: usize)
        ensures
            r == self.spec_dense_guard_count(),
    ;
}

/// Fixed settings for preparing states: the bucket count does not depend on
/// the number of bytes.
pub struct U8BuildParams {
    pub guard_size_keep: u32,
    pub hashmap_cap_power: usize,
    pub dense_guard_count: usize,
}

impl U8BuildConfig for U8BuildParams {
    open spec fn spec_guard_size_keep(&self) -> u32 {
        self.guard_size_keep
    }

    open spec fn spec_hashmap_cap_power(&self, len: usize) -> usize {
        self.hashmap_cap_power
    }

    open spec fn spec_dense_guard_count(&self) -> usize {
        self.dense_guard_count
    }

    fn guard_size_keep(&self) -> (r: u32) {
        self.guard_size_keep
    }

    fn hashmap_cap_power_fn(&self, len: usize) -> (r: usize) {
        self.hashmap_cap_power
    }

    fn dense_guard_count(&self) -> (r: usize) {
        self.dense_guard_count
    }
}

/// The settings with which the command-line tools prepare states: guards of
/// at least 10 bytes are kept, 8 buckets, dense from 15 transitions on.
pub struct BuildConfig;

impl U8BuildConfig for BuildConfig {
    open spec fn spec_guard_size_keep(&self) -> u32 {
        10
    }

    open spec fn spec_hashmap_cap_power(&self, len: usize) -> usize {
        3
    }

    open spec fn spec_dense_guard_count(&self) -> usize {
        15
    }

    fn guard_size_keep(&self) -> (r: u32) {
        10
    }

    fn hashmap_cap_power_fn(&self, len: usize) -> (r: usize) {
        3
    }

    fn dense_guard_count(&self) -> (r: usize) {
        15
    }
}

/// Whether a guard is large enough to be kept as a guard.
pub open spec fn big(g: Guard, keep: u32) -> bool {
    guard_count(g, 256) >= keep
}

/// The targets, in order, of the transitions whose guard holds `c`.
pub open spec fn targets_on(ts: Seq<(Guard, usize)>, c: u8) -> Seq<usize>
    decreases ts.len(),
{
    if ts.len() == 0 {
        Seq::empty()
    } else {
        let rest = targets_on(ts.drop_last(), c);
        if guard_has(ts.last().0, c) {
            rest.push(ts.last().1)
        } else {
            rest
        }
    }
}

/// The targets, in order, of the transitions whose guard is `g`.
pub open spec fn targets_of(ts: Seq<(Guard, usize)>, g: Guard) -> Seq<usize>
    decreases ts.len(),
{
    if ts.len() == 0 {
        Seq::empty()
    } else {
        let rest = targets_of(ts.drop_last(), g);
        if ts.last().0 == g {
            rest.push(ts.last().1)
        } else {
            rest
        }
    }
}

/// The transitions whose guards are too small to be kept.
pub open spec fn small_part(ts: Seq<(Guard, usize)>, keep: u32) -> Seq<(Guard, usize)>
    decreases ts.len(),
{
    if ts.len() == 0 {
        Seq::empty()
    } else {
        let rest = small_part(ts.drop_last(), keep);
        if big(ts.last().0, keep) {
            rest
        } else {
            rest.push(ts.last())
        }
    }
}

/// The targets that byte `c` reaches through small guards.
pub open spec fn explicit_targets(ts: Seq<(Guard, usize)>, keep: u32, c: u8) -> Seq<usize> {
    targets_on(small_part(ts, keep), c)
}

/// The bytes that reach some target through small guards.
pub open spec fn explicit_bytes(ts: Seq<(Guard, usize)>, keep: u32) -> Set<u8> {
    Set::new(|c: u8| explicit_targets(ts, keep, c).len() > 0)
}

/// The guard transitions of a sparse state: each large guard of the
/// transitions once, with its targets in order.
pub open spec fn pattern_ok(ts: Seq<(Guard, usize)>, keep: u32, p: Seq<(Guard, Vec<usize>)>) -> bool {
    &&& forall|i: int|
        0 <= i < p.len() ==> big(#[trigger] p[i].0, keep) && p[i].1@ == targets_of(ts, p[i].0)
            && p[i].1@.len() > 0
    &&& forall|i: int, j: int| 0 <= i < j < p.len() ==> #[trigger] p[i].0 != #[trigger] p[j].0
    &&& forall|k: int|
        0 <= k < ts.len() && big(#[trigger] ts[k].0, keep) ==> exists|i: int|
            0 <= i < p.len() && #[trigger] p[i].0 == ts[k].0
}

/// The byte transitions of a sparse state: `cap` buckets; the bucket of byte
/// `c` is `c % cap`; each byte that reaches a target through small guards
/// stands once in its bucket, with those targets in order.
pub open spec fn explicit_ok(
    ts: Seq<(Guard, usize)>,
    keep: u32,
    cap: int,
    e: Seq<Vec<(u8, Vec<usize>)>>,
) -> bool {
    &&& e.len() == cap
    &&& forall|b: int, j: int|
        0 <= b < cap && 0 <= j < e[b]@.len() ==> {
            let item = #[trigger] e[b]@[j];
            &&& (item.0 as int) % cap == b
            &&& item.1@ == explicit_targets(ts, keep, item.0)
            &&& item.1@.len() > 0
        }
    &&& forall|b: int, j1: int, j2: int|
        0 <= b < cap && 0 <= j1 < j2 < e[b]@.len() ==> #[trigger] e[b]@[j1].0 != #[trigger] e[b]@[j2].0
    &&& forall|c: u8|
        #[trigger] explicit_targets(ts, keep, c).len() > 0 ==> exists|j: int|
            0 <= j < e[(c as int) % cap]@.len() && #[trigger] e[(c as int) % cap]@[j].0 == c
}

/// The bucket count that preparing `old` asks for fits in a word: a sparse
/// state has as many buckets as two to the power that `cfg` gives for the
/// number of its bytes with small guards.
pub open spec fn prepare_fits<Cfg: U8BuildConfig>(old: State, cfg: Cfg) -> bool {
    old.transitions@.len() < cfg.spec_dense_guard_count() ==> cfg.spec_hashmap_cap_power(
        explicit_bytes(old.transitions@, cfg.spec_guard_size_keep()).len() as usize,
    ) < usize::BITS
}

/// What preparing a state gives.
pub open spec fn prepared<Cfg: U8BuildConfig>(old: State, cfg: Cfg, r: U8StatePrepared) -> bool {
    let ts = old.transitions@;
    let keep = cfg.spec_guard_size_keep();
    match r {
        U8StatePrepared::Dense(d) => {
            &&& ts.len() >= cfg.spec_dense_guard_count()
            &&& d.tags@ == old.tags.0@
            &&& forall|c: u8| (#[trigger] d.trans@[c as int])@ == targets_on(ts, c)
        },
        U8StatePrepared::Sparse(s) => {
            let n = explicit_bytes(ts, keep).len();
            &&& ts.len() < cfg.spec_dense_guard_count()
            &&& s.tags@ == old.tags.0@
            &&& pattern_ok(ts, keep, s.pattern_trans@)
            &&& explicit_ok(
                ts,
                keep,
                pow2(cfg.spec_hashmap_cap_power(n as usize) as nat) as int,
                s.explicit_trans@,
            )
        },
    }
}

/// Targets grouped by guard, in a hashbrown map keyed by the guard's masks.
#[verifier::external_body]
pub struct TargetsByGuard {
    map: hashbrown::HashMap<(u128, u128), Vec<usize>>,
}

/// What a `TargetsByGuard` holds: for the masks of each guard, its targets.
pub uninterp spec fn guard_targets(m: TargetsByGuard) -> Map<(u128, u128), Seq<usize>>;

/// Targets grouped by byte, in a hashbrown map.
#[verifier::external_body]
pub struct TargetsByByte {
    map: hashbrown::HashMap<u8, Vec<usize>>,
}

/// What a `TargetsByByte` holds: for each byte, its targets.
pub uninterp spec fn byte_targets(m: TargetsByByte) -> Map<u8, Seq<usize>>;

/// A map of guards that holds nothing.
pub open spec fn no_guard_targets() -> Map<(u128, u128), Seq<usize>> {
    Map::empty()
}

/// A map of bytes that holds nothing.
pub open spec fn no_byte_targets() -> Map<u8, Seq<usize>> {
    Map::empty()
}

/// The targets that a map holds for a key, none where it holds the key not.
pub open spec fn held<K>(m: Map<K, Seq<usize>>, k: K) -> Seq<usize> {
    if m.dom().contains(k) {
        m[k]
    } else {
        Seq::empty()
    }
}

impl TargetsByGuard {
    /// `hashbrown::HashMap::new`: a map that holds nothing.
    #[verifier::external_body]
    fn new() -> (r: Self)
        ensures
            guard_targets(r) == no_guard_targets(),
    {
        TargetsByGuard { map: hashbrown::HashMap::new() }
    }

    /// `HashMap::entry`, `or_insert` of an empty vector, then a push: the
    /// guard's targets get `t` behind them; a new guard gets `[t]`.
    #[verifier::external_body]
    fn push(&mut self, g: Guard, t: usize)
        ensures
            guard_targets(*final(self)) == guard_targets(*old(self)).insert(
                (g.0, g.1),
                held(guard_targets(*old(self)), (g.0, g.1)).push(t),
            ),
    {
        self.map.entry((g.0, g.1)).or_insert(Vec::new()).push(t);
    }

    /// `HashMap::into_iter`, collected: each guard once with its targets, in
    /// an order that the map's hasher decides.
    #[verifier::external_body]
    fn into_pairs(self) -> (r: Vec<(Guard, Vec<usize>)>)
        ensures
            r@.len() == guard_targets(self).dom().len(),
            forall|i: int|
                #![trigger r@[i]]
                0 <= i < r@.len() ==> guard_targets(self).dom().contains((r@[i].0.0, r@[i].0.1))
                    && r@[i].1@ == guard_targets(self)[(r@[i].0.0, r@[i].0.1)],
            forall|i: int, j: int| 0 <= i < j < r@.len() ==> #[trigger] r@[i].0 != #[trigger] r@[j].0,
            forall|k: (u128, u128)|
                #[trigger] guard_targets(self).dom().contains(k) ==> exists|i: int|
                    0 <= i < r@.len() && #[trigger] r@[i].0 == Guard(k.0, k.1),
    {
        self.map.into_iter().map(|(k, v)| (Guard(k.0, k.1), v)).collect()
    }
}

impl TargetsByByte {
    /// `hashbrown::HashMap::new`: a map that holds nothing.
    #[verifier::external_body]
    fn new() -> (r: Self)
        ensures
            byte_targets(r) == no_byte_targets(),
    {
        TargetsByByte { map: hashbrown::HashMap::new() }
    }

    /// `HashMap::entry`, `or_insert` of an empty vector, then a push: the
    /// byte's targets get `t` behind them; a new byte gets `[t]`.
    #[verifier::external_body]
    fn push(&mut self, c: u8, t: usize)
        ensures
            byte_targets(*final(self)) == byte_targets(*old(self)).insert(
                c,
                held(byte_targets(*old(self)), c).push(t),
            ),
    {
        self.map.entry(c).or_insert(Vec::new()).push(t);
    }

    /// `HashMap::len`: the number of bytes that the map holds.
    #[verifier::external_body]
    fn len(&self) -> (r: usize)
        ensures
            r == byte_targets(*self).dom().len(),
    {
        self.map.len()
    }

    /// `HashMap::into_iter`, collected: each byte once with its targets, in
    /// an order that the map's hasher decides.
    #[verifier::external_body]
    fn into_pairs(self) -> (r: Vec<(u8, Vec<usize>)>)
        ensures
            r@.len() == byte_targets(self).dom().len(),
            forall|i: int|
                #![trigger r@[i]]
                0 <= i < r@.len() ==> byte_targets(self).dom().contains(r@[i].0)
                    && r@[i].1@ == byte_targets(self)[r@[i].0],
            forall|i: int, j: int| 0 <= i < j < r@.len() ==> #[trigger] r@[i].0 != #[trigger] r@[j].0,
            forall|c: u8|
                #[trigger] byte_targets(self).dom().contains(c) ==> exists|i: int|
                    0 <= i < r@.len() && #[trigger] r@[i].0 == c,
    {
        self.map.into_iter().collect()
    }
}

/// `<[T; N]>::try_from` on a vector of exactly `N` elements: the elements,
/// in order, as an array.
#[verifier::external_body]
fn vec_into_array<T, const N: usize>(v: Vec<T>) -> (r: [T; N])
    requires
        v@.len() == N,
    ensures
        r@ == v@,
{
    <[T; N]>::try_from(v).ok().unwrap()
}

proof fn lemma_take_step<A>(s: Seq<A>, j: int)
    requires
        0 <= j < s.len(),
    ensures
        s.take(j + 1).drop_last() == s.take(j),
        s.take(j + 1).last() == s[j],
        s.take(j + 1).len() == j + 1,
{
    assert(s.take(j + 1).drop_last() =~= s.take(j));
}

proof fn lemma_targets_of_has(ts: Seq<(Guard, usize)>, k: int)
    requires
        0 <= k < ts.len(),
    ensures
        targets_of(ts, ts[k].0).len() > 0,
    decreases ts.len(),
{
    if k < ts.len() - 1 {
        lemma_targets_of_has(ts.drop_last(), k);
        assert(ts.drop_last()[k] == ts[k]);
    }
}

/// Item `i` of the pairs is a byte of the map, with its targets.
spec fn pairs_ok_at(orig: Seq<(u8, Vec<usize>)>, em: Map<u8, Seq<usize>>, i: int) -> bool {
    &&& em.dom().contains(orig[i].0)
    &&& orig[i].1@ == em[orig[i].0]
    &&& em[orig[i].0].len() > 0
}

/// Item `j` of bucket `k` sits in the right bucket, is a byte of the map
/// with its targets, and comes from the pairs from `lo` on.
spec fn bucket_item_ok(
    bs: Seq<Vec<(u8, Vec<usize>)>>,
    cap: int,
    em: Map<u8, Seq<usize>>,
    orig: Seq<(u8, Vec<usize>)>,
    lo: int,
    k: int,
    j: int,
) -> bool {
    let item = bs[k]@[j];
    &&& (item.0 as int) % cap == k
    &&& em.dom().contains(item.0)
    &&& item.1@ == em[item.0]
    &&& item.1@.len() > 0
    &&& exists|x: int| lo <= x < orig.len() && orig[x].0 == item.0
}

/// Pair `x` stands in its bucket.
spec fn bucket_has(bs: Seq<Vec<(u8, Vec<usize>)>>, cap: int, orig: Seq<(u8, Vec<usize>)>, x: int) -> bool {
    exists|j: int|
        0 <= j < bs[(orig[x].0 as int) % cap]@.len() && #[trigger] bs[(orig[x].0 as int) % cap]@[j].0
            == orig[x].0
}

/// The buckets hold the pairs from `lo` on, each in its bucket, no byte twice.
spec fn buckets_inv(
    bs: Seq<Vec<(u8, Vec<usize>)>>,
    cap: int,
    em: Map<u8, Seq<usize>>,
    orig: Seq<(u8, Vec<usize>)>,
    lo: int,
) -> bool {
    &&& bs.len() == cap
    &&& forall|k: int, j: int|
        0 <= k < cap && 0 <= j < bs[k]@.len() ==> #[trigger] bucket_item_ok(bs, cap, em, orig, lo, k, j)
    &&& forall|k: int, j1: int, j2: int|
        0 <= k < cap && 0 <= j1 < j2 < bs[k]@.len() ==> #[trigger] bs[k]@[j1].0 != #[trigger] bs[k]@[j2].0
    &&& forall|x: int| lo <= x < orig.len() ==> #[trigger] bucket_has(bs, cap, orig, x)
}

proof fn lemma_bucket_push(
    bs: Seq<Vec<(u8, Vec<usize>)>>,
    bs2: Seq<Vec<(u8, Vec<usize>)>>,
    cap: int,
    em: Map<u8, Seq<usize>>,
    orig: Seq<(u8, Vec<usize>)>,
    lo: int,
)
    requires
        0 < cap,
        0 < lo <= orig.len(),
        buckets_inv(bs, cap, em, orig, lo),
        forall|i: int| 0 <= i < orig.len() ==> #[trigger] pairs_ok_at(orig, em, i),
        forall|i: int, j: int| 0 <= i < j < orig.len() ==> #[trigger] orig[i].0 != #[trigger] orig[j].0,
        bs2.len() == bs.len(),
        bs2[(orig[lo - 1].0 as int) % cap]@ == bs[(orig[lo - 1].0 as int) % cap]@.push(orig[lo - 1]),
        forall|k: int| 0 <= k < cap && k != (orig[lo - 1].0 as int) % cap ==> #[trigger] bs2[k] == bs[k],
    ensures
        buckets_inv(bs2, cap, em, orig, lo - 1),
{
    let item = orig[lo - 1];
    let bk = (item.0 as int) % cap;
    assert(pairs_ok_at(orig, em, lo - 1));
    assert forall|k: int, j: int|
        0 <= k < cap && 0 <= j < bs2[k]@.len() implies #[trigger] bucket_item_ok(bs2, cap, em, orig, lo - 1, k, j) by {
        if k == bk && j == bs[bk]@.len() {
            assert(bs2[k]@[j] == item);
            assert(orig[lo - 1].0 == item.0);
        } else {
            assert(bs2[k]@[j] == bs[k]@[j]);
            assert(bucket_item_ok(bs, cap, em, orig, lo, k, j));
        }
    }
    assert forall|k: int, j1: int, j2: int|
        0 <= k < cap && 0 <= j1 < j2 < bs2[k]@.len() implies #[trigger] bs2[k]@[j1].0 != #[trigger] bs2[k]@[j2].0 by {
        if k == bk && j2 == bs[bk]@.len() {
            let it = bs[k]@[j1];
            assert(bs2[k]@[j1] == it);
            assert(bucket_item_ok(bs, cap, em, orig, lo, k, j1));
            let x = choose|x: int| lo <= x < orig.len() && orig[x].0 == it.0;
            assert(orig[lo - 1].0 != orig[x].0);
        } else {
            assert(bs2[k]@[j1] == bs[k]@[j1]);
            assert(bs2[k]@[j2] == bs[k]@[j2]);
        }
    }
    assert forall|x: int| lo - 1 <= x < orig.len() implies #[trigger] bucket_has(bs2, cap, orig, x) by {
        let kx = (orig[x].0 as int) % cap;
        if x == lo - 1 {
            assert(bs2[kx]@[bs[bk]@.len() as int].0 == orig[x].0);
        } else {
            assert(bucket_has(bs, cap, orig, x));
            let j = choose|j: int| 0 <= j < bs[kx]@.len() && #[trigger] bs[kx]@[j].0 == orig[x].0;
            assert(bs2[kx]@[j] == bs[kx]@[j]);
        }
    }
}

fn copy_ixs(v: &Vec<usize>) -> (r: Vec<usize>)
    ensures
        r@ == v@,
{
    let mut r: Vec<usize> = Vec::new();
    let mut i: usize = 0;
    while i < v.len()
        invariant
            i <= v@.len(),
            r@ == v@.take(i as int),
        decreases v@.len() - i,
    {
        proof {
            lemma_take_step(v@, i as int);
        }
        r.push(v[i]);
        i = i + 1;
    }
    proof {
        assert(v@.take(v@.len() as int) =~= v@);
    }
    r
}

impl U8StatePrepared {
    /// Prepares a state of a byte automaton for its blob layout.
    pub fn prepare<Cfg: U8BuildConfig>(old: &State, cfg: &Cfg) -> (r: Self)
        requires
            prepare_fits(*old, *cfg),
        ensures
            prepared(*old, *cfg, r),
    {
        let ghost ts = old.transitions@;
        if old.transitions.len() < cfg.dense_guard_count() {
            let keep = cfg.guard_size_keep();
            let mut pattern0 = TargetsByGuard::new();
            let mut small: Vec<(Guard, usize)> = Vec::new();
            let mut i: usize = 0;
            while i < old.transitions.len()
                invariant
                    ts == old.transitions@,
                    i <= ts.len(),
                    small@ == small_part(ts.take(i as int), keep),
                    forall|g: Guard|
                        #[trigger] guard_targets(pattern0).dom().contains((g.0, g.1)) == (big(g, keep)
                            && targets_of(ts.take(i as int), g).len() > 0),
                    forall|g: Guard|
                        #[trigger] guard_targets(pattern0).dom().contains((g.0, g.1))
                            ==> guard_targets(pattern0)[(g.0, g.1)] == targets_of(ts.take(i as int), g),
                decreases ts.len() - i,
            {
                proof {
                    lemma_take_step(ts, i as int);
                }
                let (guard, target) = old.transitions[i];
                if guard.size() >= keep {
                    let ghost before = guard_targets(pattern0);
                    pattern0.push(guard, target);
                    proof {
                        assert forall|g: Guard|
                            #[trigger] guard_targets(pattern0).dom().contains((g.0, g.1)) == (big(
                                g,
                                keep,
                            ) && targets_of(ts.take(i + 1), g).len() > 0) by {
                            if g == guard {
                            } else {
                                assert((g.0, g.1) != (guard.0, guard.1));
                            }
                        }
                        assert forall|g: Guard|
                            #[trigger] guard_targets(pattern0).dom().contains((g.0, g.1))
                                implies guard_targets(pattern0)[(g.0, g.1)] == targets_of(
                                ts.take(i + 1),
                                g,
                            ) by {
                            if g == guard {
                            } else {
                                assert((g.0, g.1) != (guard.0, guard.1));
                            }
                        }
                    }
                } else {
                    small.push((guard, target));
                }
                i = i + 1;
            }
            proof {
                assert(ts.take(ts.len() as int) =~= ts);
            }
            let ghost sm = small@;
            let mut explicit0 = TargetsByByte::new();
            let mut c: u16 = 0;
            while c < 256
                invariant
                    sm == small@,
                    sm == small_part(ts, keep),
                    c <= 256,
                    byte_targets(explicit0).dom().finite(),
                    byte_targets(explicit0).dom().len() <= c,
                    forall|d: u8|
                        (d as int) < c ==> (#[trigger] byte_targets(explicit0).dom().contains(d)
                            == (targets_on(sm, d).len() > 0)),
                    forall|d: u8|
                        (d as int) >= c ==> !#[trigger] byte_targets(explicit0).dom().contains(d),
                    forall|d: u8|
                        #[trigger] byte_targets(explicit0).dom().contains(d) ==> byte_targets(
                            explicit0,
                        )[d] == targets_on(sm, d),
                decreases 256 - c,
            {
                let ghost outer = byte_targets(explicit0);
                let cb = c as u8;
                let mut j: usize = 0;
                while j < small.len()
                    invariant
                        sm == small@,
                        j <= sm.len(),
                        cb == c,
                        c < 256,
                        outer.dom().finite(),
                        byte_targets(explicit0).dom() =~= outer.dom() || byte_targets(explicit0).dom()
                            =~= outer.dom().insert(cb),
                        forall|d: u8| d != cb ==> #[trigger] byte_targets(explicit0).dom().contains(d)
                            == outer.dom().contains(d),
                        forall|d: u8|
                            d != cb && #[trigger] byte_targets(explicit0).dom().contains(d)
                                ==> byte_targets(explicit0)[d] == outer[d],
                        byte_targets(explicit0).dom().contains(cb) == (targets_on(sm.take(j as int), cb).len()
                            > 0),
                        byte_targets(explicit0).dom().contains(cb) ==> byte_targets(explicit0)[cb]
                            == targets_on(sm.take(j as int), cb),
                        !outer.dom().contains(cb),
                    decreases sm.len() - j,
                {
                    proof {
                        lemma_take_step(sm, j as int);
                    }
                    let (guard, target) = small[j];
                    if guard.contains(cb) {
                        explicit0.push(cb, target);
                    }
                    j = j + 1;
                }
                proof {
                    assert(sm.take(sm.len() as int) =~= sm);
                    vstd::set::axiom_set_insert_len(outer.dom(), cb);
                }
                c = c + 1;
            }
            let ghost em = byte_targets(explicit0);
            proof {
                assert(em.dom() =~= explicit_bytes(ts, keep));
            }
            let n = explicit0.len();
            let power = cfg.hashmap_cap_power_fn(n);
            proof {
                vstd::bits::lemma_usize_pow2_no_overflow(power as nat);
                vstd::bits::lemma_usize_shl_is_mul(1, power);
            }
            let cap: usize = 1usize << power;
            let mask: usize = cap - 1;
            let mut buckets: Vec<Vec<(u8, Vec<usize>)>> = Vec::new();
            let mut b: usize = 0;
            while b < cap
                invariant
                    b <= cap,
                    buckets@.len() == b,
                    forall|k: int| 0 <= k < b ==> (#[trigger] buckets@[k])@.len() == 0,
                decreases cap - b,
            {
                buckets.push(Vec::new());
                b = b + 1;
            }
            let mut pairs = explicit0.into_pairs();
            let ghost orig = pairs@;
            let ghost np = orig.len();
            proof {
                assert forall|i: int| 0 <= i < np implies #[trigger] pairs_ok_at(orig, em, i) by {
                    assert(pairs@[i] == orig[i]);
                }
                assert(orig.take(np as int) =~= orig);
            }
            while pairs.len() > 0
                invariant
                    cap == pow2(power as nat),
                    mask == cap - 1,
                    0 < cap,
                    power < usize::BITS,
                    pairs@ == orig.take(pairs@.len() as int),
                    pairs@.len() <= np,
                    np == orig.len(),
                    forall|i: int| 0 <= i < np ==> #[trigger] pairs_ok_at(orig, em, i),
                    forall|i: int, j: int| 0 <= i < j < np ==> #[trigger] orig[i].0 != #[trigger] orig[j].0,
                    buckets_inv(buckets@, cap as int, em, orig, pairs@.len() as int),
                decreases pairs@.len(),
            {
                let ghost len0 = pairs@.len();
                let ghost bs0 = buckets@;
                let item = pairs.pop().unwrap();
                proof {
                    assert(pairs@ =~= orig.take(len0 - 1));
                    assert(item == orig[len0 - 1]);
                }
                let ci = item.0 as usize;
                let bi = ci & mask;
                proof {
                    vstd::bits::lemma_usize_low_bits_mask_is_mod(ci, power as nat);
                    assert(bi == ci % cap);
                }
                buckets[bi].push(item);
                proof {
                    lemma_bucket_push(bs0, buckets@, cap as int, em, orig, len0 as int);
                }
            }
            let ghost es = buckets@;
            proof {
                assert forall|k: int, j: int|
                    0 <= k < cap && 0 <= j < es[k]@.len() implies {
                        let item = #[trigger] es[k]@[j];
                        &&& (item.0 as int) % (cap as int) == k
                        &&& item.1@ == explicit_targets(ts, keep, item.0)
                        &&& item.1@.len() > 0
                    } by {
                    assert(bucket_item_ok(es, cap as int, em, orig, 0, k, j));
                }
                assert forall|cc: u8|
                    #[trigger] explicit_targets(ts, keep, cc).len() > 0 implies exists|j: int|
                        0 <= j < es[(cc as int) % (cap as int)]@.len() && #[trigger] es[(cc as int) % (
                        cap as int)]@[j].0 == cc by {
                    assert(em.dom().contains(cc));
                    let x = choose|x: int| 0 <= x < np && #[trigger] orig[x].0 == cc;
                    assert(0 <= x < np && orig[x].0 == cc);
                    assert(bucket_has(es, cap as int, orig, x));
                }
                assert(explicit_ok(ts, keep, cap as int, es));
            }
            let pattern_trans = pattern0.into_pairs();
            proof {
                assert forall|k: int|
                    0 <= k < ts.len() && big(#[trigger] ts[k].0, keep) implies exists|i: int|
                        0 <= i < pattern_trans@.len() && #[trigger] pattern_trans@[i].0 == ts[k].0 by {
                    lemma_targets_of_has(ts, k);
                    let g = ts[k].0;
                    assert(guard_targets(pattern0).dom().contains((g.0, g.1)));
                }
                assert forall|i: int|
                    0 <= i < pattern_trans@.len() implies big(#[trigger] pattern_trans@[i].0, keep)
                        && pattern_trans@[i].1@ == targets_of(ts, pattern_trans@[i].0)
                        && pattern_trans@[i].1@.len() > 0 by {
                    let g = pattern_trans@[i].0;
                    assert(guard_targets(pattern0).dom().contains((g.0, g.1)));
                }
            }
            U8StatePrepared::Sparse(
                U8SparseStatePrepared {
                    tags: copy_ixs(&old.tags.0),
                    pattern_trans,
                    explicit_trans: buckets,
                },
            )
        } else {
            let mut trans: Vec<Vec<usize>> = Vec::new();
            let mut c: u16 = 0;
            while c < 256
                invariant
                    ts == old.transitions@,
                    c <= 256,
                    trans@.len() == c,
                    forall|d: int| 0 <= d < c ==> (#[trigger] trans@[d])@ == targets_on(ts, d as u8),
                decreases 256 - c,
            {
                let cb = c as u8;
                let mut targets: Vec<usize> = Vec::new();
                let mut j: usize = 0;
                while j < old.transitions.len()
                    invariant
                        ts == old.transitions@,
                        j <= ts.len(),
                        targets@ == targets_on(ts.take(j as int), cb),
                    decreases ts.len() - j,
                {
                    proof {
                        lemma_take_step(ts, j as int);
                    }
                    let (guard, target) = old.transitions[j];
                    if guard.contains(cb) {
                        targets.push(target);
                    }
                    j = j + 1;
                }
                proof {
                    assert(ts.take(ts.len() as int) =~= ts);
                }
                trans.push(targets);
                c = c + 1;
            }
            let arr: [Vec<usize>; 256] = vec_into_array(trans);
            proof {
                assert forall|cc: u8| (#[trigger] arr@[cc as int])@ == targets_on(ts, cc) by {
                    assert(arr@[cc as int] == trans@[cc as int]);
                }
            }
            U8StatePrepared::Dense(U8DenseStatePrepared { tags: copy_ixs(&old.tags.0), trans: arr })
        }
    }
}

} // verus!

verus! {

/// Whether byte `c` leads to state `t` in the transitions `ts`.
pub open spec fn reaches(ts: Seq<(Guard, usize)>, c: u8, t: usize) -> bool {
    exists|k: int| 0 <= k < ts.len() && guard_has(#[trigger] ts[k].0, c) && ts[k].1 == t
}

/// Whether byte `c` leads to state `t` in a prepared state: through a table
/// entry, a guard that holds `c`, or the byte transitions of `c`.
pub open spec fn prepared_reaches(r: U8StatePrepared, c: u8, t: usize) -> bool {
    match r {
        U8StatePrepared::Dense(d) => d.trans@[c as int]@.contains(t),
        U8StatePrepared::Sparse(s) => {
            let cap = s.explicit_trans@.len() as int;
            let bucket = s.explicit_trans@[(c as int) % cap]@;
            ||| exists|i: int|
                0 <= i < s.pattern_trans@.len() && guard_has(#[trigger] s.pattern_trans@[i].0, c)
                    && s.pattern_trans@[i].1@.contains(t)
            ||| exists|j: int| 0 <= j < bucket.len() && #[trigger] bucket[j].0 == c && bucket[j].1@.contains(t)
        },
    }
}

proof fn lemma_targets_on_contains(ts: Seq<(Guard, usize)>, c: u8, t: usize)
    ensures
        targets_on(ts, c).contains(t) <==> reaches(ts, c, t),
    decreases ts.len(),
{
    if ts.len() > 0 {
        let rest = ts.drop_last();
        let tr = targets_on(rest, c);
        let tt = targets_on(ts, c);
        lemma_targets_on_contains(rest, c, t);
        assert(forall|i: int| 0 <= i < tr.len() ==> tt[i] == tr[i]);
        if reaches(ts, c, t) {
            let k = choose|k: int| 0 <= k < ts.len() && guard_has(#[trigger] ts[k].0, c) && ts[k].1 == t;
            if k < ts.len() - 1 {
                assert(rest[k] == ts[k]);
                assert(guard_has(rest[k].0, c));
                assert(reaches(rest, c, t));
                let i = choose|i: int| 0 <= i < tr.len() && tr[i] == t;
                assert(tt[i] == t);
            } else {
                assert(tt[tt.len() - 1] == t);
            }
        }
        if tt.contains(t) {
            let i = choose|i: int| 0 <= i < tt.len() && tt[i] == t;
            if i < tr.len() {
                assert(tr[i] == t);
                assert(tr.contains(t));
                let k = choose|k: int| 0 <= k < rest.len() && guard_has(#[trigger] rest[k].0, c) && rest[k].1 == t;
                assert(ts[k] == rest[k]);
                assert(guard_has(ts[k].0, c));
            } else {
                assert(guard_has(ts[ts.len() - 1].0, c));
            }
        }
    }
}

proof fn lemma_targets_of_contains(ts: Seq<(Guard, usize)>, g: Guard, t: usize)
    ensures
        targets_of(ts, g).contains(t) <==> exists|k: int| 0 <= k < ts.len() && #[trigger] ts[k].0 == g && ts[k].1 == t,
    decreases ts.len(),
{
    if ts.len() > 0 {
        let rest = ts.drop_last();
        let tr = targets_of(rest, g);
        let tt = targets_of(ts, g);
        lemma_targets_of_contains(rest, g, t);
        assert(forall|i: int| 0 <= i < tr.len() ==> tt[i] == tr[i]);
        if exists|k: int| 0 <= k < ts.len() && #[trigger] ts[k].0 == g && ts[k].1 == t {
            let k = choose|k: int| 0 <= k < ts.len() && #[trigger] ts[k].0 == g && ts[k].1 == t;
            if k < ts.len() - 1 {
                assert(rest[k] == ts[k]);
                assert(rest[k].0 == g);
                let i = choose|i: int| 0 <= i < tr.len() && tr[i] == t;
                assert(tt[i] == t);
            } else {
                assert(tt[tt.len() - 1] == t);
            }
        }
        if tt.contains(t) {
            let i = choose|i: int| 0 <= i < tt.len() && tt[i] == t;
            if i < tr.len() {
                assert(tr[i] == t);
                assert(tr.contains(t));
                let k = choose|k: int| 0 <= k < rest.len() && #[trigger] rest[k].0 == g && rest[k].1 == t;
                assert(ts[k] == rest[k]);
                assert(ts[k].0 == g);
            } else {
                assert(ts[ts.len() - 1].0 == g);
            }
        }
    }
}

proof fn lemma_small_part_reaches(ts: Seq<(Guard, usize)>, keep: u32, c: u8, t: usize)
    ensures
        reaches(small_part(ts, keep), c, t) <==> exists|k: int|
            0 <= k < ts.len() && guard_has(#[trigger] ts[k].0, c) && ts[k].1 == t && !big(ts[k].0, keep),
    decreases ts.len(),
{
    if ts.len() > 0 {
        let rest = ts.drop_last();
        let sp = small_part(ts, keep);
        let sr = small_part(rest, keep);
        lemma_small_part_reaches(rest, keep, c, t);
        if exists|k: int| 0 <= k < ts.len() && guard_has(#[trigger] ts[k].0, c) && ts[k].1 == t && !big(ts[k].0, keep) {
            let k = choose|k: int|
                0 <= k < ts.len() && guard_has(#[trigger] ts[k].0, c) && ts[k].1 == t && !big(ts[k].0, keep);
            if k < ts.len() - 1 {
                assert(rest[k] == ts[k]);
                let j = choose|j: int| 0 <= j < sr.len() && guard_has(#[trigger] sr[j].0, c) && sr[j].1 == t;
                assert(sp[j] == sr[j]);
            } else {
                assert(sp[sp.len() - 1] == ts.last());
            }
        }
        if reaches(sp, c, t) {
            let j = choose|j: int| 0 <= j < sp.len() && guard_has(#[trigger] sp[j].0, c) && sp[j].1 == t;
            if j < sr.len() {
                assert(sr[j] == sp[j]);
                let k = choose|k: int|
                    0 <= k < rest.len() && guard_has(#[trigger] rest[k].0, c) && rest[k].1 == t && !big(rest[k].0, keep);
                assert(ts[k] == rest[k]);
            } else {
                assert(ts[ts.len() - 1] == ts.last());
            }
        }
    }
}

/// A byte leads from a prepared state to exactly the states that it leads
/// to from the state it was prepared from.
pub proof fn lemma_prepare_reaches<Cfg: U8BuildConfig>(old: State, cfg: Cfg, r: U8StatePrepared, c: u8, t: usize)
    requires
        prepared(old, cfg, r),
    ensures
        prepared_reaches(r, c, t) <==> reaches(old.transitions@, c, t),
{
    let ts = old.transitions@;
    let keep = cfg.spec_guard_size_keep();
    lemma_targets_on_contains(ts, c, t);
    match r {
        U8StatePrepared::Dense(d) => {
            assert(d.trans@[c as int]@ == targets_on(ts, c));
        },
        U8StatePrepared::Sparse(s) => {
            let p = s.pattern_trans@;
            let e = s.explicit_trans@;
            let n = explicit_bytes(ts, keep).len();
            let cap = pow2(cfg.spec_hashmap_cap_power(n as usize) as nat) as int;
            assert(e.len() == cap);
            vstd::arithmetic::power2::lemma_pow2_pos(cfg.spec_hashmap_cap_power(n as usize) as nat);
            let b = (c as int) % cap;
            let bucket = e[b]@;
            lemma_small_part_reaches(ts, keep, c, t);
            lemma_targets_on_contains(small_part(ts, keep), c, t);
            if reaches(ts, c, t) {
                let k = choose|k: int| 0 <= k < ts.len() && guard_has(#[trigger] ts[k].0, c) && ts[k].1 == t;
                if big(ts[k].0, keep) {
                    let i = choose|i: int| 0 <= i < p.len() && #[trigger] p[i].0 == ts[k].0;
                    lemma_targets_of_contains(ts, p[i].0, t);
                    assert(guard_has(p[i].0, c) && p[i].1@.contains(t));
                } else {
                    assert(explicit_targets(ts, keep, c).contains(t));
                    assert(explicit_targets(ts, keep, c).len() > 0);
                    let j = choose|j: int| 0 <= j < e[(c as int) % cap]@.len() && #[trigger] e[(c as int) % cap]@[j].0 == c;
                    assert(bucket[j].1@ == explicit_targets(ts, keep, c));
                }
            }
            if prepared_reaches(r, c, t) {
                if exists|i: int|
                    0 <= i < p.len() && guard_has(#[trigger] p[i].0, c) && p[i].1@.contains(t) {
                    let i = choose|i: int| 0 <= i < p.len() && guard_has(#[trigger] p[i].0, c) && p[i].1@.contains(t);
                    lemma_targets_of_contains(ts, p[i].0, t);
                    let k = choose|k: int| 0 <= k < ts.len() && #[trigger] ts[k].0 == p[i].0 && ts[k].1 == t;
                    assert(guard_has(ts[k].0, c));
                } else {
                    let j = choose|j: int| 0 <= j < bucket.len() && #[trigger] bucket[j].0 == c && bucket[j].1@.contains(t);
                    assert(bucket[j].1@ == explicit_targets(ts, keep, c));
                }
            }
        },
    }
}

} // verus!
