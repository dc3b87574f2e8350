//! AnchaListMap: a linked list of keys, each with the position of its value.
//!
//! Layout: the nodes `[next: usize][val: usize][padding][key]` one after
//! another, each aligned for the list, then the values one after another.
//! The link of the last node is 0.
use core::marker::PhantomData;
use vstd::prelude::*;

use super::assoc_list::{assoc_next, opt_usize};
use super::{
    anchize_seq, cell_at, deanchize_seq, from_base, lemma_align_up, lemma_cell_from_base,
    lemma_seq_end, lemma_seq_walk, lemma_unchanged_cell, lemma_write_cell, max_blob, seq_at,
    seq_end, seq_holds, seq_walk, spec_align_up, spec_max, unchanged_outside, Anchize, BuildCursor,
    Cell, Deanchize, Layout, Matches, Reserve, SecondAnchize, StaticAnchize, StaticDeanchize,
};

verus! {

/// Alignment of the nodes of a list map with keys `K`.
pub open spec fn lm_align<K: Layout>() -> nat {
    spec_max(8, K::spec_align())
}

/// Offset of the key inside a node.
pub open spec fn lm_koff<K: Layout>() -> int {
    spec_align_up(16, K::spec_align() as int)
}

/// Distance from one node to the next.
pub open spec fn lm_stride<K: Layout>() -> int {
    spec_align_up(lm_koff::<K>() + K::spec_size(), lm_align::<K>() as int)
}

/// Position of node `i` of the list map at `at`.
pub open spec fn lm_node<K: Layout>(at: int, i: int) -> int {
    at + i * lm_stride::<K>()
}

pub proof fn lemma_lm_stride<K: Layout>()
    ensures
        16 <= lm_koff::<K>() < 32,
        lm_koff::<K>() + K::spec_size() <= lm_stride::<K>() <= lm_koff::<K>() + K::spec_size() + 16,
        16 <= lm_stride::<K>() <= 0x1100,
        valid_lm_align::<K>(),
{
    K::lemma_layout();
    lemma_align_up(16, K::spec_align() as int);
    lemma_align_up(lm_koff::<K>() + K::spec_size(), lm_align::<K>() as int);
}

pub open spec fn valid_lm_align<K: Layout>() -> bool {
    super::valid_align(lm_align::<K>())
}

/// Nodes follow one another without overlap.
pub proof fn lemma_lm_node<K: Layout>(at: int, j: int, i: int)
    requires
        0 <= j <= i,
    ensures
        lm_node::<K>(at, j + 1) == lm_node::<K>(at, j) + lm_stride::<K>(),
        j < i ==> lm_node::<K>(at, j) + lm_stride::<K>() <= lm_node::<K>(at, i),
        lm_node::<K>(at, j) <= lm_node::<K>(at, i),
        lm_node::<K>(at, 0) == at,
{
    lemma_lm_stride::<K>();
    let s = lm_stride::<K>();
    assert((j + 1) * s == j * s + s) by (nonlinear_arith);
    assert(j < i ==> j * s + s <= i * s) by (nonlinear_arith)
        requires
            s >= 0,
            j <= i,
    ;
    assert(j * s <= i * s) by (nonlinear_arith)
        requires
            s >= 0,
            j <= i,
    ;
    assert(0 * s == 0);
}

/// An item of a list map: the position of its value and its key.
pub struct ListMapItem<K, V> {
    pub val: usize,
    pub key: K,
    pub _phantom: PhantomData<V>,
}

/// A list map in a blob.
pub struct AnchaListMap<'a, K, V> {
    pub blob: &'a [u8],
    /// Position of the first node.
    pub at: usize,
    pub _phantom: PhantomData<(K, V)>,
}

/// The fixed-size head of a list map is the link of its first node, padded
/// to the node's alignment.
impl<'a, K: Layout, V> Layout for AnchaListMap<'a, K, V> {
    open spec fn spec_size() -> nat {
        lm_align::<K>()
    }

    open spec fn spec_align() -> nat {
        lm_align::<K>()
    }

    fn size() -> (r: usize) {
        proof {
            K::lemma_layout();
        }
        if K::align() >= 8 { K::align() } else { 8 }
    }

    fn align() -> (r: usize) {
        proof {
            K::lemma_layout();
        }
        if K::align() >= 8 { K::align() } else { 8 }
    }

    proof fn lemma_layout() {
        K::lemma_layout();
        let a = lm_align::<K>() as int;
        assert(a % a == 0) by (nonlinear_arith)
            requires
                a > 0,
        ;
    }
}

fn lm_koff_exec<K: Layout>() -> (r: usize)
    ensures
        r == lm_koff::<K>(),
{
    proof {
        K::lemma_layout();
    }
    super::align_up(16, K::align())
}

fn lm_stride_exec<K: Layout>() -> (r: usize)
    ensures
        r == lm_stride::<K>(),
{
    proof {
        lemma_lm_stride::<K>();
        K::lemma_layout();
    }
    let la = if K::align() >= 8 { K::align() } else { 8 };
    super::align_up(lm_koff_exec::<K>() + K::size(), la)
}

/// Searching the nodes from the node at `cur` on: the key and the value
/// position of the first node whose key `x` matches, and the node after it.
pub open spec fn lm_scan<K: Cell, X: Matches<K>>(
    x: X,
    bytes: Seq<u8>,
    cur: int,
) -> Option<(K, int, Option<int>)>
    decreases bytes.len() - cur,
{
    if cur < 0 || cur + lm_koff::<K>() + K::spec_size() > bytes.len() {
        None
    } else {
        let key = cell_at::<K>(bytes, cur + lm_koff::<K>());
        if x.spec_matches(key) {
            Some((key, cell_at::<usize>(bytes, cur + 8) as int, assoc_next(bytes, cur)))
        } else {
            match assoc_next(bytes, cur) {
                Some(n) => lm_scan::<K, X>(x, bytes, n),
                None => None,
            }
        }
    }
}

impl<'a, K: Cell, V> AnchaListMap<'a, K, V> {
    /// The list map whose first node is at `at` of `blob`.
    pub fn from_blob(blob: &'a [u8], at: usize) -> (r: Self)
        ensures
            r.blob@ == blob@,
            r.at == at,
    {
        AnchaListMap { blob, at, _phantom: PhantomData }
    }

    /// Iterator over the items whose key `key` matches.
    pub fn iter_matches<'b, X: Matches<K>>(&self, key: &'b X) -> (r: ListMapIter<'a, 'b, X, K, V>)
        ensures
            r.x == key,
            r.blob@ == self.blob@,
            r.current == Some(self.at),
    {
        ListMapIter { x: key, blob: self.blob, current: Some(self.at), _phantom: PhantomData }
    }
}

/// Iterator over the items of a list map whose key matches.
pub struct ListMapIter<'a, 'b, X, K, V> {
    pub x: &'b X,
    pub blob: &'a [u8],
    pub current: Option<usize>,
    pub _phantom: PhantomData<(K, V)>,
}

impl<'a, 'b, X: Matches<K>, K: Cell, V> ListMapIter<'a, 'b, X, K, V> {
    /// The next matching item.
    pub fn next(&mut self) -> (r: Option<ListMapItem<K, V>>)
        requires
            old(self).blob@.len() <= max_blob(),
        ensures
            final(self).x == old(self).x,
            final(self).blob@ == old(self).blob@,
            match old(self).current {
                None => r is None && final(self).current is None,
                Some(c) => match lm_scan::<K, X>(*old(self).x, old(self).blob@, c as int) {
                    None => r is None && final(self).current is None,
                    Some(found) => {
                        &&& r is Some
                        &&& r->0.key == found.0
                        &&& r->0.val == found.1
                        &&& final(self).current == opt_usize(found.2)
                    },
                },
            },
    {
        let c0 = match self.current {
            None => {
                return None;
            },
            Some(c) => c,
        };
        let ghost goal = lm_scan::<K, X>(*self.x, self.blob@, c0 as int);
        let len = self.blob.len();
        let koff = lm_koff_exec::<K>();
        proof {
            lemma_lm_stride::<K>();
            K::lemma_layout();
        }
        let mut cur = c0;
        loop
            invariant
                len == self.blob@.len(),
                len <= max_blob(),
                koff == lm_koff::<K>(),
                16 <= koff < 32,
                K::spec_size() <= 0x1000,
                goal == lm_scan::<K, X>(*self.x, self.blob@, c0 as int),
                lm_scan::<K, X>(*self.x, self.blob@, cur as int) == goal,
                self.x == old(self).x,
                self.blob == old(self).blob,
                old(self).current == Some(c0),
            decreases len - cur,
        {
            if !(cur <= len && koff + K::size() <= len - cur) {
                self.current = None;
                return None;
            }
            let key = K::read_cell(self.blob, cur + koff);
            let val = usize::read_cell(self.blob, cur + 8);
            let link = usize::read_cell(self.blob, cur);
            let has_next = cur < link && link < len && 8 <= len - link;
            if self.x.matches(&key) {
                self.current = if has_next {
                    Some(link)
                } else {
                    None
                };
                return Some(ListMapItem { val, key, _phantom: PhantomData });
            }
            if !has_next {
                self.current = None;
                return None;
            }
            cur = link;
        }
    }
}


/// Anchization of a `Vec` of key-value pairs into an `AnchaListMap`.
pub struct ListMapAnchizeFromVec<KeyAnchize, ValueAnchize> {
    pub key_ancha: KeyAnchize,
    pub value_ancha: ValueAnchize,
}

impl<KeyAnchize, ValueAnchize> ListMapAnchizeFromVec<KeyAnchize, ValueAnchize> {
    pub fn new(key_ancha: KeyAnchize, value_ancha: ValueAnchize) -> (r: Self)
        ensures
            r.key_ancha == key_ancha,
            r.value_ancha == value_ancha,
    {
        ListMapAnchizeFromVec { key_ancha, value_ancha }
    }
}

impl<KeyAnchize: Default, ValueAnchize: Default> Default for ListMapAnchizeFromVec<
    KeyAnchize,
    ValueAnchize,
> {
    fn default() -> Self {
        ListMapAnchizeFromVec { key_ancha: KeyAnchize::default(), value_ancha: ValueAnchize::default() }
    }
}

/// Node `i` of a list map holds its link, the position of its value and its key.
pub open spec fn lm_item_holds<KA: StaticAnchize, VA: Anchize<Context = KA::Context>>(
    ka: KA,
    va: VA,
    os: Seq<(KA::Origin, VA::Origin)>,
    ctx: KA::Context,
    bytes: Seq<u8>,
    at: int,
    i: int,
) -> bool {
    let node = lm_node::<KA::Ancha>(at, i);
    let vstart = lm_node::<KA::Ancha>(at, os.len() as int);
    &&& cell_at::<usize>(bytes, node) == (if i + 1 == os.len() {
        0
    } else {
        lm_node::<KA::Ancha>(at, i + 1)
    })
    &&& cell_at::<usize>(bytes, node + 8) == seq_at(
        SecondAnchize::<KA::Origin, VA> { value: &va, key: None },
        os,
        vstart,
        i,
    )
    &&& cell_at::<KA::Ancha>(bytes, node + lm_koff::<KA::Ancha>()) == ka.spec_anchize_static(
        os[i].0,
        ctx,
    )
}

impl<KeyAnchize: StaticAnchize, ValueAnchize: Anchize<Context = KeyAnchize::Context>> Anchize for ListMapAnchizeFromVec<
    KeyAnchize,
    ValueAnchize,
> {
    type Origin = Vec<(KeyAnchize::Origin, ValueAnchize::Origin)>;

    type Context = KeyAnchize::Context;

    type Ancha = AnchaListMap<'static, KeyAnchize::Ancha, ValueAnchize::Ancha>;

    open spec fn spec_accepts(&self, origin: Self::Origin, context: Self::Context) -> bool {
        forall|i: int|
            0 <= i < origin@.len() ==> self.key_ancha.spec_accepts(#[trigger] origin@[i].0, context)
                && self.value_ancha.spec_accepts(origin@[i].1, context)
    }

    open spec fn spec_end(&self, origin: Self::Origin, pos: int) -> int {
        seq_end(
            SecondAnchize::<KeyAnchize::Origin, ValueAnchize> { value: &self.value_ancha, key: None },
            origin@,
            lm_node::<KeyAnchize::Ancha>(
                spec_align_up(pos, lm_align::<KeyAnchize::Ancha>() as int),
                origin@.len() as int,
            ),
        )
    }

    open spec fn spec_holds(
        &self,
        origin: Self::Origin,
        context: Self::Context,
        bytes: Seq<u8>,
        pos: int,
    ) -> bool {
        let at = spec_align_up(pos, lm_align::<KeyAnchize::Ancha>() as int);
        let vstart = lm_node::<KeyAnchize::Ancha>(at, origin@.len() as int);
        &&& self.spec_end(origin, pos) <= bytes.len()
        &&& seq_holds(
            SecondAnchize::<KeyAnchize::Origin, ValueAnchize> { value: &self.value_ancha, key: None },
            origin@,
            context,
            bytes,
            vstart,
        )
        &&& forall|i: int|
            0 <= i < origin@.len() ==> #[trigger] lm_item_holds(
                self.key_ancha,
                self.value_ancha,
                origin@,
                context,
                bytes,
                at,
                i,
            )
    }

    proof fn lemma_align_start(
        &self,
        origin: Self::Origin,
        context: Self::Context,
        bytes: Seq<u8>,
        pos: int,
    ) {
        lemma_lm_stride::<KeyAnchize::Ancha>();
        super::lemma_align_idem(pos, lm_align::<KeyAnchize::Ancha>() as int);
    }

    proof fn lemma_end(&self, origin: Self::Origin, pos: int) {
        lemma_lm_bounds(self, origin, pos);
    }

    proof fn lemma_frame(
        &self,
        origin: Self::Origin,
        context: Self::Context,
        b1: Seq<u8>,
        b2: Seq<u8>,
        pos: int,
    ) {
        let at = spec_align_up(pos, lm_align::<KeyAnchize::Ancha>() as int);
        let n = origin@.len() as int;
        let vstart = lm_node::<KeyAnchize::Ancha>(at, n);
        let end = self.spec_end(origin, pos);
        let snd = SecondAnchize::<KeyAnchize::Origin, ValueAnchize> { value: &self.value_ancha, key: None };
        lemma_lm_bounds(self, origin, pos);
        lemma_lm_stride::<KeyAnchize::Ancha>();
        super::lemma_subrange_within(b1, b2, pos, end, vstart, end);
        super::lemma_seq_frame(snd, origin@, context, b1, b2, vstart);
        assert forall|i: int| 0 <= i < n implies #[trigger] lm_item_holds(
            self.key_ancha,
            self.value_ancha,
            origin@,
            context,
            b2,
            at,
            i,
        ) by {
            assert(lm_item_holds(self.key_ancha, self.value_ancha, origin@, context, b1, at, i));
            lemma_lm_node::<KeyAnchize::Ancha>(at, i, n);
            let node = lm_node::<KeyAnchize::Ancha>(at, i);
            let ko = node + lm_koff::<KeyAnchize::Ancha>();
            super::lemma_subrange_within(b1, b2, pos, end, node, node + 8);
            super::lemma_subrange_within(b1, b2, pos, end, node + 8, node + 16);
            super::lemma_subrange_within(b1, b2, pos, end, ko, ko + KeyAnchize::Ancha::spec_size());
            assert(cell_at::<usize>(b1, node) == cell_at::<usize>(b2, node));
            assert(cell_at::<usize>(b1, node + 8) == cell_at::<usize>(b2, node + 8));
            assert(cell_at::<KeyAnchize::Ancha>(b1, ko) == cell_at::<KeyAnchize::Ancha>(b2, ko));
        }
    }

    fn reserve(&self, origin: &Self::Origin, context: &Self::Context, sz: &mut Reserve) {
        let ghost pos = old(sz).0 as int;
        let ghost os = origin@;
        let ghost at = spec_align_up(pos, lm_align::<KeyAnchize::Ancha>() as int);
        let ghost n = os.len() as int;
        let ghost vstart = lm_node::<KeyAnchize::Ancha>(at, n);
        let ghost snd = SecondAnchize::<KeyAnchize::Origin, ValueAnchize> { value: &self.value_ancha, key: None };
        proof {
            lemma_lm_bounds(self, *origin, pos);
            lemma_seq_end(snd, os, vstart, n);
        }
        sz.add::<Self::Ancha>(0);
        let stride = lm_stride_exec::<KeyAnchize::Ancha>();
        proof {
            lemma_lm_node::<KeyAnchize::Ancha>(at, n, n);
            assert(at + n * stride == vstart);
        }
        sz.0 = sz.0 + origin.len() * stride;
        let vals = SecondAnchize::<KeyAnchize::Origin, ValueAnchize> { value: &self.value_ancha, key: None };
        let mut i: usize = 0;
        while i < origin.len()
            invariant
                os == origin@,
                vals == snd,
                n == os.len(),
                0 <= vstart,
                0 <= i <= n,
                sz.0 == seq_end(snd, os.take(i as int), vstart),
                seq_end(snd, os, vstart) <= max_blob(),
            decreases n - i,
        {
            proof {
                lemma_seq_end(snd, os, vstart, i + 1);
                super::lemma_seq_push(snd, os.take(i as int), os[i as int], vstart);
                assert(os.take(i as int).push(os[i as int]) =~= os.take(i + 1));
                assert(os.take(n) =~= os);
            }
            vals.reserve(&origin[i], context, sz);
            i = i + 1;
        }
        proof {
            assert(os.take(n) =~= os);
        }
    }

    fn anchize<After>(
        &self,
        origin: &Self::Origin,
        context: &Self::Context,
        buf: &mut Vec<u8>,
        cur: BuildCursor<Self::Ancha>,
    ) -> (r: BuildCursor<After>) {
        let ghost pos = cur.cur as int;
        let ghost base = cur.buf as int;
        let ghost os = origin@;
        let ghost at = spec_align_up(pos, lm_align::<KeyAnchize::Ancha>() as int);
        let ghost n = os.len() as int;
        let ghost vstart = lm_node::<KeyAnchize::Ancha>(at, n);
        let ghost snd = SecondAnchize::<KeyAnchize::Origin, ValueAnchize> { value: &self.value_ancha, key: None };
        proof {
            lemma_lm_bounds(self, *origin, pos);
            lemma_lm_node::<KeyAnchize::Ancha>(at, n, n);
        }
        let cur: BuildCursor<Self::Ancha> = cur.align();
        let stride = lm_stride_exec::<KeyAnchize::Ancha>();
        let koff = lm_koff_exec::<KeyAnchize::Ancha>();
        let len = origin.len();
        let vcur: BuildCursor<ValueAnchize::Ancha> = BuildCursor {
            cur: cur.cur + len * stride,
            buf: cur.buf,
            _phantom: PhantomData,
        };
        let vals = SecondAnchize::<KeyAnchize::Origin, ValueAnchize> { value: &self.value_ancha, key: None };
        proof {
            assert forall|i: int| 0 <= i < os.len() implies vals.spec_accepts(#[trigger] os[i], *context) by {
                assert(self.key_ancha.spec_accepts(os[i].0, *context));
            }
        }
        let (vend, ats) = anchize_seq(&vals, origin.as_slice(), context, buf, vcur);
        let ghost b1 = buf@;
        proof {
            lemma_lm_stride::<KeyAnchize::Ancha>();
        }
        let mut i: usize = 0;
        while i < len
            invariant
                os == origin@,
                snd == (SecondAnchize::<KeyAnchize::Origin, ValueAnchize> { value: &self.value_ancha, key: None }),
                n == len,
                len == os.len(),
                0 <= base,
                0 <= pos <= at,
                cur.cur == at,
                cur.buf == base,
                stride == lm_stride::<KeyAnchize::Ancha>(),
                koff == lm_koff::<KeyAnchize::Ancha>(),
                16 <= koff < 32,
                koff + KeyAnchize::Ancha::spec_size() <= stride,
                vstart == lm_node::<KeyAnchize::Ancha>(at, n),
                vstart <= seq_end(snd, os, vstart),
                0 <= i <= len,
                ats@.len() == len,
                forall|j: int| 0 <= j < len ==> ats@[j] == seq_at(snd, os, vstart, j),
                buf@.len() == old(buf)@.len(),
                old(buf)@.len() <= max_blob(),
                base + seq_end(snd, os, vstart) <= buf@.len(),
                self.spec_accepts(*origin, *context),
                unchanged_outside(b1, buf@, base + at, base + lm_node::<KeyAnchize::Ancha>(at, i as int)),
                forall|j: int|
                    0 <= j < i ==> #[trigger] lm_item_holds(
                        self.key_ancha,
                        self.value_ancha,
                        os,
                        *context,
                        from_base(buf@, base),
                        at,
                        j,
                    ),
            decreases len - i,
        {
            let ghost b0 = buf@;
            let ghost node = lm_node::<KeyAnchize::Ancha>(at, i as int);
            proof {
                lemma_lm_node::<KeyAnchize::Ancha>(at, i as int, n);
                lemma_lm_node::<KeyAnchize::Ancha>(at, i + 1, n);
                assert(self.key_ancha.spec_accepts(os[i as int].0, *context));
            }
            let p = cur.cur + i * stride;
            let link: usize = if i + 1 == len { 0 } else { p + stride };
            link.write_cell(buf, cur.buf + p);
            let ghost bl = buf@;
            ats[i].write_cell(buf, cur.buf + p + 8);
            let ghost bv = buf@;
            let mut k = KeyAnchize::Ancha::read_cell(buf.as_slice(), cur.buf + p + koff);
            self.key_ancha.anchize_static(&origin[i].0, context, &mut k);
            k.write_cell(buf, cur.buf + p + koff);
            proof {
                let fb = from_base(buf@, base);
                lemma_write_cell::<usize>(b0, bl, base + node, link);
                lemma_write_cell::<usize>(bl, bv, base + node + 8, ats@[i as int]);
                lemma_write_cell::<KeyAnchize::Ancha>(bv, buf@, base + node + koff, k);
                lemma_unchanged_cell::<usize>(bl, bv, base + node + 8, base + node + 16, base + node);
                lemma_unchanged_cell::<usize>(bv, buf@, base + node + koff, base + node + koff + KeyAnchize::Ancha::spec_size(), base + node);
                lemma_unchanged_cell::<usize>(bv, buf@, base + node + koff, base + node + koff + KeyAnchize::Ancha::spec_size(), base + node + 8);
                lemma_cell_from_base::<usize>(buf@, base, node);
                lemma_cell_from_base::<usize>(buf@, base, node + 8);
                lemma_cell_from_base::<KeyAnchize::Ancha>(buf@, base, node + koff);
                assert(unchanged_outside(b0, buf@, base + node, base + node + stride));
                super::lemma_from_base_unchanged(b0, buf@, base, node, node + stride);
                assert(lm_item_holds(self.key_ancha, self.value_ancha, os, *context, fb, at, i as int));
                assert forall|j: int| 0 <= j < i + 1 implies #[trigger] lm_item_holds(
                    self.key_ancha,
                    self.value_ancha,
                    os,
                    *context,
                    fb,
                    at,
                    j,
                ) by {
                    if j < i {
                        let fb0 = from_base(b0, base);
                        assert(lm_item_holds(self.key_ancha, self.value_ancha, os, *context, fb0, at, j));
                        lemma_lm_node::<KeyAnchize::Ancha>(at, j, i as int);
                        let nj = lm_node::<KeyAnchize::Ancha>(at, j);
                        lemma_unchanged_cell::<usize>(fb0, fb, node, node + stride, nj);
                        lemma_unchanged_cell::<usize>(fb0, fb, node, node + stride, nj + 8);
                        lemma_unchanged_cell::<KeyAnchize::Ancha>(fb0, fb, node, node + stride, nj + koff);
                    }
                }
            }
            i = i + 1;
        }
        proof {
            let fb1 = from_base(b1, base);
            let fb2 = from_base(buf@, base);
            let end = seq_end(snd, os, vstart);
            super::lemma_from_base_unchanged(b1, buf@, base, at, vstart);
            super::lemma_unchanged_subrange(fb1, fb2, at, vstart, vstart, end);
            super::lemma_seq_frame(snd, os, *context, fb1, fb2, vstart);
        }
        vend.transmute()
    }
}

/// Where the parts of a list map laid out from `pos` on lie.
pub proof fn lemma_lm_bounds<KA: StaticAnchize, VA: Anchize<Context = KA::Context>>(
    lm: &ListMapAnchizeFromVec<KA, VA>,
    origin: Vec<(KA::Origin, VA::Origin)>,
    pos: int,
)
    requires
        0 <= pos,
    ensures
        pos <= spec_align_up(pos, lm_align::<KA::Ancha>() as int) < pos + 16,
        spec_align_up(pos, lm_align::<KA::Ancha>() as int) <= lm_node::<KA::Ancha>(
            spec_align_up(pos, lm_align::<KA::Ancha>() as int),
            origin@.len() as int,
        ),
        lm_node::<KA::Ancha>(spec_align_up(pos, lm_align::<KA::Ancha>() as int), origin@.len() as int)
            <= lm.spec_end(origin, pos),
        origin@.take(0) == Seq::<(KA::Origin, VA::Origin)>::empty(),
        origin@.take(origin@.len() as int) == origin@,
{
    lemma_lm_stride::<KA::Ancha>();
    let at = spec_align_up(pos, lm_align::<KA::Ancha>() as int);
    lemma_align_up(pos, lm_align::<KA::Ancha>() as int);
    let n = origin@.len() as int;
    lemma_lm_node::<KA::Ancha>(at, 0, n);
    let vstart = lm_node::<KA::Ancha>(at, n);
    let snd = SecondAnchize::<KA::Origin, VA> { value: &lm.value_ancha, key: None };
    lemma_seq_end(snd, origin@, vstart, 0);
    assert(origin@.take(0) =~= Seq::<(KA::Origin, VA::Origin)>::empty());
    assert(origin@.take(n) =~= origin@);
}


/// Deanchization of an `AnchaListMap`.
pub struct ListMapDeanchize<KeyDeanchize, ValueDeanchize> {
    pub key_deancha: KeyDeanchize,
    pub value_deancha: ValueDeanchize,
}

impl<KeyDeanchize, ValueDeanchize> ListMapDeanchize<KeyDeanchize, ValueDeanchize> {
    pub fn new(key_deancha: KeyDeanchize, value_deancha: ValueDeanchize) -> (r: Self)
        ensures
            r.key_deancha == key_deancha,
            r.value_deancha == value_deancha,
    {
        ListMapDeanchize { key_deancha, value_deancha }
    }
}

impl<KeyDeanchize: Default, ValueDeanchize: Default> Default for ListMapDeanchize<
    KeyDeanchize,
    ValueDeanchize,
> {
    fn default() -> Self {
        ListMapDeanchize { key_deancha: KeyDeanchize::default(), value_deancha: ValueDeanchize::default() }
    }
}

/// The number of nodes of the list map at `at`, counted from node `i` on:
/// the list ends at the node whose link is 0.
pub open spec fn lm_count<K: Layout>(bytes: Seq<u8>, at: int, i: int) -> Option<int>
    decreases bytes.len() - i,
{
    if i < 0 || i + 1 > bytes.len() || lm_node::<K>(at, i) + lm_stride::<K>() > bytes.len() {
        None
    } else if cell_at::<usize>(bytes, lm_node::<K>(at, i)) == 0 {
        Some(i + 1)
    } else {
        lm_count::<K>(bytes, at, i + 1)
    }
}

impl<KeyDeanchize: StaticDeanchize, ValueDeanchize: Deanchize> Deanchize for ListMapDeanchize<
    KeyDeanchize,
    ValueDeanchize,
> {
    type Ancha = AnchaListMap<'static, KeyDeanchize::Ancha, ValueDeanchize::Ancha>;

    open spec fn spec_walk(&self, bytes: Seq<u8>, pos: int) -> Option<int> {
        let at = spec_align_up(pos, lm_align::<KeyDeanchize::Ancha>() as int);
        match lm_count::<KeyDeanchize::Ancha>(bytes, at, 0) {
            Some(n) => seq_walk(self.value_deancha, bytes, lm_node::<KeyDeanchize::Ancha>(at, n), n as nat),
            None => None,
        }
    }

    proof fn lemma_walk(&self, bytes: Seq<u8>, pos: int) {
        let at = spec_align_up(pos, lm_align::<KeyDeanchize::Ancha>() as int);
        lemma_lm_stride::<KeyDeanchize::Ancha>();
        lemma_align_up(pos, lm_align::<KeyDeanchize::Ancha>() as int);
        let n = lm_count::<KeyDeanchize::Ancha>(bytes, at, 0)->0;
        lemma_lm_count::<KeyDeanchize::Ancha>(bytes, at, 0);
        lemma_lm_node::<KeyDeanchize::Ancha>(at, 0, n);
        super::lemma_seq_walk_bounds(self.value_deancha, bytes, lm_node::<KeyDeanchize::Ancha>(at, n), n as nat);
    }

    fn deanchize<After>(&self, buf: &[u8], cur: BuildCursor<Self::Ancha>) -> (r: BuildCursor<After>) {
        let ghost bytes = from_base(buf@, cur.buf as int);
        let ghost pos = cur.cur as int;
        proof {
            lemma_lm_stride::<KeyDeanchize::Ancha>();
            lemma_align_up(pos, lm_align::<KeyDeanchize::Ancha>() as int);
        }
        let cur: BuildCursor<Self::Ancha> = cur.align();
        let ghost at = cur.cur as int;
        let stride = lm_stride_exec::<KeyDeanchize::Ancha>();
        let koff = lm_koff_exec::<KeyDeanchize::Ancha>();
        let ghost total = lm_count::<KeyDeanchize::Ancha>(bytes, at, 0)->0;
        let mut i: usize = 0;
        let mut p = cur.cur;
        loop
            invariant_except_break
                lm_count::<KeyDeanchize::Ancha>(bytes, at, i as int) == Some(total),
            invariant
                bytes == from_base(buf@, cur.buf as int),
                cur.buf <= buf@.len() <= max_blob(),
                at == cur.cur,
                0 <= at,
                stride == lm_stride::<KeyDeanchize::Ancha>(),
                koff == lm_koff::<KeyDeanchize::Ancha>(),
                16 <= stride,
                koff + KeyDeanchize::Ancha::spec_size() <= stride,
                p == lm_node::<KeyDeanchize::Ancha>(at, i as int),
                lm_count::<KeyDeanchize::Ancha>(bytes, at, 0) == Some(total),
                seq_walk(self.value_deancha, bytes, lm_node::<KeyDeanchize::Ancha>(at, total), total as nat)
                    is Some,
            ensures
                i == total,
                p == lm_node::<KeyDeanchize::Ancha>(at, total),
            decreases bytes.len() - i,
        {
            proof {
                lemma_lm_node::<KeyDeanchize::Ancha>(at, i as int, i as int);
                lemma_lm_count::<KeyDeanchize::Ancha>(bytes, at, i as int);
                lemma_cell_from_base::<usize>(buf@, cur.buf as int, p as int);
                lemma_cell_from_base::<KeyDeanchize::Ancha>(buf@, cur.buf as int, p + koff);
            }
            let link = usize::read_cell(buf, cur.buf + p);
            i = i + 1;
            p = p + stride;
            if link == 0 {
                break;
            }
        }
        proof {
            lemma_lm_count::<KeyDeanchize::Ancha>(bytes, at, 0);
            super::lemma_seq_walk_bounds(self.value_deancha, bytes, lm_node::<KeyDeanchize::Ancha>(at, total), 0);
        }
        let vcur: BuildCursor<ValueDeanchize::Ancha> = BuildCursor { cur: p, buf: cur.buf, _phantom: PhantomData };
        let r = deanchize_seq(&self.value_deancha, buf, vcur, i);
        r.transmute()
    }
}

pub proof fn lemma_lm_count<K: Layout>(bytes: Seq<u8>, at: int, i: int)
    requires
        0 <= at,
        lm_count::<K>(bytes, at, i) is Some,
    ensures
        i < lm_count::<K>(bytes, at, i)->0,
        lm_node::<K>(at, lm_count::<K>(bytes, at, i)->0) <= bytes.len(),
    decreases bytes.len() - i,
{
    lemma_lm_node::<K>(at, i, i);
    if cell_at::<usize>(bytes, lm_node::<K>(at, i)) != 0 {
        lemma_lm_count::<K>(bytes, at, i + 1);
    }
}

/// Counting the nodes of an anchized list map from node `i` on finds them
/// all.
proof fn lemma_lm_count_holds<KA: StaticAnchize, VA: Anchize<Context = KA::Context>>(
    lm: ListMapAnchizeFromVec<KA, VA>,
    origin: Vec<(KA::Origin, VA::Origin)>,
    ctx: KA::Context,
    bytes: Seq<u8>,
    pos: int,
    i: int,
)
    requires
        0 <= pos,
        0 <= i < origin@.len(),
        lm.spec_holds(origin, ctx, bytes, pos),
    ensures
        lm_count::<KA::Ancha>(bytes, spec_align_up(pos, lm_align::<KA::Ancha>() as int), i) == Some(
            origin@.len() as int,
        ),
    decreases origin@.len() - i,
{
    let at = spec_align_up(pos, lm_align::<KA::Ancha>() as int);
    let n = origin@.len() as int;
    lemma_lm_bounds(&lm, origin, pos);
    lemma_lm_stride::<KA::Ancha>();
    lemma_lm_node::<KA::Ancha>(at, i, n);
    lemma_lm_node::<KA::Ancha>(at, i + 1, n);
    lemma_lm_node::<KA::Ancha>(at, 0, i + 1);
    assert(lm_item_holds(lm.key_ancha, lm.value_ancha, origin@, ctx, bytes, at, i));
    let st = lm_stride::<KA::Ancha>();
    assert((i + 1) * st >= i + 1) by (nonlinear_arith)
        requires
            st >= 16,
            i >= 0,
    ;
    assert(lm_node::<KA::Ancha>(at, i) + st <= lm_node::<KA::Ancha>(at, n));
    assert(i + 1 <= bytes.len());
    if i + 1 < n {
        assert(cell_at::<usize>(bytes, lm_node::<KA::Ancha>(at, i)) != 0);
        lemma_lm_count_holds(lm, origin, ctx, bytes, pos, i + 1);
    }
}

/// Deanchization walks exactly over an anchized list map that has entries,
/// given that it does so over each value.
pub proof fn lemma_lm_walk<
    KA: StaticAnchize,
    VA: Anchize<Context = KA::Context>,
    KD: StaticDeanchize<Ancha = KA::Ancha>,
    VD: Deanchize,
>(
    anchize: ListMapAnchizeFromVec<KA, VA>,
    deanchize: ListMapDeanchize<KD, VD>,
    origin: Vec<(KA::Origin, VA::Origin)>,
    ctx: KA::Context,
    bytes: Seq<u8>,
    pos: int,
)
    requires
        0 <= pos,
        origin@.len() > 0,
        anchize.spec_holds(origin, ctx, bytes, pos),
        forall|o: VA::Origin, p: int|
            0 <= p && #[trigger] anchize.value_ancha.spec_holds(o, ctx, bytes, p)
                ==> deanchize.value_deancha.spec_walk(bytes, p) == Some(anchize.value_ancha.spec_end(o, p)),
    ensures
        deanchize.spec_walk(bytes, pos) == Some(anchize.spec_end(origin, pos)),
{
    let snd = SecondAnchize::<KA::Origin, VA> { value: &anchize.value_ancha, key: None };
    let at = spec_align_up(pos, lm_align::<KA::Ancha>() as int);
    let vstart = lm_node::<KA::Ancha>(at, origin@.len() as int);
    lemma_lm_bounds(&anchize, origin, pos);
    lemma_lm_count_holds(anchize, origin, ctx, bytes, pos, 0);
    assert forall|o: (KA::Origin, VA::Origin), p: int|
        0 <= p && #[trigger] snd.spec_holds(o, ctx, bytes, p) implies deanchize.value_deancha.spec_walk(bytes, p) == Some(
            snd.spec_end(o, p),
        ) by {
        assert(anchize.value_ancha.spec_holds(o.1, ctx, bytes, p));
    }
    lemma_seq_walk(snd, deanchize.value_deancha, origin@, ctx, bytes, vstart);
}

} // verus!
