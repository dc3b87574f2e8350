//! AnchaVecMap: an array of keys, each with the position of its value.
//!
//! Layout: `[len: usize][padding][item 0]...[item len-1][values...]`, where
//! an item is `[key][padding][val: usize]` and the values follow the items
//! one after another.
use core::marker::PhantomData;
use vstd::prelude::*;

use super::{
    anchize_seq, cell_at, deanchize_seq, from_base, lemma_align_up, lemma_cell_from_base,
    lemma_seq_end, lemma_unchanged_cell, lemma_write_cell, max_blob, seq_at, seq_end, seq_holds,
    seq_walk, spec_align_up, spec_max, unchanged_outside, Anchize, Assocs, BuildCursor, Cell, CellEq,
    Deanchize, Layout, Reserve, SecondAnchize, StaticAnchize,
};

verus! {

/// An item of a vector map: its key and the position of its value.
pub struct AnchaVecMapItem<K, V> {
    pub key: K,
    pub val: usize,
    pub _phantom: PhantomData<V>,
}

/// Alignment of the items of a vector map with keys `K`.
pub open spec fn vm_align<K: Layout>() -> nat {
    spec_max(8, K::spec_align())
}

/// Offset of the value position inside an item.
pub open spec fn vm_voff<K: Layout>() -> int {
    spec_align_up(K::spec_size() as int, 8)
}

/// Size of an item.
pub open spec fn vm_stride<K: Layout>() -> int {
    spec_align_up(vm_voff::<K>() + 8, vm_align::<K>() as int)
}

/// Position of the first item of the vector map at `at`.
pub open spec fn vm_items<K: Layout>(at: int) -> int {
    spec_align_up(at + 8, vm_align::<K>() as int)
}

/// Position of item `i` of the vector map at `at`.
pub open spec fn vm_item<K: Layout>(at: int, i: int) -> int {
    vm_items::<K>(at) + i * vm_stride::<K>()
}

pub proof fn lemma_vm_stride<K: Layout>()
    ensures
        K::spec_size() <= vm_voff::<K>() < K::spec_size() + 8,
        vm_voff::<K>() + 8 <= vm_stride::<K>() <= vm_voff::<K>() + 8 + 16,
        8 <= vm_stride::<K>() <= 0x1100,
        super::valid_align(vm_align::<K>()),
{
    K::lemma_layout();
    lemma_align_up(K::spec_size() as int, 8);
    lemma_align_up(vm_voff::<K>() + 8, vm_align::<K>() as int);
}

pub proof fn lemma_vm_item<K: Layout>(at: int, j: int, i: int)
    requires
        0 <= at,
        0 <= j <= i,
    ensures
        vm_item::<K>(at, j + 1) == vm_item::<K>(at, j) + vm_stride::<K>(),
        j < i ==> vm_item::<K>(at, j) + vm_stride::<K>() <= vm_item::<K>(at, i),
        at + 8 <= vm_items::<K>(at) <= vm_item::<K>(at, j) <= vm_item::<K>(at, i),
        vm_items::<K>(at) < at + 8 + 16,
{
    lemma_vm_stride::<K>();
    lemma_align_up(at + 8, vm_align::<K>() as int);
    let s = vm_stride::<K>();
    assert((j + 1) * s == j * s + s) by (nonlinear_arith);
    assert(j < i ==> j * s + s <= i * s) by (nonlinear_arith)
        requires
            s >= 0,
            j <= i,
    ;
    assert(0 <= j * s <= i * s) by (nonlinear_arith)
        requires
            s >= 0,
            0 <= j <= i,
    ;
}

pub fn vm_align_exec<K: Layout>() -> (r: usize)
    ensures
        r == vm_align::<K>(),
{
    proof {
        K::lemma_layout();
    }
    if K::align() >= 8 { K::align() } else { 8 }
}

pub fn vm_voff_exec<K: Layout>() -> (r: usize)
    ensures
        r == vm_voff::<K>(),
{
    proof {
        K::lemma_layout();
    }
    super::align_up(K::size(), 8)
}

pub fn vm_stride_exec<K: Layout>() -> (r: usize)
    ensures
        r == vm_stride::<K>(),
{
    proof {
        lemma_vm_stride::<K>();
    }
    super::align_up(vm_voff_exec::<K>() + 8, vm_align_exec::<K>())
}

/// A vector map in a blob.
pub struct AnchaVecMap<'a, K, V> {
    /// Number of items.
    pub len: usize,
    pub blob: &'a [u8],
    /// Position of the header.
    pub at: usize,
    pub _phantom: PhantomData<(K, V)>,
}

impl<'a, K, V> Layout for AnchaVecMap<'a, K, V> {
    open spec fn spec_size() -> nat {
        8
    }

    open spec fn spec_align() -> nat {
        8
    }

    fn size() -> (r: usize) {
        8
    }

    fn align() -> (r: usize) {
        8
    }

    proof fn lemma_layout() {
    }
}

impl<'a, K: Cell, V> AnchaVecMap<'a, K, V> {
    /// The item `i` as stored in the blob.
    pub open spec fn spec_item(&self, i: int) -> (K, int) {
        let p = vm_item::<K>(self.at as int, i);
        (cell_at::<K>(self.blob@, p), cell_at::<usize>(self.blob@, p + vm_voff::<K>()) as int)
    }

    /// The map lies inside its blob.
    pub open spec fn wf(&self) -> bool {
        &&& vm_item::<K>(self.at as int, self.len as int) <= self.blob@.len()
        &&& self.blob@.len() <= max_blob()
    }

    /// The vector map whose header is at `at` of `blob`.
    pub fn from_blob(blob: &'a [u8], at: usize) -> (r: Self)
        requires
            at + 8 <= blob@.len(),
        ensures
            r.len == cell_at::<usize>(blob@, at as int),
            r.blob@ == blob@,
            r.at == at,
    {
        let len = usize::read_cell(blob, at);
        AnchaVecMap { len, blob, at, _phantom: PhantomData }
    }

    /// Item `i`.
    pub fn get(&self, i: usize) -> (r: AnchaVecMapItem<K, V>)
        requires
            self.wf(),
            i < self.len,
        ensures
            (r.key, r.val as int) == self.spec_item(i as int),
    {
        proof {
            lemma_vm_item::<K>(self.at as int, i as int, self.len as int);
            lemma_vm_stride::<K>();
        }
        let p = super::align_up(self.at + 8, vm_align_exec::<K>()) + i * vm_stride_exec::<K>();
        let key = K::read_cell(self.blob, p);
        let val = usize::read_cell(self.blob, p + vm_voff_exec::<K>());
        AnchaVecMapItem { key, val, _phantom: PhantomData }
    }

    /// All items, in order.
    pub fn items(&self) -> (r: Vec<AnchaVecMapItem<K, V>>)
        requires
            self.wf(),
        ensures
            r@.len() == self.len,
            forall|i: int| 0 <= i < self.len ==> (#[trigger] r@[i].key, r@[i].val as int) == self.spec_item(i),
    {
        let mut r: Vec<AnchaVecMapItem<K, V>> = Vec::new();
        let mut i: usize = 0;
        while i < self.len
            invariant
                self.wf(),
                i <= self.len,
                r@.len() == i,
                forall|j: int| 0 <= j < i ==> (#[trigger] r@[j].key, r@[j].val as int) == self.spec_item(j),
            decreases self.len - i,
        {
            r.push(self.get(i));
            i = i + 1;
        }
        r
    }
}


/// The position of the value of the first item, from item `i` on, whose key
/// is `key`.
pub open spec fn vm_scan<K: Cell>(key: K, bytes: Seq<u8>, at: int, i: int, n: int) -> Option<int>
    decreases n - i,
{
    if i >= n {
        None
    } else if cell_at::<K>(bytes, vm_item::<K>(at, i)) == key {
        Some(cell_at::<usize>(bytes, vm_item::<K>(at, i) + vm_voff::<K>()) as int)
    } else {
        vm_scan(key, bytes, at, i + 1, n)
    }
}

/// A vector map is searched item by item; the first item with the key wins.
impl<'a, K: CellEq, V> Assocs for AnchaVecMap<'a, K, V> {
    type Key = K;

    open spec fn spec_lookup(key: K, bytes: Seq<u8>, at: int) -> Option<int> {
        if at < 0 || at + 8 > bytes.len() {
            None
        } else if vm_item::<K>(at, cell_at::<usize>(bytes, at) as int) > bytes.len() {
            None
        } else {
            vm_scan(key, bytes, at, 0, cell_at::<usize>(bytes, at) as int)
        }
    }

    fn lookup(key: &K, blob: &[u8], at: usize) -> (r: Option<usize>) {
        let len = blob.len();
        if !(at < len && 8 <= len - at) {
            return None;
        }
        let m = AnchaVecMap::<K, V>::from_blob(blob, at);
        proof {
            lemma_vm_stride::<K>();
            lemma_vm_item::<K>(at as int, 0, 0);
        }
        let items = super::align_up(at + 8, vm_align_exec::<K>());
        let stride = vm_stride_exec::<K>();
        if items > len {
            proof {
                assert(vm_item::<K>(at as int, m.len as int) >= items) by (nonlinear_arith)
                    requires
                        vm_item::<K>(at as int, m.len as int) == items + m.len * stride,
                        stride > 0,
                ;
            }
            return None;
        }
        let room = (len - items) / stride;
        if room < m.len {
            proof {
                assert(vm_item::<K>(at as int, m.len as int) > len) by (nonlinear_arith)
                    requires
                        room == ((len - items) as int) / (stride as int),
                        room < m.len,
                        items <= len,
                        stride > 0,
                        vm_item::<K>(at as int, m.len as int) == items + m.len * stride,
                ;
            }
            return None;
        }
        proof {
            assert(vm_item::<K>(at as int, m.len as int) <= len) by (nonlinear_arith)
                requires
                    room == ((len - items) as int) / (stride as int),
                    room >= m.len,
                    items <= len,
                    stride > 0,
                    vm_item::<K>(at as int, m.len as int) == items + m.len * stride,
            ;
        }
        let mut i: usize = 0;
        while i < m.len
            invariant
                m.wf(),
                m.blob@ == blob@,
                m.at == at,
                at + 8 <= blob@.len(),
                m.len == cell_at::<usize>(blob@, at as int),
                i <= m.len,
                vm_scan(*key, blob@, at as int, 0, m.len as int) == vm_scan(
                    *key,
                    blob@,
                    at as int,
                    i as int,
                    m.len as int,
                ),
            decreases m.len - i,
        {
            let item = m.get(i);
            if item.key.cell_eq(key) {
                assert(vm_scan(*key, blob@, at as int, i as int, m.len as int) == Some(item.val as int));
                return Some(item.val);
            }
            i = i + 1;
        }
        None
    }
}

/// Anchization and deanchization of key-value pairs as an `AnchaVecMap`.
pub struct VecMapAncha<KeyAnchize, ValAnchize> {
    pub key_ancha: KeyAnchize,
    pub val_ancha: ValAnchize,
}

impl<KeyAnchize, ValAnchize> VecMapAncha<KeyAnchize, ValAnchize> {
    pub fn new(key_ancha: KeyAnchize, val_ancha: ValAnchize) -> (r: Self)
        ensures
            r.key_ancha == key_ancha,
            r.val_ancha == val_ancha,
    {
        VecMapAncha { key_ancha, val_ancha }
    }
}

/// Item `i` of a vector map holds its key and the position of its value.
pub open spec fn vm_item_holds<KA: StaticAnchize, VA: Anchize<Context = KA::Context>>(
    ka: KA,
    va: VA,
    os: Seq<(KA::Origin, VA::Origin)>,
    ctx: KA::Context,
    bytes: Seq<u8>,
    at: int,
    i: int,
) -> bool {
    let item = vm_item::<KA::Ancha>(at, i);
    let vstart = vm_item::<KA::Ancha>(at, os.len() as int);
    &&& cell_at::<KA::Ancha>(bytes, item) == ka.spec_anchize_static(os[i].0, ctx)
    &&& cell_at::<usize>(bytes, item + vm_voff::<KA::Ancha>()) == seq_at(
        SecondAnchize::<KA::Origin, VA> { value: &va, key: None },
        os,
        vstart,
        i,
    )
}

impl<KeyAnchize: StaticAnchize, ValAnchize: Anchize<Context = KeyAnchize::Context>> Anchize for VecMapAncha<
    KeyAnchize,
    ValAnchize,
> {
    type Origin = Vec<(KeyAnchize::Origin, ValAnchize::Origin)>;

    type Context = KeyAnchize::Context;

    type Ancha = AnchaVecMap<'static, KeyAnchize::Ancha, ValAnchize::Ancha>;

    open spec fn spec_accepts(&self, origin: Self::Origin, context: Self::Context) -> bool {
        forall|i: int|
            0 <= i < origin@.len() ==> self.key_ancha.spec_accepts(#[trigger] origin@[i].0, context)
                && self.val_ancha.spec_accepts(origin@[i].1, context)
    }

    open spec fn spec_end(&self, origin: Self::Origin, pos: int) -> int {
        seq_end(
            SecondAnchize::<KeyAnchize::Origin, ValAnchize> { value: &self.val_ancha, key: None },
            origin@,
            vm_item::<KeyAnchize::Ancha>(spec_align_up(pos, 8), origin@.len() as int),
        )
    }

    open spec fn spec_holds(
        &self,
        origin: Self::Origin,
        context: Self::Context,
        bytes: Seq<u8>,
        pos: int,
    ) -> bool {
        let at = spec_align_up(pos, 8);
        let vstart = vm_item::<KeyAnchize::Ancha>(at, origin@.len() as int);
        &&& self.spec_end(origin, pos) <= bytes.len()
        &&& cell_at::<usize>(bytes, at) == origin@.len()
        &&& seq_holds(
            SecondAnchize::<KeyAnchize::Origin, ValAnchize> { value: &self.val_ancha, key: None },
            origin@,
            context,
            bytes,
            vstart,
        )
        &&& forall|i: int|
            0 <= i < origin@.len() ==> #[trigger] vm_item_holds(
                self.key_ancha,
                self.val_ancha,
                origin@,
                context,
                bytes,
                at,
                i,
            )
    }

    proof fn lemma_align_start(
        &self,
        origin: Self::Origin,
        context: Self::Context,
        bytes: Seq<u8>,
        pos: int,
    ) {
        super::lemma_align_idem(pos, 8);
    }

    proof fn lemma_end(&self, origin: Self::Origin, pos: int) {
        lemma_vm_bounds(self, origin, pos);
    }

    proof fn lemma_frame(
        &self,
        origin: Self::Origin,
        context: Self::Context,
        b1: Seq<u8>,
        b2: Seq<u8>,
        pos: int,
    ) {
        let at = spec_align_up(pos, 8);
        let n = origin@.len() as int;
        let vstart = vm_item::<KeyAnchize::Ancha>(at, n);
        let end = self.spec_end(origin, pos);
        let snd = SecondAnchize::<KeyAnchize::Origin, ValAnchize> { value: &self.val_ancha, key: None };
        lemma_vm_bounds(self, origin, pos);
        lemma_vm_stride::<KeyAnchize::Ancha>();
        super::lemma_subrange_within(b1, b2, pos, end, vstart, end);
        super::lemma_seq_frame(snd, origin@, context, b1, b2, vstart);
        super::lemma_subrange_within(b1, b2, pos, end, at, at + 8);
        assert(cell_at::<usize>(b1, at) == cell_at::<usize>(b2, at));
        assert forall|i: int| 0 <= i < n implies #[trigger] vm_item_holds(
            self.key_ancha,
            self.val_ancha,
            origin@,
            context,
            b2,
            at,
            i,
        ) by {
            assert(vm_item_holds(self.key_ancha, self.val_ancha, origin@, context, b1, at, i));
            lemma_vm_item::<KeyAnchize::Ancha>(at, i, n);
            let item = vm_item::<KeyAnchize::Ancha>(at, i);
            let vo = item + vm_voff::<KeyAnchize::Ancha>();
            super::lemma_subrange_within(b1, b2, pos, end, item, item + KeyAnchize::Ancha::spec_size());
            super::lemma_subrange_within(b1, b2, pos, end, vo, vo + 8);
            assert(cell_at::<usize>(b1, vo) == cell_at::<usize>(b2, vo));
            assert(cell_at::<KeyAnchize::Ancha>(b1, item) == cell_at::<KeyAnchize::Ancha>(b2, item));
        }
    }

    fn reserve(&self, origin: &Self::Origin, context: &Self::Context, sz: &mut Reserve) {
        let ghost pos = old(sz).0 as int;
        let ghost os = origin@;
        let ghost at = spec_align_up(pos, 8);
        let ghost n = os.len() as int;
        let ghost vstart = vm_item::<KeyAnchize::Ancha>(at, n);
        let ghost snd = SecondAnchize::<KeyAnchize::Origin, ValAnchize> { value: &self.val_ancha, key: None };
        proof {
            lemma_vm_bounds(self, *origin, pos);
            lemma_seq_end(snd, os, vstart, n);
            lemma_vm_item::<KeyAnchize::Ancha>(at, n, n);
            lemma_vm_stride::<KeyAnchize::Ancha>();
            super::lemma_align_up_aligned(at, 8);
        }
        sz.add::<Self::Ancha>(0);
        sz.add::<usize>(1);
        let stride = vm_stride_exec::<KeyAnchize::Ancha>();
        sz.0 = super::align_up(sz.0, vm_align_exec::<KeyAnchize::Ancha>()) + origin.len() * stride;
        let vals = SecondAnchize::<KeyAnchize::Origin, ValAnchize> { value: &self.val_ancha, key: None };
        let mut i: usize = 0;
        while i < origin.len()
            invariant
                os == origin@,
                vals == snd,
                n == os.len(),
                0 <= vstart,
                0 <= i <= n,
                sz.0 == seq_end(snd, os.take(i as int), vstart),
                seq_end(snd, os, vstart) <= max_blob(),
            decreases n - i,
        {
            proof {
                lemma_seq_end(snd, os, vstart, i + 1);
                super::lemma_seq_push(snd, os.take(i as int), os[i as int], vstart);
                assert(os.take(i as int).push(os[i as int]) =~= os.take(i + 1));
                assert(os.take(n) =~= os);
            }
            vals.reserve(&origin[i], context, sz);
            i = i + 1;
        }
        proof {
            assert(os.take(n) =~= os);
        }
    }

    fn anchize<After>(
        &self,
        origin: &Self::Origin,
        context: &Self::Context,
        buf: &mut Vec<u8>,
        cur: BuildCursor<Self::Ancha>,
    ) -> (r: BuildCursor<After>) {
        let ghost pos = cur.cur as int;
        let ghost base = cur.buf as int;
        let ghost os = origin@;
        let ghost at = spec_align_up(pos, 8);
        let ghost n = os.len() as int;
        let ghost vstart = vm_item::<KeyAnchize::Ancha>(at, n);
        let ghost snd = SecondAnchize::<KeyAnchize::Origin, ValAnchize> { value: &self.val_ancha, key: None };
        proof {
            lemma_vm_bounds(self, *origin, pos);
            lemma_vm_item::<KeyAnchize::Ancha>(at, n, n);
            lemma_vm_stride::<KeyAnchize::Ancha>();
        }
        let cur: BuildCursor<Self::Ancha> = cur.align();
        let stride = vm_stride_exec::<KeyAnchize::Ancha>();
        let voff = vm_voff_exec::<KeyAnchize::Ancha>();
        let items = super::align_up(cur.cur + 8, vm_align_exec::<KeyAnchize::Ancha>());
        let len = origin.len();
        let vcur: BuildCursor<ValAnchize::Ancha> = BuildCursor {
            cur: items + len * stride,
            buf: cur.buf,
            _phantom: PhantomData,
        };
        let vals = SecondAnchize::<KeyAnchize::Origin, ValAnchize> { value: &self.val_ancha, key: None };
        proof {
            assert forall|i: int| 0 <= i < os.len() implies vals.spec_accepts(#[trigger] os[i], *context) by {
                assert(self.key_ancha.spec_accepts(os[i].0, *context));
            }
        }
        let (vend, ats) = anchize_seq(&vals, origin.as_slice(), context, buf, vcur);
        let ghost b1 = buf@;
        len.write_cell(buf, cur.buf + cur.cur);
        let ghost b2 = buf@;
        proof {
            lemma_write_cell::<usize>(b1, b2, base + at, len);
        }
        let mut i: usize = 0;
        while i < len
            invariant
                os == origin@,
                snd == (SecondAnchize::<KeyAnchize::Origin, ValAnchize> { value: &self.val_ancha, key: None }),
                n == len,
                len == os.len(),
                0 <= base,
                0 <= pos <= at,
                cur.cur == at,
                cur.buf == base,
                items == vm_items::<KeyAnchize::Ancha>(at),
                stride == vm_stride::<KeyAnchize::Ancha>(),
                voff == vm_voff::<KeyAnchize::Ancha>(),
                KeyAnchize::Ancha::spec_size() <= voff,
                voff + 8 <= stride,
                vstart == vm_item::<KeyAnchize::Ancha>(at, n),
                vstart <= seq_end(snd, os, vstart),
                0 <= i <= len,
                ats@.len() == len,
                forall|j: int| 0 <= j < len ==> ats@[j] == seq_at(snd, os, vstart, j),
                buf@.len() == old(buf)@.len(),
                old(buf)@.len() <= max_blob(),
                base + seq_end(snd, os, vstart) <= buf@.len(),
                self.spec_accepts(*origin, *context),
                unchanged_outside(b2, buf@, base + items, base + vm_item::<KeyAnchize::Ancha>(at, i as int)),
                cell_at::<usize>(buf@, base + at) == len,
                forall|j: int|
                    0 <= j < i ==> #[trigger] vm_item_holds(
                        self.key_ancha,
                        self.val_ancha,
                        os,
                        *context,
                        from_base(buf@, base),
                        at,
                        j,
                    ),
            decreases len - i,
        {
            let ghost b0 = buf@;
            let ghost item = vm_item::<KeyAnchize::Ancha>(at, i as int);
            proof {
                lemma_vm_item::<KeyAnchize::Ancha>(at, i as int, n);
                lemma_vm_item::<KeyAnchize::Ancha>(at, i + 1, n);
                assert(self.key_ancha.spec_accepts(os[i as int].0, *context));
            }
            let p = items + i * stride;
            let mut k = KeyAnchize::Ancha::read_cell(buf.as_slice(), cur.buf + p);
            self.key_ancha.anchize_static(&origin[i].0, context, &mut k);
            k.write_cell(buf, cur.buf + p);
            let ghost bk = buf@;
            ats[i].write_cell(buf, cur.buf + p + voff);
            proof {
                let fb = from_base(buf@, base);
                lemma_write_cell::<KeyAnchize::Ancha>(b0, bk, base + item, k);
                lemma_write_cell::<usize>(bk, buf@, base + item + voff, ats@[i as int]);
                lemma_unchanged_cell::<KeyAnchize::Ancha>(bk, buf@, base + item + voff, base + item + voff + 8, base + item);
                lemma_cell_from_base::<usize>(buf@, base, item + voff);
                lemma_cell_from_base::<KeyAnchize::Ancha>(buf@, base, item);
                assert(unchanged_outside(b0, buf@, base + item, base + item + stride));
                lemma_unchanged_cell::<usize>(b0, buf@, base + item, base + item + stride, base + at);
                super::lemma_from_base_unchanged(b0, buf@, base, item, item + stride);
                assert(vm_item_holds(self.key_ancha, self.val_ancha, os, *context, fb, at, i as int));
                assert forall|j: int| 0 <= j < i + 1 implies #[trigger] vm_item_holds(
                    self.key_ancha,
                    self.val_ancha,
                    os,
                    *context,
                    fb,
                    at,
                    j,
                ) by {
                    if j < i {
                        let fb0 = from_base(b0, base);
                        assert(vm_item_holds(self.key_ancha, self.val_ancha, os, *context, fb0, at, j));
                        lemma_vm_item::<KeyAnchize::Ancha>(at, j, i as int);
                        let ij = vm_item::<KeyAnchize::Ancha>(at, j);
                        lemma_unchanged_cell::<KeyAnchize::Ancha>(fb0, fb, item, item + stride, ij);
                        lemma_unchanged_cell::<usize>(fb0, fb, item, item + stride, ij + voff);
                    }
                }
            }
            i = i + 1;
        }
        proof {
            let fb1 = from_base(b1, base);
            let fb2 = from_base(buf@, base);
            let end = seq_end(snd, os, vstart);
            assert(unchanged_outside(b1, buf@, base + at, base + vstart));
            super::lemma_from_base_unchanged(b1, buf@, base, at, vstart);
            super::lemma_unchanged_subrange(fb1, fb2, at, vstart, vstart, end);
            super::lemma_seq_frame(snd, os, *context, fb1, fb2, vstart);
            lemma_cell_from_base::<usize>(buf@, base, at);
        }
        vend.transmute()
    }
}

/// Where the parts of a vector map laid out from `pos` on lie.
pub proof fn lemma_vm_bounds<KA: StaticAnchize, VA: Anchize<Context = KA::Context>>(
    vm: &VecMapAncha<KA, VA>,
    origin: Vec<(KA::Origin, VA::Origin)>,
    pos: int,
)
    requires
        0 <= pos,
    ensures
        pos <= spec_align_up(pos, 8) < pos + 8,
        spec_align_up(pos, 8) % 8 == 0,
        spec_align_up(pos, 8) + 8 <= vm_item::<KA::Ancha>(spec_align_up(pos, 8), origin@.len() as int),
        vm_item::<KA::Ancha>(spec_align_up(pos, 8), origin@.len() as int) <= vm.spec_end(origin, pos),
        origin@.take(0) == Seq::<(KA::Origin, VA::Origin)>::empty(),
        origin@.take(origin@.len() as int) == origin@,
{
    lemma_vm_stride::<KA::Ancha>();
    let at = spec_align_up(pos, 8);
    lemma_align_up(pos, 8);
    let n = origin@.len() as int;
    lemma_vm_item::<KA::Ancha>(at, 0, n);
    let vstart = vm_item::<KA::Ancha>(at, n);
    let snd = SecondAnchize::<KA::Origin, VA> { value: &vm.val_ancha, key: None };
    lemma_seq_end(snd, origin@, vstart, 0);
    assert(origin@.take(0) =~= Seq::<(KA::Origin, VA::Origin)>::empty());
    assert(origin@.take(n) =~= origin@);
}

impl<KeyAnchize: StaticAnchize, ValAnchize: Deanchize> Deanchize for VecMapAncha<KeyAnchize, ValAnchize> {
    type Ancha = AnchaVecMap<'static, KeyAnchize::Ancha, ValAnchize::Ancha>;

    open spec fn spec_walk(&self, bytes: Seq<u8>, pos: int) -> Option<int> {
        let at = spec_align_up(pos, 8);
        if at + 8 > bytes.len() {
            None
        } else {
            let n = cell_at::<usize>(bytes, at) as int;
            let vstart = vm_item::<KeyAnchize::Ancha>(at, n);
            if vstart > bytes.len() {
                None
            } else {
                seq_walk(self.val_ancha, bytes, vstart, n as nat)
            }
        }
    }

    proof fn lemma_walk(&self, bytes: Seq<u8>, pos: int) {
        let at = spec_align_up(pos, 8);
        lemma_align_up(pos, 8);
        let n = cell_at::<usize>(bytes, at) as int;
        lemma_vm_item::<KeyAnchize::Ancha>(at, 0, n);
        super::lemma_seq_walk_bounds(self.val_ancha, bytes, vm_item::<KeyAnchize::Ancha>(at, n), n as nat);
    }

    fn deanchize<After>(&self, buf: &[u8], cur: BuildCursor<Self::Ancha>) -> (r: BuildCursor<After>) {
        let ghost pos = cur.cur as int;
        proof {
            lemma_align_up(pos, 8);
            lemma_vm_stride::<KeyAnchize::Ancha>();
        }
        let cur: BuildCursor<Self::Ancha> = cur.align();
        proof {
            lemma_cell_from_base::<usize>(buf@, cur.buf as int, cur.cur as int);
        }
        let len = usize::read_cell(buf, cur.buf + cur.cur);
        proof {
            lemma_vm_item::<KeyAnchize::Ancha>(cur.cur as int, len as int, len as int);
        }
        let items = super::align_up(cur.cur + 8, vm_align_exec::<KeyAnchize::Ancha>());
        let vcur: BuildCursor<ValAnchize::Ancha> = BuildCursor {
            cur: items + len * vm_stride_exec::<KeyAnchize::Ancha>(),
            buf: cur.buf,
            _phantom: PhantomData,
        };
        let r = deanchize_seq(&self.val_ancha, buf, vcur, len);
        r.transmute()
    }
}

} // verus!

verus! {

/// The first item, from item `i` on, whose key's image is `key`.
pub open spec fn vm_first<KA: StaticAnchize, V>(
    ka: KA,
    os: Seq<(KA::Origin, V)>,
    ctx: KA::Context,
    key: KA::Ancha,
    i: int,
) -> Option<int>
    decreases os.len() - i,
{
    if i < 0 || i >= os.len() {
        None
    } else if ka.spec_anchize_static(os[i].0, ctx) == key {
        Some(i)
    } else {
        vm_first(ka, os, ctx, key, i + 1)
    }
}

pub proof fn lemma_vm_first_range<KA: StaticAnchize, V>(
    ka: KA,
    os: Seq<(KA::Origin, V)>,
    ctx: KA::Context,
    key: KA::Ancha,
    i: int,
)
    requires
        0 <= i,
    ensures
        vm_first(ka, os, ctx, key, i) matches Some(j) ==> i <= j < os.len() && ka.spec_anchize_static(
            os[j].0,
            ctx,
        ) == key,
    decreases os.len() - i,
{
    if i < os.len() && ka.spec_anchize_static(os[i].0, ctx) != key {
        lemma_vm_first_range(ka, os, ctx, key, i + 1);
    }
}

/// Looking a key up in an anchized vector map finds the value of the first
/// item whose key is laid out as that key, and that value is there.
pub proof fn lemma_vm_lookup<KA: StaticAnchize, VA: Anchize<Context = KA::Context>>(
    vm: VecMapAncha<KA, VA>,
    origin: Vec<(KA::Origin, VA::Origin)>,
    ctx: KA::Context,
    bytes: Seq<u8>,
    pos: int,
    key: KA::Ancha,
)
    requires
        0 <= pos,
        vm.spec_holds(origin, ctx, bytes, pos),
    ensures
        ({
            let at = spec_align_up(pos, 8);
            let os = origin@;
            let vstart = vm_item::<KA::Ancha>(at, os.len() as int);
            let snd = SecondAnchize::<KA::Origin, VA> { value: &vm.val_ancha, key: None };
            &&& vm_scan(key, bytes, at, 0, os.len() as int) == match vm_first(vm.key_ancha, os, ctx, key, 0) {
                Some(i) => Some(seq_at(snd, os, vstart, i)),
                None => None::<int>,
            }
            &&& at + 8 <= bytes.len()
            &&& cell_at::<usize>(bytes, at) == os.len()
            &&& vm_item::<KA::Ancha>(at, os.len() as int) <= bytes.len()
            &&& vm_first(vm.key_ancha, os, ctx, key, 0) matches Some(i) ==> vm.val_ancha.spec_holds(
                os[i].1,
                ctx,
                bytes,
                seq_at(snd, os, vstart, i),
            )
        }),
{
    let at = spec_align_up(pos, 8);
    let os = origin@;
    let n = os.len() as int;
    let vstart = vm_item::<KA::Ancha>(at, n);
    let snd = SecondAnchize::<KA::Origin, VA> { value: &vm.val_ancha, key: None };
    lemma_vm_bounds(&vm, origin, pos);
    lemma_vm_scan(vm, origin, ctx, bytes, pos, key, 0);
    lemma_vm_first_range(vm.key_ancha, os, ctx, key, 0);
    if let Some(i) = vm_first(vm.key_ancha, os, ctx, key, 0) {
        super::lemma_seq_holds_at(snd, os, ctx, bytes, vstart, i);
        lemma_seq_end(snd, os, vstart, i);
        snd.lemma_align_start(os[i], ctx, bytes, seq_end(snd, os.take(i), vstart));
    }
}

proof fn lemma_vm_scan<KA: StaticAnchize, VA: Anchize<Context = KA::Context>>(
    vm: VecMapAncha<KA, VA>,
    origin: Vec<(KA::Origin, VA::Origin)>,
    ctx: KA::Context,
    bytes: Seq<u8>,
    pos: int,
    key: KA::Ancha,
    i: int,
)
    requires
        0 <= pos,
        0 <= i <= origin@.len(),
        vm.spec_holds(origin, ctx, bytes, pos),
    ensures
        ({
            let at = spec_align_up(pos, 8);
            let os = origin@;
            let vstart = vm_item::<KA::Ancha>(at, os.len() as int);
            let snd = SecondAnchize::<KA::Origin, VA> { value: &vm.val_ancha, key: None };
            vm_scan(key, bytes, at, i, os.len() as int) == match vm_first(vm.key_ancha, os, ctx, key, i) {
                Some(j) => Some(seq_at(snd, os, vstart, j)),
                None => None::<int>,
            }
        }),
    decreases origin@.len() - i,
{
    let at = spec_align_up(pos, 8);
    let os = origin@;
    if i < os.len() {
        lemma_vm_scan(vm, origin, ctx, bytes, pos, key, i + 1);
        assert(vm_item_holds(vm.key_ancha, vm.val_ancha, os, ctx, bytes, at, i));
    }
}

/// Deanchization walks exactly over an anchized vector map, given that it
/// does so over each value.
pub proof fn lemma_vm_walk<
    KA: StaticAnchize,
    VA: Anchize<Context = KA::Context>,
    KD: StaticAnchize<Ancha = KA::Ancha>,
    VD: Deanchize,
>(
    anchize: VecMapAncha<KA, VA>,
    deanchize: VecMapAncha<KD, VD>,
    origin: Vec<(KA::Origin, VA::Origin)>,
    ctx: KA::Context,
    bytes: Seq<u8>,
    pos: int,
)
    requires
        0 <= pos,
        anchize.spec_holds(origin, ctx, bytes, pos),
        forall|o: VA::Origin, p: int|
            0 <= p && #[trigger] anchize.val_ancha.spec_holds(o, ctx, bytes, p)
                ==> deanchize.val_ancha.spec_walk(bytes, p) == Some(anchize.val_ancha.spec_end(o, p)),
    ensures
        deanchize.spec_walk(bytes, pos) == Some(anchize.spec_end(origin, pos)),
{
    let snd = SecondAnchize::<KA::Origin, VA> { value: &anchize.val_ancha, key: None };
    let at = spec_align_up(pos, 8);
    let vstart = vm_item::<KA::Ancha>(at, origin@.len() as int);
    lemma_vm_bounds(&anchize, origin, pos);
    assert forall|o: (KA::Origin, VA::Origin), p: int|
        0 <= p && #[trigger] snd.spec_holds(o, ctx, bytes, p) implies deanchize.val_ancha.spec_walk(bytes, p) == Some(
            snd.spec_end(o, p),
        ) by {
        assert(anchize.val_ancha.spec_holds(o.1, ctx, bytes, p));
    }
    super::lemma_seq_walk(snd, deanchize.val_ancha, origin@, ctx, bytes, vstart);
}

} // verus!
