//! AnchaHashMap: a hash table of associative lists.
//!
//! Layout: `[mask: usize][bucket 0: usize]...[bucket cap-1: usize][lists...]`.
//! A bucket holds the position of its associative list, or 0 where the bucket
//! is empty; the lists follow the buckets, each aligned for its type.
use core::marker::PhantomData;
use vstd::prelude::*;

use super::{
    cell_at, from_base, lemma_align_up, lemma_cell_from_base, lemma_unchanged_cell,
    lemma_unchanged_holds, lemma_write_cell, max_blob, spec_align_up, unchanged_outside, Anchize,
    Assocs, BuildCursor, Cell, Deanchize, IsEmpty, Layout, MyHash, Reserve,
};

verus! {

/// A hash map in a blob.
pub struct AnchaHashMap<'a, AList> {
    pub blob: &'a [u8],
    /// Position of the mask.
    pub at: usize,
    pub _phantom: PhantomData<AList>,
}

/// The fixed-size head of a hash map is its mask; the buckets follow it.
impl<'a, AList> Layout for AnchaHashMap<'a, AList> {
    open spec fn spec_size() -> nat {
        8
    }

    open spec fn spec_align() -> nat {
        8
    }

    fn size() -> (r: usize) {
        8
    }

    fn align() -> (r: usize) {
        8
    }

    proof fn lemma_layout() {
    }
}

/// Position of bucket `i` of the hash map at `at`.
pub open spec fn hm_bucket(at: int, i: int) -> int {
    at + 8 + 8 * i
}

/// Position of the first list of a hash map with `cap` buckets at `at`.
pub open spec fn hm_start<L: Layout>(at: int, cap: int) -> int {
    spec_align_up(at + 8 + 8 * cap, L::spec_align() as int)
}

/// The bucket that `key` falls into in the hash map at `at`.
pub open spec fn hm_index<K: MyHash>(bytes: Seq<u8>, at: int, key: K) -> int {
    (key.spec_my_hash() & cell_at::<usize>(bytes, at)) as int
}

/// Looking a key up: the list of its bucket, searched for the key.
pub open spec fn hm_lookup<AList: Assocs>(bytes: Seq<u8>, at: int, key: AList::Key) -> Option<int>
    where AList::Key: MyHash,
{
    let b = hm_bucket(at, hm_index(bytes, at, key));
    if at + 8 > bytes.len() || b + 8 > bytes.len() {
        None
    } else if cell_at::<usize>(bytes, b) == 0 {
        None
    } else {
        AList::spec_lookup(key, bytes, cell_at::<usize>(bytes, b) as int)
    }
}

impl<'a, AList: Assocs> AnchaHashMap<'a, AList> where AList::Key: MyHash {
    /// The hash map whose mask is at `at` of `blob`.
    pub fn from_blob(blob: &'a [u8], at: usize) -> (r: Self)
        ensures
            r.blob@ == blob@,
            r.at == at,
    {
        AnchaHashMap { blob, at, _phantom: PhantomData }
    }

    /// The position of the value stored under `key`, if any.
    pub fn get(&self, key: &AList::Key) -> (r: Option<usize>)
        requires
            self.blob@.len() <= max_blob(),
        ensures
            match r {
                Some(p) => hm_lookup::<AList>(self.blob@, self.at as int, *key) == Some(p as int),
                None => hm_lookup::<AList>(self.blob@, self.at as int, *key) is None,
            },
    {
        let len = self.blob.len();
        if !(self.at < len && 8 <= len - self.at) {
            return None;
        }
        let mask = usize::read_cell(self.blob, self.at);
        let h = key.my_hash();
        let ix = h & mask;
        proof {
            assert(ix <= mask) by (bit_vector)
                requires
                    ix == h & mask,
            ;
        }
        let room = (len - self.at - 8) / 8;
        if ix >= room {
            proof {
                assert(hm_bucket(self.at as int, ix as int) + 8 > len) by (nonlinear_arith)
                    requires
                        ix >= room,
                        room == (len - self.at - 8) / 8,
                        len >= self.at + 8,
                ;
            }
            return None;
        }
        proof {
            assert(hm_bucket(self.at as int, ix as int) + 8 <= len) by (nonlinear_arith)
                requires
                    ix < room,
                    room == (len - self.at - 8) / 8,
                    len >= self.at + 8,
            ;
        }
        let b = self.at + 8 + 8 * ix;
        let p = usize::read_cell(self.blob, b);
        if p == 0 {
            return None;
        }
        AList::lookup(key, self.blob, p)
    }
}


/// Position behind the lists of the buckets `os`, laid out from `start` on;
/// empty buckets take no space.
pub open spec fn hm_end<E: Anchize>(e: E, os: Seq<E::Origin>, start: int) -> int
    where E::Origin: IsEmpty,
    decreases os.len(),
{
    if os.len() == 0 {
        start
    } else {
        let p = hm_end(e, os.drop_last(), start);
        if os.last().spec_is_empty() {
            p
        } else {
            e.spec_end(os.last(), spec_align_up(p, E::Ancha::spec_align() as int))
        }
    }
}

/// Position of the list of bucket `i`.
pub open spec fn hm_slot<E: Anchize>(e: E, os: Seq<E::Origin>, start: int, i: int) -> int
    where E::Origin: IsEmpty,
{
    spec_align_up(hm_end(e, os.take(i), start), E::Ancha::spec_align() as int)
}

/// What bucket `i` holds: the position of its list, or 0.
pub open spec fn hm_ptr<E: Anchize>(e: E, os: Seq<E::Origin>, start: int, i: int) -> int
    where E::Origin: IsEmpty,
{
    if os[i].spec_is_empty() {
        0
    } else {
        hm_slot(e, os, start, i)
    }
}

/// Bucket `i` holds the position of its list, and the list is there.
pub open spec fn hm_bucket_holds<E: Anchize>(
    e: E,
    os: Seq<E::Origin>,
    ctx: E::Context,
    bytes: Seq<u8>,
    at: int,
    start: int,
    i: int,
) -> bool
    where E::Origin: IsEmpty,
{
    &&& cell_at::<usize>(bytes, hm_bucket(at, i)) == hm_ptr(e, os, start, i)
    &&& !os[i].spec_is_empty() ==> e.spec_holds(os[i], ctx, bytes, hm_slot(e, os, start, i))
}

pub proof fn lemma_hm_end_ge<E: Anchize>(e: E, os: Seq<E::Origin>, start: int)
    where E::Origin: IsEmpty,
    requires
        0 <= start,
    ensures
        start <= hm_end(e, os, start),
    decreases os.len(),
{
    E::Ancha::lemma_layout();
    if os.len() > 0 {
        lemma_hm_end_ge(e, os.drop_last(), start);
        let p = hm_end(e, os.drop_last(), start);
        lemma_align_up(p, E::Ancha::spec_align() as int);
        e.lemma_end(os.last(), spec_align_up(p, E::Ancha::spec_align() as int));
    }
}

pub proof fn lemma_hm_step<E: Anchize>(e: E, os: Seq<E::Origin>, start: int, k: int)
    where E::Origin: IsEmpty,
    requires
        0 <= start,
        0 <= k < os.len(),
    ensures
        hm_end(e, os.take(k + 1), start) == (if os[k].spec_is_empty() {
            hm_end(e, os.take(k), start)
        } else {
            e.spec_end(os[k], hm_slot(e, os, start, k))
        }),
        hm_end(e, os.take(k), start) <= hm_slot(e, os, start, k),
        hm_slot(e, os, start, k) < hm_end(e, os.take(k), start) + 16,
        hm_end(e, os.take(k), start) <= hm_end(e, os.take(k + 1), start),
        !os[k].spec_is_empty() ==> hm_slot(e, os, start, k) <= hm_end(e, os.take(k + 1), start),
{
    E::Ancha::lemma_layout();
    let t = os.take(k + 1);
    assert(t.drop_last() =~= os.take(k));
    assert(t.last() == os[k]);
    lemma_hm_end_ge(e, os.take(k), start);
    lemma_align_up(hm_end(e, os.take(k), start), E::Ancha::spec_align() as int);
    e.lemma_end(os[k], hm_slot(e, os, start, k));
}

pub proof fn lemma_hm_mono<E: Anchize>(e: E, os: Seq<E::Origin>, start: int, k: int, m: int)
    where E::Origin: IsEmpty,
    requires
        0 <= start,
        0 <= k <= m <= os.len(),
    ensures
        hm_end(e, os.take(k), start) <= hm_end(e, os.take(m), start),
    decreases m - k,
{
    if k < m {
        lemma_hm_mono(e, os, start, k + 1, m);
        lemma_hm_step(e, os, start, k);
    }
}

pub proof fn lemma_hm_whole<E: Anchize>(e: E, os: Seq<E::Origin>, start: int)
    where E::Origin: IsEmpty,
    ensures
        hm_end(e, os.take(os.len() as int), start) == hm_end(e, os, start),
        hm_end(e, os.take(0), start) == start,
{
    assert(os.take(os.len() as int) =~= os);
    assert(os.take(0) =~= Seq::<E::Origin>::empty());
}

/// Changing bytes behind the lists of the first `i` buckets, and not their
/// bucket entries, keeps them.
pub proof fn lemma_hm_keep<E: Anchize>(
    e: E,
    os: Seq<E::Origin>,
    ctx: E::Context,
    b1: Seq<u8>,
    b2: Seq<u8>,
    at: int,
    start: int,
    i: int,
    lo: int,
    hi: int,
)
    where E::Origin: IsEmpty,
    requires
        0 <= at,
        hm_bucket(at, os.len() as int) <= start,
        0 <= i <= os.len(),
        unchanged_outside(b1, b2, lo, hi),
        hm_end(e, os, start) <= b1.len(),
        hm_end(e, os.take(i), start) <= lo || (lo == hm_bucket(at, i) && hi == lo + 8 && i
            < os.len()),
        forall|j: int| 0 <= j < i ==> #[trigger] hm_bucket_holds(e, os, ctx, b1, at, start, j),
    ensures
        forall|j: int| 0 <= j < i ==> #[trigger] hm_bucket_holds(e, os, ctx, b2, at, start, j),
{
    assert forall|j: int| 0 <= j < i implies #[trigger] hm_bucket_holds(e, os, ctx, b2, at, start, j) by {
        assert(hm_bucket_holds(e, os, ctx, b1, at, start, j));
        lemma_hm_end_ge(e, os, start);
        lemma_hm_whole(e, os, start);
        lemma_hm_step(e, os, start, j);
        lemma_hm_mono(e, os, start, j + 1, i);
        lemma_hm_mono(e, os, start, i, os.len() as int);
        lemma_hm_end_ge(e, os.take(j), start);
        lemma_unchanged_cell::<usize>(b1, b2, lo, hi, hm_bucket(at, j));
        if !os[j].spec_is_empty() {
            lemma_unchanged_holds(e, os[j], ctx, b1, b2, lo, hi, hm_slot(e, os, start, j));
        }
    }
}


/// Anchization of a `Vec` of buckets into an `AnchaHashMap`; the number of
/// buckets is a power of two, and bucket `i` holds the entries whose key
/// hashes to `i` under the mask.
pub struct HashMapAnchizeFromVec<AListAnchize> {
    pub alist_ancha: AListAnchize,
}

impl<AListAnchize> HashMapAnchizeFromVec<AListAnchize> {
    pub fn new(alist_ancha: AListAnchize) -> (r: Self)
        ensures
            r.alist_ancha == alist_ancha,
    {
        HashMapAnchizeFromVec { alist_ancha }
    }
}

impl<AListAnchize: Default> Default for HashMapAnchizeFromVec<AListAnchize> {
    fn default() -> Self {
        HashMapAnchizeFromVec { alist_ancha: AListAnchize::default() }
    }
}

impl<AListAnchize: Anchize> Anchize for HashMapAnchizeFromVec<AListAnchize> where
    AListAnchize::Origin: IsEmpty,
 {
    type Origin = Vec<AListAnchize::Origin>;

    type Context = AListAnchize::Context;

    type Ancha = AnchaHashMap<'static, AListAnchize::Ancha>;

    open spec fn spec_accepts(&self, origin: Self::Origin, context: Self::Context) -> bool {
        &&& origin@.len() > 0
        &&& forall|i: int|
            0 <= i < origin@.len() ==> self.alist_ancha.spec_accepts(#[trigger] origin@[i], context)
    }

    open spec fn spec_end(&self, origin: Self::Origin, pos: int) -> int {
        hm_end(
            self.alist_ancha,
            origin@,
            hm_start::<AListAnchize::Ancha>(spec_align_up(pos, 8), origin@.len() as int),
        )
    }

    open spec fn spec_holds(
        &self,
        origin: Self::Origin,
        context: Self::Context,
        bytes: Seq<u8>,
        pos: int,
    ) -> bool {
        let at = spec_align_up(pos, 8);
        let start = hm_start::<AListAnchize::Ancha>(at, origin@.len() as int);
        &&& self.spec_end(origin, pos) <= bytes.len()
        &&& cell_at::<usize>(bytes, at) == origin@.len() - 1
        &&& forall|i: int|
            0 <= i < origin@.len() ==> #[trigger] hm_bucket_holds(
                self.alist_ancha,
                origin@,
                context,
                bytes,
                at,
                start,
                i,
            )
    }

    proof fn lemma_align_start(
        &self,
        origin: Self::Origin,
        context: Self::Context,
        bytes: Seq<u8>,
        pos: int,
    ) {
        super::lemma_align_idem(pos, 8);
    }

    proof fn lemma_end(&self, origin: Self::Origin, pos: int) {
        lemma_align_up(pos, 8);
        let start = hm_start::<AListAnchize::Ancha>(spec_align_up(pos, 8), origin@.len() as int);
        AListAnchize::Ancha::lemma_layout();
        lemma_align_up(spec_align_up(pos, 8) + 8 + 8 * origin@.len(), AListAnchize::Ancha::spec_align() as int);
        lemma_hm_end_ge(self.alist_ancha, origin@, start);
    }

    proof fn lemma_frame(
        &self,
        origin: Self::Origin,
        context: Self::Context,
        b1: Seq<u8>,
        b2: Seq<u8>,
        pos: int,
    ) {
        let os = origin@;
        let e = self.alist_ancha;
        let at = spec_align_up(pos, 8);
        let cap = os.len() as int;
        let start = hm_start::<AListAnchize::Ancha>(at, cap);
        let end = self.spec_end(origin, pos);
        lemma_align_up(pos, 8);
        AListAnchize::Ancha::lemma_layout();
        lemma_align_up(at + 8 + 8 * cap, AListAnchize::Ancha::spec_align() as int);
        lemma_hm_end_ge(e, os, start);
        lemma_hm_whole(e, os, start);
        super::lemma_subrange_within(b1, b2, pos, end, at, at + 8);
        assert(cell_at::<usize>(b1, at) == cell_at::<usize>(b2, at));
        assert forall|j: int| 0 <= j < cap implies #[trigger] hm_bucket_holds(e, os, context, b2, at, start, j) by {
            assert(hm_bucket_holds(e, os, context, b1, at, start, j));
            lemma_hm_step(e, os, start, j);
            lemma_hm_mono(e, os, start, j + 1, cap);
            lemma_hm_end_ge(e, os.take(j), start);
            super::lemma_subrange_within(b1, b2, pos, end, hm_bucket(at, j), hm_bucket(at, j) + 8);
            assert(cell_at::<usize>(b1, hm_bucket(at, j)) == cell_at::<usize>(b2, hm_bucket(at, j)));
            if !os[j].spec_is_empty() {
                let s = hm_slot(e, os, start, j);
                super::lemma_subrange_within(b1, b2, pos, end, s, e.spec_end(os[j], s));
                e.lemma_frame(os[j], context, b1, b2, s);
            }
        }
    }

    fn reserve(&self, origin: &Self::Origin, context: &Self::Context, sz: &mut Reserve) {
        let ghost pos = old(sz).0 as int;
        let ghost os = origin@;
        let ghost e = self.alist_ancha;
        let ghost at = spec_align_up(pos, 8);
        let ghost start = hm_start::<AListAnchize::Ancha>(at, os.len() as int);
        proof {
            AListAnchize::Ancha::lemma_layout();
            lemma_align_up(pos, 8);
            lemma_align_up(at + 8 + 8 * os.len(), AListAnchize::Ancha::spec_align() as int);
            lemma_hm_whole(e, os, start);
            lemma_hm_mono(e, os, start, 0, os.len() as int);
            super::lemma_align_up_aligned(at, 8);
            assert((at + 8) % 8 == 0);
            super::lemma_align_up_aligned(at + 8, 8);
        }
        sz.add::<Self::Ancha>(0);
        sz.add::<usize>(1);
        sz.add::<usize>(origin.len());
        sz.add::<AListAnchize::Ancha>(0);
        let n = origin.len();
        let mut i: usize = 0;
        while i < n
            invariant
                n == os.len(),
                os == origin@,
                e == self.alist_ancha,
                0 <= start,
                0 <= i <= n,
                sz.0 == hm_end(e, os.take(i as int), start),
                hm_end(e, os, start) <= max_blob(),
            decreases n - i,
        {
            proof {
                lemma_hm_step(e, os, start, i as int);
                lemma_hm_mono(e, os, start, i + 1, n as int);
                lemma_hm_whole(e, os, start);
                lemma_hm_end_ge(e, os.take(i as int), start);
            }
            if !origin[i].is_empty() {
                proof {
                    e.lemma_align_start(os[i as int], arbitrary(), Seq::empty(), sz.0 as int);
                }
                self.alist_ancha.reserve(&origin[i], context, sz);
            }
            i = i + 1;
        }
        proof {
            lemma_hm_whole(e, os, start);
        }
    }

    fn anchize<After>(
        &self,
        origin: &Self::Origin,
        context: &Self::Context,
        buf: &mut Vec<u8>,
        cur: BuildCursor<Self::Ancha>,
    ) -> (r: BuildCursor<After>) {
        let ghost pos = cur.cur as int;
        let ghost base = cur.buf as int;
        let ghost os = origin@;
        let ghost e = self.alist_ancha;
        let ghost at = spec_align_up(pos, 8);
        let ghost cap = os.len() as int;
        let ghost start = hm_start::<AListAnchize::Ancha>(at, cap);
        proof {
            AListAnchize::Ancha::lemma_layout();
            lemma_align_up(pos, 8);
            lemma_align_up(at + 8 + 8 * cap, AListAnchize::Ancha::spec_align() as int);
            lemma_hm_whole(e, os, start);
            lemma_hm_mono(e, os, start, 0, cap);
            lemma_hm_end_ge(e, os, start);
        }
        let cur: BuildCursor<Self::Ancha> = cur.align();
        let n = origin.len();
        let mask: usize = n - 1;
        mask.write_cell(buf, cur.buf + cur.cur);
        let ghost bm = buf@;
        proof {
            lemma_write_cell::<usize>(old(buf)@, bm, base + at, mask);
            lemma_cell_from_base::<usize>(bm, base, at);
        }
        let mut arr_cur: BuildCursor<usize> = BuildCursor { cur: cur.cur + 8, buf: cur.buf, _phantom: PhantomData };
        let mut alist_cur: BuildCursor<AListAnchize::Ancha> = arr_cur.behind(n);
        let mut i: usize = 0;
        while i < n
            invariant
                n == os.len(),
                cap == n,
                os == origin@,
                e == self.alist_ancha,
                n > 0,
                0 <= pos <= at,
                0 <= base,
                at + 8 + 8 * cap <= start,
                0 <= i <= n,
                arr_cur.cur == hm_bucket(at, i as int),
                arr_cur.buf == base,
                alist_cur.buf == base,
                alist_cur.cur == hm_end(e, os.take(i as int), start),
                base + hm_end(e, os, start) <= buf@.len(),
                buf@.len() == old(buf)@.len(),
                old(buf)@.len() <= max_blob(),
                self.spec_accepts(*origin, *context),
                unchanged_outside(old(buf)@, buf@, base + pos, base + hm_end(e, os, start)),
                cell_at::<usize>(from_base(buf@, base), at) == cap - 1,
                forall|j: int|
                    0 <= j < i ==> #[trigger] hm_bucket_holds(e, os, *context, from_base(buf@, base), at, start, j),
            decreases n - i,
        {
            proof {
                lemma_hm_step(e, os, start, i as int);
                lemma_hm_mono(e, os, start, i + 1, n as int);
                lemma_hm_whole(e, os, start);
                lemma_hm_end_ge(e, os.take(i as int), start);
                assert(e.spec_accepts(os[i as int], *context));
            }
            let ghost b0 = buf@;
            let ghost fb0 = from_base(b0, base);
            let ghost slot = hm_slot(e, os, start, i as int);
            if origin[i].is_empty() {
                0usize.write_cell(buf, arr_cur.buf + arr_cur.cur);
                proof {
                    let fb2 = from_base(buf@, base);
                    lemma_write_cell::<usize>(b0, buf@, base + hm_bucket(at, i as int), 0);
                    lemma_cell_from_base::<usize>(buf@, base, hm_bucket(at, i as int));
                    super::lemma_from_base_unchanged(b0, buf@, base, hm_bucket(at, i as int), hm_bucket(at, i as int) + 8);
                    lemma_hm_keep(e, os, *context, fb0, fb2, at, start, i as int, hm_bucket(at, i as int), hm_bucket(at, i as int) + 8);
                    lemma_unchanged_cell::<usize>(fb0, fb2, hm_bucket(at, i as int), hm_bucket(at, i as int) + 8, at);
                    assert(hm_bucket_holds(e, os, *context, fb2, at, start, i as int));
                }
            } else {
                let acur: BuildCursor<AListAnchize::Ancha> = alist_cur.align();
                acur.cur.write_cell(buf, arr_cur.buf + arr_cur.cur);
                let ghost b1 = buf@;
                let ghost fb1 = from_base(b1, base);
                proof {
                    lemma_write_cell::<usize>(b0, b1, base + hm_bucket(at, i as int), acur.cur);
                    lemma_cell_from_base::<usize>(b1, base, hm_bucket(at, i as int));
                    super::lemma_from_base_unchanged(b0, b1, base, hm_bucket(at, i as int), hm_bucket(at, i as int) + 8);
                    lemma_hm_keep(e, os, *context, fb0, fb1, at, start, i as int, hm_bucket(at, i as int), hm_bucket(at, i as int) + 8);
                    lemma_unchanged_cell::<usize>(fb0, fb1, hm_bucket(at, i as int), hm_bucket(at, i as int) + 8, at);
                }
                alist_cur = self.alist_ancha.anchize(&origin[i], context, buf, acur);
                proof {
                    let fb2 = from_base(buf@, base);
                    let vend = e.spec_end(os[i as int], slot);
                    super::lemma_from_base_unchanged(b1, buf@, base, slot, vend);
                    lemma_hm_keep(e, os, *context, fb1, fb2, at, start, i as int, slot, vend);
                    lemma_unchanged_cell::<usize>(fb1, fb2, slot, vend, at);
                    lemma_unchanged_cell::<usize>(fb1, fb2, slot, vend, hm_bucket(at, i as int));
                    assert(hm_bucket_holds(e, os, *context, fb2, at, start, i as int));
                }
            }
            arr_cur.inc();
            i = i + 1;
        }
        proof {
            lemma_hm_whole(e, os, start);
            lemma_cell_from_base::<usize>(buf@, base, at);
        }
        alist_cur.transmute()
    }
}


/// Deanchization of an `AnchaHashMap`.
pub struct HashMapDeanchize<AListDeanchize> {
    pub alist_deancha: AListDeanchize,
}

impl<AListDeanchize> HashMapDeanchize<AListDeanchize> {
    pub fn new(alist_deancha: AListDeanchize) -> (r: Self)
        ensures
            r.alist_deancha == alist_deancha,
    {
        HashMapDeanchize { alist_deancha }
    }
}

impl<AListDeanchize: Default> Default for HashMapDeanchize<AListDeanchize> {
    fn default() -> Self {
        HashMapDeanchize { alist_deancha: AListDeanchize::default() }
    }
}

/// Walking over the lists of the buckets from bucket `i` on, from `p` on.
pub open spec fn hm_walk<D: Deanchize>(d: D, bytes: Seq<u8>, at: int, cap: int, i: int, p: int) -> Option<int>
    decreases cap - i,
{
    if i >= cap {
        Some(p)
    } else if i < 0 || hm_bucket(at, i) + 8 > bytes.len() {
        None
    } else if cell_at::<usize>(bytes, hm_bucket(at, i)) == 0 {
        hm_walk(d, bytes, at, cap, i + 1, p)
    } else {
        match d.spec_walk(bytes, p) {
            Some(q) => hm_walk(d, bytes, at, cap, i + 1, q),
            None => None,
        }
    }
}

impl<AListDeanchize: Deanchize> Deanchize for HashMapDeanchize<AListDeanchize> {
    type Ancha = AnchaHashMap<'static, AListDeanchize::Ancha>;

    open spec fn spec_walk(&self, bytes: Seq<u8>, pos: int) -> Option<int> {
        let at = spec_align_up(pos, 8);
        if at + 8 > bytes.len() {
            None
        } else {
            let cap = cell_at::<usize>(bytes, at) + 1;
            let start = hm_start::<AListDeanchize::Ancha>(at, cap);
            if start > bytes.len() {
                None
            } else {
                hm_walk(self.alist_deancha, bytes, at, cap, 0, start)
            }
        }
    }

    proof fn lemma_walk(&self, bytes: Seq<u8>, pos: int) {
        let at = spec_align_up(pos, 8);
        lemma_align_up(pos, 8);
        let cap = cell_at::<usize>(bytes, at) + 1;
        AListDeanchize::Ancha::lemma_layout();
        lemma_align_up(at + 8 + 8 * cap, AListDeanchize::Ancha::spec_align() as int);
        lemma_hm_walk_bounds(self.alist_deancha, bytes, at, cap, 0, hm_start::<AListDeanchize::Ancha>(at, cap));
    }

    fn deanchize<After>(&self, buf: &[u8], cur: BuildCursor<Self::Ancha>) -> (r: BuildCursor<After>) {
        let ghost bytes = from_base(buf@, cur.buf as int);
        let ghost d = self.alist_deancha;
        let ghost pos = cur.cur as int;
        proof {
            lemma_align_up(pos, 8);
            AListDeanchize::Ancha::lemma_layout();
        }
        let cur: BuildCursor<Self::Ancha> = cur.align();
        let ghost at = cur.cur as int;
        proof {
            lemma_cell_from_base::<usize>(buf@, cur.buf as int, at);
        }
        let mask = usize::read_cell(buf, cur.buf + cur.cur);
        proof {
            lemma_align_up(at + 8 + 8 * (mask + 1), AListDeanchize::Ancha::spec_align() as int);
        }
        let cap = mask + 1;
        let mut arr_cur: BuildCursor<usize> = BuildCursor { cur: cur.cur + 8, buf: cur.buf, _phantom: PhantomData };
        let mut alist_cur: BuildCursor<AListDeanchize::Ancha> = arr_cur.behind(cap);
        let ghost goal = hm_walk(d, bytes, at, cap as int, 0, alist_cur.cur as int);
        let mut i: usize = 0;
        while i < cap
            invariant
                d == self.alist_deancha,
                bytes == from_base(buf@, cur.buf as int),
                cur.buf <= buf@.len() <= max_blob(),
                0 <= at,
                arr_cur.cur == hm_bucket(at, i as int),
                arr_cur.buf == cur.buf,
                alist_cur.buf == cur.buf,
                0 <= i <= cap,
                hm_walk(d, bytes, at, cap as int, i as int, alist_cur.cur as int) == goal,
                goal is Some,
                hm_bucket(at, cap as int) <= bytes.len(),
            decreases cap - i,
        {
            proof {
                lemma_cell_from_base::<usize>(buf@, cur.buf as int, hm_bucket(at, i as int));
            }
            let p = usize::read_cell(buf, arr_cur.buf + arr_cur.cur);
            if p != 0 {
                proof {
                    d.lemma_walk(bytes, alist_cur.cur as int);
                }
                alist_cur = self.alist_deancha.deanchize(buf, alist_cur);
            }
            arr_cur.inc();
            i = i + 1;
        }
        alist_cur.transmute()
    }
}

pub proof fn lemma_hm_walk_bounds<D: Deanchize>(d: D, bytes: Seq<u8>, at: int, cap: int, i: int, p: int)
    requires
        0 <= p <= bytes.len(),
        hm_walk(d, bytes, at, cap, i, p) is Some,
    ensures
        p <= hm_walk(d, bytes, at, cap, i, p)->0 <= bytes.len(),
    decreases cap - i,
{
    if i < cap && cell_at::<usize>(bytes, hm_bucket(at, i)) != 0 {
        d.lemma_walk(bytes, p);
        lemma_hm_walk_bounds(d, bytes, at, cap, i + 1, d.spec_walk(bytes, p)->0);
    } else if i < cap {
        lemma_hm_walk_bounds(d, bytes, at, cap, i + 1, p);
    }
}

} // verus!

verus! {

/// The bucket that `key` falls into in a hash map of `cap` buckets.
pub open spec fn hm_key_bucket<K: MyHash>(key: K, cap: int) -> int {
    (key.spec_my_hash() & ((cap - 1) as usize)) as int
}

/// Looking a key up in an anchized hash map searches the list of the key's
/// bucket (and finds nothing where that list is empty); that list is there.
pub proof fn lemma_hm_lookup<E: Anchize>(
    hm: HashMapAnchizeFromVec<E>,
    origin: Vec<E::Origin>,
    ctx: E::Context,
    bytes: Seq<u8>,
    pos: int,
    key: <E::Ancha as Assocs>::Key,
)
    where E::Origin: IsEmpty, E::Ancha: Assocs, <E::Ancha as Assocs>::Key: MyHash,
    requires
        0 <= pos,
        origin@.len() > 0,
        hm.spec_holds(origin, ctx, bytes, pos),
    ensures
        ({
            let at = spec_align_up(pos, 8);
            let os = origin@;
            let start = hm_start::<E::Ancha>(at, os.len() as int);
            let i = hm_key_bucket(key, os.len() as int);
            &&& 0 <= i < os.len()
            &&& os[i].spec_is_empty() ==> hm_lookup::<E::Ancha>(bytes, at, key) is None
            &&& !os[i].spec_is_empty() ==> hm_lookup::<E::Ancha>(bytes, at, key) == E::Ancha::spec_lookup(
                key,
                bytes,
                hm_slot(hm.alist_ancha, os, start, i),
            ) && hm.alist_ancha.spec_holds(os[i], ctx, bytes, hm_slot(hm.alist_ancha, os, start, i))
        }),
{
    let at = spec_align_up(pos, 8);
    let os = origin@;
    let cap = os.len() as int;
    let start = hm_start::<E::Ancha>(at, cap);
    let e = hm.alist_ancha;
    let m = (cap - 1) as usize;
    let h = key.spec_my_hash();
    let i = hm_key_bucket(key, cap);
    assert((h & m) <= m) by (bit_vector);
    lemma_align_up(pos, 8);
    E::Ancha::lemma_layout();
    lemma_align_up(at + 8 + 8 * cap, E::Ancha::spec_align() as int);
    lemma_hm_end_ge(e, os, start);
    assert(hm_bucket_holds(e, os, ctx, bytes, at, start, i));
    assert(hm_index(bytes, at, key) == i);
    if !os[i].spec_is_empty() {
        lemma_hm_whole(e, os, start);
        lemma_hm_step(e, os, start, i);
        lemma_hm_end_ge(e, os.take(i), start);
    }
}

/// Walking the lists of the buckets from bucket `i` on reaches the end of
/// the lists as laid out.
proof fn lemma_hm_walk_from<E: Anchize, D: Deanchize>(
    e: E,
    d: D,
    os: Seq<E::Origin>,
    ctx: E::Context,
    bytes: Seq<u8>,
    at: int,
    start: int,
    i: int,
)
    where E::Origin: IsEmpty,
    requires
        0 <= at,
        hm_bucket(at, os.len() as int) <= start,
        0 <= i <= os.len(),
        hm_end(e, os, start) <= bytes.len(),
        forall|j: int| 0 <= j < os.len() ==> #[trigger] hm_bucket_holds(e, os, ctx, bytes, at, start, j),
        forall|o: E::Origin, p: int|
            0 <= p && #[trigger] e.spec_holds(o, ctx, bytes, p) ==> d.spec_walk(bytes, p) == Some(e.spec_end(o, p)),
    ensures
        hm_walk(d, bytes, at, os.len() as int, i, hm_end(e, os.take(i), start)) == Some(hm_end(e, os, start)),
    decreases os.len() - i,
{
    lemma_hm_whole(e, os, start);
    if i < os.len() {
        lemma_hm_walk_from(e, d, os, ctx, bytes, at, start, i + 1);
        lemma_hm_step(e, os, start, i);
        lemma_hm_end_ge(e, os.take(i), start);
        lemma_hm_mono(e, os, start, i + 1, os.len() as int);
        assert(hm_bucket_holds(e, os, ctx, bytes, at, start, i));
        let p = hm_end(e, os.take(i), start);
        assert(hm_bucket(at, i) + 8 <= hm_bucket(at, os.len() as int));
        if !os[i].spec_is_empty() {
            let slot = hm_slot(e, os, start, i);
            e.lemma_align_start(os[i], ctx, bytes, p);
            assert(e.spec_holds(os[i], ctx, bytes, p));
            assert(d.spec_walk(bytes, p) == Some(e.spec_end(os[i], p)));
        }
    }
}

/// Deanchization walks exactly over an anchized hash map, given that it
/// does so over each list.
pub proof fn lemma_hm_walk<E: Anchize, D: Deanchize<Ancha = E::Ancha>>(
    anchize: HashMapAnchizeFromVec<E>,
    deanchize: HashMapDeanchize<D>,
    origin: Vec<E::Origin>,
    ctx: E::Context,
    bytes: Seq<u8>,
    pos: int,
)
    where E::Origin: IsEmpty,
    requires
        0 <= pos,
        anchize.spec_holds(origin, ctx, bytes, pos),
        forall|o: E::Origin, p: int|
            0 <= p && #[trigger] anchize.alist_ancha.spec_holds(o, ctx, bytes, p)
                ==> deanchize.alist_deancha.spec_walk(bytes, p) == Some(anchize.alist_ancha.spec_end(o, p)),
    ensures
        deanchize.spec_walk(bytes, pos) == Some(anchize.spec_end(origin, pos)),
{
    let os = origin@;
    let at = spec_align_up(pos, 8);
    let cap = os.len() as int;
    let start = hm_start::<E::Ancha>(at, cap);
    lemma_align_up(pos, 8);
    E::Ancha::lemma_layout();
    lemma_align_up(at + 8 + 8 * cap, E::Ancha::spec_align() as int);
    lemma_hm_end_ge(anchize.alist_ancha, os, start);
    lemma_hm_whole(anchize.alist_ancha, os, start);
    assert(cell_at::<usize>(bytes, at) + 1 == cap);
    lemma_hm_walk_from(anchize.alist_ancha, deanchize.alist_deancha, os, ctx, bytes, at, start, 0);
}

} // verus!
