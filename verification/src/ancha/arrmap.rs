//! AnchaArrMap: a fixed-size array of positions of values.
//!
//! Layout: `[pos 0: usize]...[pos SIZE-1: usize][value 0][value 1]...`; the
//! values follow the array one after another, and entry `i` holds where
//! value `i` starts.
use core::marker::PhantomData;
use vstd::prelude::*;

use super::{
    anchize_seq, cell_at, deanchize_seq, from_base, lemma_align_up, lemma_cell_from_base,
    lemma_seq_end, lemma_seq_holds_at, lemma_seq_walk, lemma_seq_walk_bounds, lemma_unchanged_cell,
    lemma_write_cell, max_blob, seq_at, seq_end, seq_holds, seq_walk, spec_align_up,
    unchanged_outside, Anchize, BuildCursor, Cell, Deanchize, Layout, Reserve,
};

verus! {

/// An array map in a blob.
pub struct AnchaArrMap<'a, const SIZE: usize, V> {
    pub blob: &'a [u8],
    /// Position of the array.
    pub at: usize,
    pub _phantom: PhantomData<V>,
}

/// The fixed-size head of an array map is its first entry; the other
/// entries follow it.
impl<'a, const SIZE: usize, V> Layout for AnchaArrMap<'a, SIZE, V> {
    open spec fn spec_size() -> nat {
        8
    }

    open spec fn spec_align() -> nat {
        8
    }

    fn size() -> (r: usize) {
        8
    }

    fn align() -> (r: usize) {
        8
    }

    proof fn lemma_layout() {
    }
}

/// Position of the first value of an array map of `size` entries at `at`.
pub open spec fn arrmap_start<V: Layout>(at: int, size: int) -> int {
    spec_align_up(at + 8 * size, V::spec_align() as int)
}

/// Where the parts of an array map laid out from `pos` on lie.
pub proof fn lemma_arrmap_bounds<E: Anchize>(e: E, os: Seq<E::Origin>, pos: int, size: int)
    requires
        0 <= pos,
        0 <= size,
    ensures
        pos <= spec_align_up(pos, 8) < pos + 8,
        spec_align_up(pos, 8) % 8 == 0,
        spec_align_up(pos, 8) + 8 * size <= arrmap_start::<E::Ancha>(spec_align_up(pos, 8), size),
        arrmap_start::<E::Ancha>(spec_align_up(pos, 8), size) < spec_align_up(pos, 8) + 8 * size + 16,
        arrmap_start::<E::Ancha>(spec_align_up(pos, 8), size) <= seq_end(
            e,
            os,
            arrmap_start::<E::Ancha>(spec_align_up(pos, 8), size),
        ),
        os.take(0) == Seq::<E::Origin>::empty(),
        os.take(os.len() as int) == os,
{
    let at = spec_align_up(pos, 8);
    lemma_align_up(pos, 8);
    E::Ancha::lemma_layout();
    lemma_align_up(at + 8 * size, E::Ancha::spec_align() as int);
    let start = arrmap_start::<E::Ancha>(at, size);
    lemma_seq_end(e, os, start, 0);
    assert(os.take(0) =~= Seq::<E::Origin>::empty());
    assert(os.take(os.len() as int) =~= os);
}

impl<'a, const SIZE: usize, V> AnchaArrMap<'a, SIZE, V> {
    /// The array map at `at` of `blob`.
    pub fn from_blob(blob: &'a [u8], at: usize) -> (r: Self)
        ensures
            r.blob@ == blob@,
            r.at == at,
    {
        AnchaArrMap { blob, at, _phantom: PhantomData }
    }

    /// Where value `ix` starts.
    pub fn get(&self, ix: usize) -> (r: usize)
        requires
            ix < SIZE,
            self.at + 8 * SIZE <= self.blob@.len(),
        ensures
            r == cell_at::<usize>(self.blob@, self.at + 8 * ix),
    {
        let len = self.blob.len();
        proof {
            assert(8 * ix < 8 * SIZE);
            assert(len == self.blob@.len());
        }
        usize::read_cell(self.blob, self.at + 8 * ix)
    }
}


/// Anchization of an array into an `AnchaArrMap`.
pub struct ArrMapAnchizeFromArray<const SIZE: usize, ValueAnchize> {
    pub value_ancha: ValueAnchize,
}

impl<const SIZE: usize, ValueAnchize> ArrMapAnchizeFromArray<SIZE, ValueAnchize> {
    pub fn new(value_ancha: ValueAnchize) -> (r: Self)
        ensures
            r.value_ancha == value_ancha,
    {
        ArrMapAnchizeFromArray { value_ancha }
    }
}

impl<const SIZE: usize, ValueAnchize: Default> Default for ArrMapAnchizeFromArray<SIZE, ValueAnchize> {
    fn default() -> Self {
        ArrMapAnchizeFromArray { value_ancha: ValueAnchize::default() }
    }
}

impl<const SIZE: usize, ValueAnchize: Anchize> Anchize for ArrMapAnchizeFromArray<SIZE, ValueAnchize> {
    type Origin = [ValueAnchize::Origin; SIZE];

    type Context = ValueAnchize::Context;

    type Ancha = AnchaArrMap<'static, SIZE, ValueAnchize::Ancha>;

    open spec fn spec_accepts(&self, origin: Self::Origin, context: Self::Context) -> bool {
        forall|i: int| 0 <= i < SIZE ==> self.value_ancha.spec_accepts(#[trigger] origin@[i], context)
    }

    open spec fn spec_end(&self, origin: Self::Origin, pos: int) -> int {
        seq_end(
            self.value_ancha,
            origin@,
            arrmap_start::<ValueAnchize::Ancha>(spec_align_up(pos, 8), SIZE as int),
        )
    }

    open spec fn spec_holds(
        &self,
        origin: Self::Origin,
        context: Self::Context,
        bytes: Seq<u8>,
        pos: int,
    ) -> bool {
        let at = spec_align_up(pos, 8);
        let start = arrmap_start::<ValueAnchize::Ancha>(at, SIZE as int);
        &&& self.spec_end(origin, pos) <= bytes.len()
        &&& seq_holds(self.value_ancha, origin@, context, bytes, start)
        &&& forall|i: int|
            0 <= i < SIZE ==> #[trigger] cell_at::<usize>(bytes, at + 8 * i) == seq_at(
                self.value_ancha,
                origin@,
                start,
                i,
            )
    }

    proof fn lemma_align_start(
        &self,
        origin: Self::Origin,
        context: Self::Context,
        bytes: Seq<u8>,
        pos: int,
    ) {
        super::lemma_align_idem(pos, 8);
    }

    proof fn lemma_end(&self, origin: Self::Origin, pos: int) {
        lemma_arrmap_bounds(self.value_ancha, origin@, pos, SIZE as int);
    }

    proof fn lemma_frame(
        &self,
        origin: Self::Origin,
        context: Self::Context,
        b1: Seq<u8>,
        b2: Seq<u8>,
        pos: int,
    ) {
        let at = spec_align_up(pos, 8);
        let start = arrmap_start::<ValueAnchize::Ancha>(at, SIZE as int);
        let end = self.spec_end(origin, pos);
        lemma_arrmap_bounds(self.value_ancha, origin@, pos, SIZE as int);
        lemma_seq_end(self.value_ancha, origin@, start, 0);
        assert(origin@.take(0) =~= Seq::<ValueAnchize::Origin>::empty());
        super::lemma_subrange_within(b1, b2, pos, end, start, end);
        super::lemma_seq_frame(self.value_ancha, origin@, context, b1, b2, start);
        assert forall|i: int| 0 <= i < SIZE implies #[trigger] cell_at::<usize>(b2, at + 8 * i)
            == seq_at(self.value_ancha, origin@, start, i) by {
            assert(cell_at::<usize>(b1, at + 8 * i) == seq_at(self.value_ancha, origin@, start, i));
            super::lemma_subrange_within(b1, b2, pos, end, at + 8 * i, at + 8 * i + 8);
            assert(cell_at::<usize>(b1, at + 8 * i) == cell_at::<usize>(b2, at + 8 * i));
        }
    }

    fn reserve(&self, origin: &Self::Origin, context: &Self::Context, sz: &mut Reserve) {
        let ghost pos = old(sz).0 as int;
        let ghost os = origin@;
        let ghost e = self.value_ancha;
        let ghost at = spec_align_up(pos, 8);
        let ghost start = arrmap_start::<ValueAnchize::Ancha>(at, SIZE as int);
        proof {
            lemma_arrmap_bounds(e, os, pos, SIZE as int);
            lemma_seq_end(e, os, start, os.len() as int);
            assert(os.take(os.len() as int) =~= os);
            super::lemma_align_up_aligned(at, 8);
            assert(os.take(0) =~= Seq::<ValueAnchize::Origin>::empty());
        }
        sz.add::<Self::Ancha>(0);
        sz.add::<usize>(SIZE);
        sz.add::<ValueAnchize::Ancha>(0);
        let mut i: usize = 0;
        while i < SIZE
            invariant
                os == origin@,
                os.len() == SIZE,
                e == self.value_ancha,
                0 <= start,
                0 <= i <= SIZE,
                sz.0 == seq_end(e, os.take(i as int), start),
                seq_end(e, os, start) <= max_blob(),
            decreases SIZE - i,
        {
            proof {
                ValueAnchize::Ancha::lemma_layout();
                lemma_seq_end(e, os, start, i + 1);
                lemma_seq_end(e, os, start, i as int);
                super::lemma_seq_push(e, os.take(i as int), os[i as int], start);
                assert(os.take(i as int).push(os[i as int]) =~= os.take(i + 1));
                lemma_align_up(sz.0 as int, ValueAnchize::Ancha::spec_align() as int);
                e.lemma_align_start(os[i as int], arbitrary(), Seq::empty(), sz.0 as int);
                e.lemma_end(os[i as int], spec_align_up(sz.0 as int, ValueAnchize::Ancha::spec_align() as int));
            }
            sz.add::<ValueAnchize::Ancha>(0);
            self.value_ancha.reserve(&origin[i], context, sz);
            i = i + 1;
        }
        proof {
            assert(os.take(SIZE as int) =~= os);
        }
    }

    fn anchize<After>(
        &self,
        origin: &Self::Origin,
        context: &Self::Context,
        buf: &mut Vec<u8>,
        cur: BuildCursor<Self::Ancha>,
    ) -> (r: BuildCursor<After>) {
        let ghost pos = cur.cur as int;
        let ghost base = cur.buf as int;
        let ghost os = origin@;
        let ghost e = self.value_ancha;
        let ghost at = spec_align_up(pos, 8);
        let ghost start = arrmap_start::<ValueAnchize::Ancha>(at, SIZE as int);
        proof {
            lemma_arrmap_bounds(e, os, pos, SIZE as int);
            lemma_seq_end(e, os, start, 0);
            assert(os.take(0) =~= Seq::<ValueAnchize::Origin>::empty());
        }
        let cur: BuildCursor<Self::Ancha> = cur.align();
        let tab: BuildCursor<usize> = cur.transmute();
        let vcur: BuildCursor<ValueAnchize::Ancha> = tab.behind(SIZE);
        let values = origin.as_slice();
        assert(values@ == os);
        let (vend, ats) = anchize_seq(&self.value_ancha, values, context, buf, vcur);
        let ghost b1 = buf@;
        let mut i: usize = 0;
        while i < SIZE
            invariant
                os == origin@,
                os.len() == SIZE,
                e == self.value_ancha,
                0 <= base,
                0 <= pos <= at,
                at + 8 * SIZE <= start,
                cur.cur == at,
                cur.buf == base,
                0 <= i <= SIZE,
                ats@.len() == SIZE,
                forall|j: int| 0 <= j < SIZE ==> ats@[j] == seq_at(e, os, start, j),
                buf@.len() == old(buf)@.len(),
                old(buf)@.len() <= max_blob(),
                start <= seq_end(e, os, start),
                base + seq_end(e, os, start) <= buf@.len(),
                unchanged_outside(b1, buf@, base + at, base + at + 8 * i),
                forall|j: int|
                    0 <= j < i ==> #[trigger] cell_at::<usize>(from_base(buf@, base), at + 8 * j)
                        == seq_at(e, os, start, j),
            decreases SIZE - i,
        {
            let ghost b0 = buf@;
            ats[i].write_cell(buf, cur.buf + cur.cur + 8 * i);
            proof {
                lemma_write_cell::<usize>(b0, buf@, base + at + 8 * i, ats@[i as int]);
                lemma_cell_from_base::<usize>(buf@, base, at + 8 * i);
                super::lemma_from_base_unchanged(b0, buf@, base, at + 8 * i, at + 8 * i + 8);
                assert forall|j: int| 0 <= j < i + 1 implies #[trigger] cell_at::<usize>(
                    from_base(buf@, base),
                    at + 8 * j,
                ) == seq_at(e, os, start, j) by {
                    if j < i {
                        lemma_unchanged_cell::<usize>(
                            from_base(b0, base),
                            from_base(buf@, base),
                            at + 8 * i,
                            at + 8 * i + 8,
                            at + 8 * j,
                        );
                    }
                }
            }
            i = i + 1;
        }
        proof {
            let fb1 = from_base(b1, base);
            let fb2 = from_base(buf@, base);
            let end = seq_end(e, os, start);
            super::lemma_from_base_unchanged(b1, buf@, base, at, at + 8 * SIZE);
            super::lemma_unchanged_subrange(fb1, fb2, at, at + 8 * SIZE, start, end);
            super::lemma_seq_frame(e, os, *context, fb1, fb2, start);
        }
        vend.transmute()
    }
}


/// Deanchization of an `AnchaArrMap`.
pub struct ArrMapDeanchize<const SIZE: usize, ValueDeanchize> {
    pub value_deancha: ValueDeanchize,
}

impl<const SIZE: usize, ValueDeanchize> ArrMapDeanchize<SIZE, ValueDeanchize> {
    pub fn new(value_deancha: ValueDeanchize) -> (r: Self)
        ensures
            r.value_deancha == value_deancha,
    {
        ArrMapDeanchize { value_deancha }
    }
}

impl<const SIZE: usize, ValueDeanchize: Default> Default for ArrMapDeanchize<SIZE, ValueDeanchize> {
    fn default() -> Self {
        ArrMapDeanchize { value_deancha: ValueDeanchize::default() }
    }
}

impl<const SIZE: usize, ValueDeanchize: Deanchize> Deanchize for ArrMapDeanchize<SIZE, ValueDeanchize> {
    type Ancha = AnchaArrMap<'static, SIZE, ValueDeanchize::Ancha>;

    open spec fn spec_walk(&self, bytes: Seq<u8>, pos: int) -> Option<int> {
        let start = arrmap_start::<ValueDeanchize::Ancha>(spec_align_up(pos, 8), SIZE as int);
        if start > bytes.len() {
            None
        } else {
            seq_walk(self.value_deancha, bytes, start, SIZE as nat)
        }
    }

    proof fn lemma_walk(&self, bytes: Seq<u8>, pos: int) {
        let at = spec_align_up(pos, 8);
        lemma_align_up(pos, 8);
        ValueDeanchize::Ancha::lemma_layout();
        lemma_align_up(at + 8 * SIZE, ValueDeanchize::Ancha::spec_align() as int);
        let start = arrmap_start::<ValueDeanchize::Ancha>(at, SIZE as int);
        lemma_seq_walk_bounds(self.value_deancha, bytes, start, SIZE as nat);
    }

    fn deanchize<After>(&self, buf: &[u8], cur: BuildCursor<Self::Ancha>) -> (r: BuildCursor<After>) {
        let ghost pos = cur.cur as int;
        proof {
            lemma_align_up(pos, 8);
            ValueDeanchize::Ancha::lemma_layout();
            lemma_align_up(spec_align_up(pos, 8) + 8 * SIZE, ValueDeanchize::Ancha::spec_align() as int);
        }
        let cur: BuildCursor<Self::Ancha> = cur.align();
        let tab: BuildCursor<usize> = cur.transmute();
        let vcur: BuildCursor<ValueDeanchize::Ancha> = tab.behind(SIZE);
        let r = deanchize_seq(&self.value_deancha, buf, vcur, SIZE);
        r.transmute()
    }
}

/// Deanchization walks exactly over an anchized array map, where it walks
/// exactly over each anchized value.
pub proof fn lemma_arrmap_walk<const SIZE: usize, E: Anchize, D: Deanchize<Ancha = E::Ancha>>(
    anchize: ArrMapAnchizeFromArray<SIZE, E>,
    deanchize: ArrMapDeanchize<SIZE, D>,
    origin: [E::Origin; SIZE],
    context: E::Context,
    bytes: Seq<u8>,
    pos: int,
)
    requires
        0 <= pos,
        anchize.spec_holds(origin, context, bytes, pos),
        forall|o: E::Origin, p: int|
            0 <= p && #[trigger] anchize.value_ancha.spec_holds(o, context, bytes, p)
                ==> deanchize.value_deancha.spec_walk(bytes, p) == Some(anchize.value_ancha.spec_end(o, p)),
    ensures
        deanchize.spec_walk(bytes, pos) == Some(anchize.spec_end(origin, pos)),
{
    let at = spec_align_up(pos, 8);
    let start = arrmap_start::<E::Ancha>(at, SIZE as int);
    lemma_arrmap_bounds(anchize.value_ancha, origin@, pos, SIZE as int);
    lemma_seq_end(anchize.value_ancha, origin@, start, 0);
    assert(origin@.take(0) =~= Seq::<E::Origin>::empty());
    lemma_seq_walk(anchize.value_ancha, deanchize.value_deancha, origin@, context, bytes, start);
}

/// Entry `i` of an anchized array map gives where value `i` is held.
pub proof fn lemma_arrmap_get<const SIZE: usize, E: Anchize>(
    anchize: ArrMapAnchizeFromArray<SIZE, E>,
    origin: [E::Origin; SIZE],
    context: E::Context,
    bytes: Seq<u8>,
    pos: int,
    i: int,
)
    requires
        0 <= pos,
        0 <= i < SIZE,
        anchize.spec_holds(origin, context, bytes, pos),
    ensures
        anchize.value_ancha.spec_holds(
            origin@[i],
            context,
            bytes,
            cell_at::<usize>(bytes, spec_align_up(pos, 8) + 8 * i) as int,
        ),
{
    let at = spec_align_up(pos, 8);
    let start = arrmap_start::<E::Ancha>(at, SIZE as int);
    let e = anchize.value_ancha;
    lemma_arrmap_bounds(e, origin@, pos, SIZE as int);
    lemma_seq_holds_at(e, origin@, context, bytes, start, i);
    lemma_seq_end(e, origin@, start, i);
    e.lemma_align_start(origin@[i], context, bytes, seq_end(e, origin@.take(i), start));
}

} // verus!
