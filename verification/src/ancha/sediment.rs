//! AnchaSediment: a packed array of variable-sized elements.
//!
//! Layout: `[len: usize][elem 0][elem 1]...`, each element laid out right
//! behind the previous one.
use core::marker::PhantomData;
use vstd::prelude::*;

use super::{
    cell_at, from_base, lemma_align_up, lemma_cell_from_base, lemma_cell_unchanged,
    lemma_seq_end, lemma_seq_frame, lemma_seq_push, lemma_seq_walk, lemma_seq_walk_bounds,
    lemma_write_cell, max_blob, seq_end, seq_holds, seq_walk, spec_align_up, unchanged_outside,
    Anchize, BuildCursor, Cell, Deanchize, Layout, Reserve,
};

verus! {

/// A packed array in a blob: the header holds the number of elements.
pub struct AnchaSediment<'a, X> {
    /// Number of elements.
    pub len: usize,
    pub blob: &'a [u8],
    /// Position of the header.
    pub at: usize,
    pub _phantom: PhantomData<X>,
}

impl<'a, X> Layout for AnchaSediment<'a, X> {
    open spec fn spec_size() -> nat {
        8
    }

    open spec fn spec_align() -> nat {
        8
    }

    fn size() -> (r: usize) {
        8
    }

    fn align() -> (r: usize) {
        8
    }

    proof fn lemma_layout() {
    }
}

impl<'a, X> AnchaSediment<'a, X> {
    /// The sediment whose header is at `at`.
    pub fn from_blob(blob: &'a [u8], at: usize) -> (r: Self)
        requires
            at + 8 <= blob@.len(),
        ensures
            r.len == cell_at::<usize>(blob@, at as int),
            r.blob@ == blob@,
            r.at == at,
    {
        let len = usize::read_cell(blob, at);
        AnchaSediment { len, blob, at, _phantom: PhantomData }
    }

    /// Position of the first element (right behind the header).
    pub fn first(&self) -> (r: usize)
        requires
            self.at + 8 <= usize::MAX,
        ensures
            r == self.at + 8,
    {
        self.at + 8
    }
}

/// Position of the first element of a sediment of `X` whose header is at `at`.
pub open spec fn sediment_first<X: Layout>(pos: int) -> int {
    spec_align_up(spec_align_up(pos, 8) + 8, X::spec_align() as int)
}

/// Anchization of a `Vec` into an `AnchaSediment`, each element by `elem_ancha`.
pub struct SedimentAnchizeFromVec<ElemAnchize> {
    pub elem_ancha: ElemAnchize,
}

impl<ElemAnchize> SedimentAnchizeFromVec<ElemAnchize> {
    pub fn new(elem_ancha: ElemAnchize) -> (r: Self)
        ensures
            r.elem_ancha == elem_ancha,
    {
        SedimentAnchizeFromVec { elem_ancha }
    }
}

impl<ElemAnchize: Default> Default for SedimentAnchizeFromVec<ElemAnchize> {
    fn default() -> Self {
        SedimentAnchizeFromVec { elem_ancha: ElemAnchize::default() }
    }
}

pub proof fn lemma_sediment_first<X: Layout>(pos: int)
    requires
        0 <= pos,
    ensures
        pos <= spec_align_up(pos, 8),
        spec_align_up(pos, 8) + 8 <= sediment_first::<X>(pos),
        spec_align_up(pos, 8) % 8 == 0,
        sediment_first::<X>(pos) <= pos + 8 + 8 + X::spec_align(),
{
    X::lemma_layout();
    lemma_align_up(pos, 8);
    lemma_align_up(spec_align_up(pos, 8) + 8, X::spec_align() as int);
}

impl<ElemAnchize: Anchize> Anchize for SedimentAnchizeFromVec<ElemAnchize> {
    type Origin = Vec<ElemAnchize::Origin>;

    type Context = ElemAnchize::Context;

    type Ancha = AnchaSediment<'static, ElemAnchize::Ancha>;

    open spec fn spec_accepts(&self, origin: Self::Origin, context: Self::Context) -> bool {
        forall|i: int| 0 <= i < origin@.len() ==> self.elem_ancha.spec_accepts(origin@[i], context)
    }

    open spec fn spec_end(&self, origin: Self::Origin, pos: int) -> int {
        seq_end(self.elem_ancha, origin@, sediment_first::<ElemAnchize::Ancha>(pos))
    }

    open spec fn spec_holds(
        &self,
        origin: Self::Origin,
        context: Self::Context,
        bytes: Seq<u8>,
        pos: int,
    ) -> bool {
        &&& self.spec_end(origin, pos) <= bytes.len()
        &&& cell_at::<usize>(bytes, spec_align_up(pos, 8)) == origin@.len()
        &&& seq_holds(
            self.elem_ancha,
            origin@,
            context,
            bytes,
            sediment_first::<ElemAnchize::Ancha>(pos),
        )
    }

    proof fn lemma_align_start(
        &self,
        origin: Self::Origin,
        context: Self::Context,
        bytes: Seq<u8>,
        pos: int,
    ) {
        super::lemma_align_idem(pos, 8);
    }

    proof fn lemma_end(&self, origin: Self::Origin, pos: int) {
        lemma_sediment_first::<ElemAnchize::Ancha>(pos);
        lemma_seq_end(self.elem_ancha, origin@, sediment_first::<ElemAnchize::Ancha>(pos), 0);
    }

    proof fn lemma_frame(
        &self,
        origin: Self::Origin,
        context: Self::Context,
        b1: Seq<u8>,
        b2: Seq<u8>,
        pos: int,
    ) {
        let at = spec_align_up(pos, 8);
        let first = sediment_first::<ElemAnchize::Ancha>(pos);
        let end = self.spec_end(origin, pos);
        lemma_sediment_first::<ElemAnchize::Ancha>(pos);
        lemma_seq_end(self.elem_ancha, origin@, first, 0);
        super::lemma_subrange_within(b1, b2, pos, end, at, at + 8);
        super::lemma_subrange_within(b1, b2, pos, end, first, end);
        lemma_seq_frame(self.elem_ancha, origin@, context, b1, b2, first);
    }

    fn reserve(&self, origin: &Self::Origin, context: &Self::Context, sz: &mut Reserve) {
        let ghost pos = old(sz).0 as int;
        let ghost first = sediment_first::<ElemAnchize::Ancha>(pos);
        proof {
            lemma_sediment_first::<ElemAnchize::Ancha>(pos);
            lemma_seq_end(self.elem_ancha, origin@, first, 0);
            lemma_align_up(spec_align_up(pos, 8), 8);
        }
        sz.add::<Self::Ancha>(0);
        proof {
            super::lemma_align_up_aligned(sz.0 as int, 8);
        }
        sz.add::<Self::Ancha>(1);
        proof {
            ElemAnchize::Ancha::lemma_layout();
            lemma_align_up(sz.0 as int, ElemAnchize::Ancha::spec_align() as int);
        }
        sz.add::<ElemAnchize::Ancha>(0);
        let n = origin.len();
        let mut i: usize = 0;
        while i < n
            invariant
                n == origin@.len(),
                0 <= i <= n,
                0 <= first,
                sz.0 == seq_end(self.elem_ancha, origin@.take(i as int), first),
                seq_end(self.elem_ancha, origin@, first) <= max_blob(),
            decreases n - i,
        {
            proof {
                lemma_seq_end(self.elem_ancha, origin@, first, i + 1);
                lemma_seq_push(self.elem_ancha, origin@.take(i as int), origin@[i as int], first);
                assert(origin@.take(i as int).push(origin@[i as int]) =~= origin@.take(i + 1));
            }
            self.elem_ancha.reserve(&origin[i], context, sz);
            i = i + 1;
        }
        proof {
            assert(origin@.take(n as int) =~= origin@);
        }
    }

    fn anchize<After>(
        &self,
        origin: &Self::Origin,
        context: &Self::Context,
        buf: &mut Vec<u8>,
        cur: BuildCursor<Self::Ancha>,
    ) -> (r: BuildCursor<After>) {
        let ghost pos = cur.cur as int;
        let ghost base = cur.buf as int;
        let ghost first = sediment_first::<ElemAnchize::Ancha>(pos);
        let ghost os = origin@;
        proof {
            lemma_sediment_first::<ElemAnchize::Ancha>(pos);
            lemma_seq_end(self.elem_ancha, os, first, 0);
        }
        let cur: BuildCursor<Self::Ancha> = cur.align();
        let ghost at = cur.cur as int;
        let n = origin.len();
        n.write_cell(buf, cur.buf + cur.cur);
        proof {
            lemma_write_cell::<usize>(old(buf)@, buf@, base + at, n);
            assert(os.take(0) =~= Seq::<ElemAnchize::Origin>::empty());
        }
        let mut xcur: BuildCursor<ElemAnchize::Ancha> = cur.behind(1);
        let mut i: usize = 0;
        while i < n
            invariant
                n == os.len(),
                os == origin@,
                0 <= base,
                0 <= pos <= at,
                at == spec_align_up(pos, 8),
                at + 8 <= first,
                first == sediment_first::<ElemAnchize::Ancha>(pos),
                base + seq_end(self.elem_ancha, os, first) <= buf@.len(),
                buf@.len() == old(buf)@.len(),
                old(buf)@.len() <= max_blob(),
                0 <= i <= n,
                xcur.buf == base,
                xcur.cur == seq_end(self.elem_ancha, os.take(i as int), first),
                self.spec_accepts(*origin, *context),
                unchanged_outside(old(buf)@, buf@, base + pos, base + xcur.cur),
                cell_at::<usize>(buf@, base + at) == n,
                seq_holds(self.elem_ancha, os.take(i as int), *context, from_base(buf@, base), first),
            decreases n - i,
        {
            let ghost before = buf@;
            let ghost p = xcur.cur as int;
            proof {
                lemma_seq_end(self.elem_ancha, os, first, i + 1);
                lemma_seq_push(self.elem_ancha, os.take(i as int), os[i as int], first);
                assert(os.take(i as int).push(os[i as int]) =~= os.take(i + 1));
                lemma_seq_end(self.elem_ancha, os, first, i as int);
                self.elem_ancha.lemma_end(os[i as int], p);
                assert(first <= p);
            }
            xcur = self.elem_ancha.anchize(&origin[i], context, buf, xcur);
            proof {
                assert(unchanged_outside(old(buf)@, buf@, base + pos, base + xcur.cur));
                lemma_cell_unchanged::<usize>(before, buf@, base + at);
                let v1 = from_base(before, base);
                let v2 = from_base(buf@, base);
                assert(v1.subrange(first, p) =~= v2.subrange(first, p));
                lemma_seq_frame(self.elem_ancha, os.take(i as int), *context, v1, v2, first);
                assert(os.take(i + 1).drop_last() =~= os.take(i as int));
                assert(os.take(i + 1).last() == os[i as int]);
            }
            i = i + 1;
        }
        proof {
            assert(os.take(n as int) =~= os);
            lemma_cell_from_base::<usize>(buf@, base, at);
        }
        xcur.transmute()
    }
}

/// Deanchization of an `AnchaSediment`, each element by `elem_deancha`.
pub struct SedimentDeanchize<ElemDeanchize> {
    pub elem_deancha: ElemDeanchize,
}

impl<ElemDeanchize> SedimentDeanchize<ElemDeanchize> {
    pub fn new(elem_deancha: ElemDeanchize) -> (r: Self)
        ensures
            r.elem_deancha == elem_deancha,
    {
        SedimentDeanchize { elem_deancha }
    }
}

impl<ElemDeanchize: Default> Default for SedimentDeanchize<ElemDeanchize> {
    fn default() -> Self {
        SedimentDeanchize { elem_deancha: ElemDeanchize::default() }
    }
}

impl<ElemDeanchize: Deanchize> Deanchize for SedimentDeanchize<ElemDeanchize> {
    type Ancha = AnchaSediment<'static, ElemDeanchize::Ancha>;

    open spec fn spec_walk(&self, bytes: Seq<u8>, pos: int) -> Option<int> {
        let at = spec_align_up(pos, 8);
        if at + 8 > bytes.len() || sediment_first::<ElemDeanchize::Ancha>(pos) > bytes.len() {
            None
        } else {
            seq_walk(
                self.elem_deancha,
                bytes,
                sediment_first::<ElemDeanchize::Ancha>(pos),
                cell_at::<usize>(bytes, at) as nat,
            )
        }
    }

    proof fn lemma_walk(&self, bytes: Seq<u8>, pos: int) {
        let at = spec_align_up(pos, 8);
        lemma_sediment_first::<ElemDeanchize::Ancha>(pos);
        lemma_seq_walk_bounds(
            self.elem_deancha,
            bytes,
            sediment_first::<ElemDeanchize::Ancha>(pos),
            cell_at::<usize>(bytes, at) as nat,
        );
    }

    fn deanchize<After>(&self, buf: &[u8], cur: BuildCursor<Self::Ancha>) -> (r: BuildCursor<After>) {
        let ghost bytes = from_base(buf@, cur.buf as int);
        let ghost pos = cur.cur as int;
        let ghost first = sediment_first::<ElemDeanchize::Ancha>(pos);
        proof {
            lemma_sediment_first::<ElemDeanchize::Ancha>(pos);
        }
        let cur: BuildCursor<Self::Ancha> = cur.align();
        proof {
            lemma_cell_from_base::<usize>(buf@, cur.buf as int, cur.cur as int);
        }
        let len = usize::read_cell(buf, cur.buf + cur.cur);
        let mut xcur: BuildCursor<ElemDeanchize::Ancha> = cur.behind(1);
        let mut i: usize = 0;
        while i < len
            invariant
                0 <= i <= len,
                xcur.buf == cur.buf,
                0 <= first,
                first <= bytes.len(),
                bytes == from_base(buf@, cur.buf as int),
                cur.buf <= buf@.len() <= max_blob(),
                seq_walk(self.elem_deancha, bytes, first, len as nat) is Some,
                seq_walk(self.elem_deancha, bytes, first, i as nat) == Some(xcur.cur as int),
            decreases len - i,
        {
            proof {
                lemma_seq_walk_prefix(self.elem_deancha, bytes, first, (i + 1) as nat, len as nat);
                lemma_seq_walk_bounds(self.elem_deancha, bytes, first, i as nat);
            }
            xcur = self.elem_deancha.deanchize(buf, xcur);
            i = i + 1;
        }
        xcur.transmute()
    }
}

/// A walk that goes further also goes this far.
pub proof fn lemma_seq_walk_prefix<D: Deanchize>(d: D, bytes: Seq<u8>, pos: int, k: nat, n: nat)
    requires
        k <= n,
        seq_walk(d, bytes, pos, n) is Some,
    ensures
        seq_walk(d, bytes, pos, k) is Some,
    decreases n,
{
    if k < n {
        lemma_seq_walk_prefix(d, bytes, pos, k, (n - 1) as nat);
    }
}

/// Deanchization walks exactly over an anchized sediment, given that it does
/// so over each element.
pub proof fn lemma_sediment_walk<E: Anchize, D: Deanchize<Ancha = E::Ancha>>(
    anchize: SedimentAnchizeFromVec<E>,
    deanchize: SedimentDeanchize<D>,
    origin: Vec<E::Origin>,
    context: E::Context,
    bytes: Seq<u8>,
    pos: int,
)
    requires
        0 <= pos,
        anchize.spec_holds(origin, context, bytes, pos),
        forall|o: E::Origin, p: int|
            0 <= p && #[trigger] anchize.elem_ancha.spec_holds(o, context, bytes, p)
                ==> deanchize.elem_deancha.spec_walk(bytes, p) == Some(anchize.elem_ancha.spec_end(o, p)),
    ensures
        deanchize.spec_walk(bytes, pos) == Some(anchize.spec_end(origin, pos)),
{
    let first = sediment_first::<E::Ancha>(pos);
    lemma_sediment_first::<E::Ancha>(pos);
    lemma_seq_end(anchize.elem_ancha, origin@, first, 0);
    lemma_seq_walk(anchize.elem_ancha, deanchize.elem_deancha, origin@, context, bytes, first);
}

} // verus!
