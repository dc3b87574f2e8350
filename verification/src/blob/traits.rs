//! Layout by type: each blob type says how the origin it is built from is
//! reserved, laid out and walked over. Fixed-size cells are copied; a blob
//! vector lays out its length, then its elements.
use core::marker::PhantomData;
use vstd::prelude::*;

use crate::ancha::vec::{vec_walk, AnchaVec, VecAnchizeFromVec, VecDeanchize};
use crate::ancha::{
    cell_at, from_base, lemma_align_idem, lemma_align_up, lemma_write_cell, max_blob, spec_align_up,
    unchanged_outside, Anchize, BuildCursor, Cell, CopyAnchize, Deanchize, Layout, NoopDeanchize, Reserve,
};
use crate::guards::Guard;

verus! {

/// Blob types and the origins that they are built from.
pub trait Build {
    type Origin;
}

impl Build for u8 {
    type Origin = u8;
}

impl Build for usize {
    type Origin = usize;
}

impl Build for Guard {
    type Origin = Guard;
}

impl<'a, X: Build> Build for AnchaVec<'a, X> {
    type Origin = Vec<X::Origin>;
}

/// Reserving the space that an origin takes when laid out by its type.
pub trait BlobReserve: Build + Layout + Sized {
    /// The position reached after reserving `origin` from `pos` on.
    spec fn spec_reserved(origin: Self::Origin, pos: int) -> int;

    /// Reserving never goes back.
    proof fn lemma_reserved(origin: Self::Origin, pos: int)
        requires
            0 <= pos,
        ensures
            pos <= Self::spec_reserved(origin, pos),
    ;

    /// Reserve `origin`; returns where it starts (aligned for the type).
    fn reserve(origin: &Self::Origin, sz: &mut Reserve) -> (r: usize)
        requires
            Self::spec_reserved(*origin, old(sz).0 as int) <= max_blob(),
        ensures
            r == spec_align_up(old(sz).0 as int, Self::spec_align() as int),
            final(sz).0 == Self::spec_reserved(*origin, old(sz).0 as int),
    ;
}

/// Laying an origin out by its type.
pub trait BlobSerialize: Build + Layout + Sized {
    type SerializeCtx;

    /// Where the layout of `origin` from `pos` on ends.
    spec fn spec_laid_end(origin: Self::Origin, pos: int) -> int;

    /// The bytes hold `origin` laid out from `pos` on.
    spec fn spec_laid(origin: Self::Origin, bytes: Seq<u8>, pos: int) -> bool;

    /// Lay `origin` out at the cursor; returns the cursor behind it.
    fn serialize_elem(
        origin: &Self::Origin,
        buf: &mut Vec<u8>,
        cur: BuildCursor<Self>,
        ctx: &Self::SerializeCtx,
    ) -> (r: BuildCursor<()>)
        requires
            old(buf)@.len() <= max_blob(),
            cur.buf + Self::spec_laid_end(*origin, cur.cur as int) <= old(buf)@.len(),
        ensures
            r.cur == Self::spec_laid_end(*origin, cur.cur as int),
            r.buf == cur.buf,
            unchanged_outside(old(buf)@, final(buf)@, cur.buf + cur.cur, cur.buf + r.cur),
            Self::spec_laid(*origin, from_base(final(buf)@, cur.buf as int), cur.cur as int),
    ;
}

/// Walking over what a type laid out.
pub trait BlobDeserialize: Build + Layout + Sized {
    type DeserializeCtx;

    /// The position behind the structure at `pos`, where the bytes hold one.
    spec fn spec_walked(bytes: Seq<u8>, pos: int) -> Option<int>;

    /// Walk over the structure at the cursor; returns the cursor behind it.
    fn deserialize_elem(buf: &[u8], cur: BuildCursor<Self>, ctx: &Self::DeserializeCtx) -> (r: BuildCursor<()>)
        requires
            cur.buf <= buf@.len() <= max_blob(),
            Self::spec_walked(from_base(buf@, cur.buf as int), cur.cur as int) is Some,
        ensures
            r.cur == Self::spec_walked(from_base(buf@, cur.buf as int), cur.cur as int)->0,
            r.buf == cur.buf,
    ;
}

/// Where a cell reserved from `pos` on ends.
pub open spec fn cell_end<X: Layout>(pos: int) -> int {
    spec_align_up(pos, X::spec_align() as int) + X::spec_size()
}

/// Reserve one cell.
fn reserve_cell<X: Layout>(sz: &mut Reserve) -> (r: usize)
    requires
        cell_end::<X>(old(sz).0 as int) <= max_blob(),
    ensures
        r == spec_align_up(old(sz).0 as int, X::spec_align() as int),
        final(sz).0 == cell_end::<X>(old(sz).0 as int),
{
    proof {
        X::lemma_layout();
        lemma_align_up(sz.0 as int, X::spec_align() as int);
        lemma_align_idem(sz.0 as int, X::spec_align() as int);
    }
    sz.add::<X>(0);
    let r = sz.0;
    sz.add::<X>(1);
    r
}

/// Copy a cell to the cursor, aligned for it.
fn serialize_cell<X: Cell + Copy>(origin: &X, buf: &mut Vec<u8>, cur: BuildCursor<X>) -> (r: BuildCursor<()>)
    requires
        old(buf)@.len() <= max_blob(),
        cur.buf + cell_end::<X>(cur.cur as int) <= old(buf)@.len(),
    ensures
        r.cur == cell_end::<X>(cur.cur as int),
        r.buf == cur.buf,
        unchanged_outside(old(buf)@, final(buf)@, cur.buf + cur.cur, cur.buf + r.cur),
        cell_at::<X>(from_base(final(buf)@, cur.buf as int), spec_align_up(cur.cur as int, X::spec_align() as int))
            == *origin,
{
    proof {
        X::lemma_layout();
        lemma_align_up(cur.cur as int, X::spec_align() as int);
    }
    let c: BuildCursor<X> = cur.align();
    let ghost old_buf = buf@;
    origin.write_cell(buf, c.buf + c.cur);
    proof {
        lemma_write_cell::<X>(old_buf, buf@, c.buf + c.cur, *origin);
        crate::ancha::lemma_cell_from_base::<X>(buf@, c.buf as int, c.cur as int);
    }
    c.behind(1)
}

/// The position behind a cell at `pos`, where the bytes hold it.
pub open spec fn cell_walk<X: Layout>(bytes: Seq<u8>, pos: int) -> Option<int> {
    if 0 <= pos && cell_end::<X>(pos) <= bytes.len() {
        Some(cell_end::<X>(pos))
    } else {
        None
    }
}

/// Walk over a cell.
fn deserialize_cell<X: Layout>(buf: &[u8], cur: BuildCursor<X>) -> (r: BuildCursor<()>)
    requires
        cur.buf <= buf@.len() <= max_blob(),
        cell_walk::<X>(from_base(buf@, cur.buf as int), cur.cur as int) is Some,
    ensures
        r.cur == cell_end::<X>(cur.cur as int),
        r.buf == cur.buf,
{
    proof {
        X::lemma_layout();
        lemma_align_up(cur.cur as int, X::spec_align() as int);
    }
    let c: BuildCursor<X> = cur.align();
    c.behind(1)
}

impl BlobReserve for u8 {
    open spec fn spec_reserved(origin: u8, pos: int) -> int {
        cell_end::<u8>(pos)
    }

    proof fn lemma_reserved(origin: u8, pos: int) {
        u8::lemma_layout();
        lemma_align_up(pos, u8::spec_align() as int);
    }

    fn reserve(origin: &u8, sz: &mut Reserve) -> (r: usize) {
        reserve_cell::<u8>(sz)
    }
}

impl BlobSerialize for u8 {
    type SerializeCtx = ();

    open spec fn spec_laid_end(origin: u8, pos: int) -> int {
        cell_end::<u8>(pos)
    }

    open spec fn spec_laid(origin: u8, bytes: Seq<u8>, pos: int) -> bool {
        cell_at::<u8>(bytes, spec_align_up(pos, 1)) == origin
    }

    fn serialize_elem(origin: &u8, buf: &mut Vec<u8>, cur: BuildCursor<u8>, ctx: &()) -> (r: BuildCursor<()>) {
        serialize_cell(origin, buf, cur)
    }
}

impl BlobDeserialize for u8 {
    type DeserializeCtx = ();

    open spec fn spec_walked(bytes: Seq<u8>, pos: int) -> Option<int> {
        cell_walk::<u8>(bytes, pos)
    }

    fn deserialize_elem(buf: &[u8], cur: BuildCursor<u8>, ctx: &()) -> (r: BuildCursor<()>) {
        deserialize_cell(buf, cur)
    }
}

impl BlobReserve for usize {
    open spec fn spec_reserved(origin: usize, pos: int) -> int {
        cell_end::<usize>(pos)
    }

    proof fn lemma_reserved(origin: usize, pos: int) {
        usize::lemma_layout();
        lemma_align_up(pos, usize::spec_align() as int);
    }

    fn reserve(origin: &usize, sz: &mut Reserve) -> (r: usize) {
        reserve_cell::<usize>(sz)
    }
}

impl BlobSerialize for usize {
    type SerializeCtx = ();

    open spec fn spec_laid_end(origin: usize, pos: int) -> int {
        cell_end::<usize>(pos)
    }

    open spec fn spec_laid(origin: usize, bytes: Seq<u8>, pos: int) -> bool {
        cell_at::<usize>(bytes, spec_align_up(pos, 8)) == origin
    }

    fn serialize_elem(origin: &usize, buf: &mut Vec<u8>, cur: BuildCursor<usize>, ctx: &()) -> (r: BuildCursor<()>) {
        serialize_cell(origin, buf, cur)
    }
}

impl BlobDeserialize for usize {
    type DeserializeCtx = ();

    open spec fn spec_walked(bytes: Seq<u8>, pos: int) -> Option<int> {
        cell_walk::<usize>(bytes, pos)
    }

    fn deserialize_elem(buf: &[u8], cur: BuildCursor<usize>, ctx: &()) -> (r: BuildCursor<()>) {
        deserialize_cell(buf, cur)
    }
}

impl BlobReserve for Guard {
    open spec fn spec_reserved(origin: Guard, pos: int) -> int {
        cell_end::<Guard>(pos)
    }

    proof fn lemma_reserved(origin: Guard, pos: int) {
        Guard::lemma_layout();
        lemma_align_up(pos, Guard::spec_align() as int);
    }

    fn reserve(origin: &Guard, sz: &mut Reserve) -> (r: usize) {
        reserve_cell::<Guard>(sz)
    }
}

impl BlobSerialize for Guard {
    type SerializeCtx = ();

    open spec fn spec_laid_end(origin: Guard, pos: int) -> int {
        cell_end::<Guard>(pos)
    }

    open spec fn spec_laid(origin: Guard, bytes: Seq<u8>, pos: int) -> bool {
        cell_at::<Guard>(bytes, spec_align_up(pos, Guard::spec_align() as int)) == origin
    }

    fn serialize_elem(origin: &Guard, buf: &mut Vec<u8>, cur: BuildCursor<Guard>, ctx: &()) -> (r: BuildCursor<()>) {
        serialize_cell(origin, buf, cur)
    }
}

impl BlobDeserialize for Guard {
    type DeserializeCtx = ();

    open spec fn spec_walked(bytes: Seq<u8>, pos: int) -> Option<int> {
        cell_walk::<Guard>(bytes, pos)
    }

    fn deserialize_elem(buf: &[u8], cur: BuildCursor<Guard>, ctx: &()) -> (r: BuildCursor<()>) {
        deserialize_cell(buf, cur)
    }
}

/// Where reserving the elements `os` one after another from `p` on ends.
pub open spec fn seq_reserved<X: BlobReserve>(os: Seq<X::Origin>, p: int) -> int
    decreases os.len(),
{
    if os.len() == 0 {
        p
    } else {
        X::spec_reserved(os.last(), seq_reserved::<X>(os.drop_last(), p))
    }
}

proof fn lemma_seq_reserved<X: BlobReserve>(os: Seq<X::Origin>, p: int, k: int)
    requires
        0 <= p,
        0 <= k <= os.len(),
    ensures
        p <= seq_reserved::<X>(os.take(k), p) <= seq_reserved::<X>(os, p),
    decreases os.len(),
{
    if os.len() == 0 {
        assert(os.take(k) =~= os);
    } else if k == os.len() {
        assert(os.take(k) =~= os);
        lemma_seq_reserved::<X>(os.drop_last(), p, k - 1);
        assert(os.drop_last().take(k - 1) =~= os.drop_last());
        X::lemma_reserved(os.last(), seq_reserved::<X>(os.drop_last(), p));
    } else {
        lemma_seq_reserved::<X>(os.drop_last(), p, k);
        assert(os.drop_last().take(k) =~= os.take(k));
        lemma_seq_reserved::<X>(os.drop_last(), p, os.len() - 1);
        assert(os.drop_last().take(os.len() - 1) =~= os.drop_last());
        X::lemma_reserved(os.last(), seq_reserved::<X>(os.drop_last(), p));
    }
}

impl<'a, X: BlobReserve + Cell> BlobReserve for AnchaVec<'a, X> {
    open spec fn spec_reserved(origin: Vec<X::Origin>, pos: int) -> int {
        spec_align_up(seq_reserved::<X>(origin@, spec_align_up(pos, 8) + 8), X::spec_align() as int)
    }

    proof fn lemma_reserved(origin: Vec<X::Origin>, pos: int) {
        X::lemma_layout();
        lemma_align_up(pos, 8);
        lemma_seq_reserved::<X>(origin@, spec_align_up(pos, 8) + 8, 0);
        lemma_align_up(seq_reserved::<X>(origin@, spec_align_up(pos, 8) + 8), X::spec_align() as int);
    }

    /// The header, then each element as its type reserves it, then the
    /// alignment for the elements.
    fn reserve(origin: &Vec<X::Origin>, sz: &mut Reserve) -> (r: usize) {
        let ghost pos = sz.0 as int;
        let ghost start = spec_align_up(pos, 8) + 8;
        proof {
            X::lemma_layout();
            lemma_align_up(pos, 8);
            lemma_align_idem(pos, 8);
            lemma_seq_reserved::<X>(origin@, start, 0);
            lemma_seq_reserved::<X>(origin@, start, origin@.len() as int);
            assert(origin@.take(0) =~= Seq::<X::Origin>::empty());
            assert(origin@.take(origin@.len() as int) =~= origin@);
            lemma_align_up(seq_reserved::<X>(origin@, start), X::spec_align() as int);
        }
        sz.add::<Self>(0);
        let r = sz.0;
        sz.add::<Self>(1);
        let mut i: usize = 0;
        while i < origin.len()
            invariant
                0 <= start,
                i <= origin@.len(),
                sz.0 == seq_reserved::<X>(origin@.take(i as int), start),
                spec_align_up(seq_reserved::<X>(origin@, start), X::spec_align() as int) <= max_blob(),
                seq_reserved::<X>(origin@, start) <= spec_align_up(seq_reserved::<X>(origin@, start), X::spec_align() as int),
            decreases origin@.len() - i,
        {
            proof {
                lemma_seq_reserved::<X>(origin@, start, i + 1);
                assert(origin@.take(i + 1).drop_last() =~= origin@.take(i as int));
            }
            X::reserve(&origin[i], sz);
            i = i + 1;
        }
        proof {
            assert(origin@.take(origin@.len() as int) =~= origin@);
        }
        sz.add::<X>(0);
        r
    }
}

impl<'a, X: Cell + Copy + Build<Origin = X>> BlobSerialize for AnchaVec<'a, X> {
    type SerializeCtx = ();

    open spec fn spec_laid_end(origin: Vec<X>, pos: int) -> int {
        crate::ancha::vec::vec_end::<X>(spec_align_up(pos, 8), origin@.len() as int)
    }

    open spec fn spec_laid(origin: Vec<X>, bytes: Seq<u8>, pos: int) -> bool {
        let at = spec_align_up(pos, 8);
        &&& cell_at::<usize>(bytes, at) == origin@.len()
        &&& forall|i: int|
            0 <= i < origin@.len() ==> cell_at::<X>(bytes, #[trigger] crate::ancha::vec::vec_elem::<X>(at, i))
                == origin@[i]
    }

    /// The length, then each element copied, one behind the other.
    fn serialize_elem(origin: &Vec<X>, buf: &mut Vec<u8>, cur: BuildCursor<Self>, ctx: &()) -> (r: BuildCursor<()>) {
        let s = VecAnchizeFromVec::new(CopyAnchize::<X, ()>::new());
        let c: BuildCursor<AnchaVec<'static, X>> = cur.transmute();
        let r: BuildCursor<()> = s.anchize(origin, &(), buf, c);
        proof {
            let at = spec_align_up(cur.cur as int, 8);
            let bytes = from_base(buf@, cur.buf as int);
            assert forall|i: int| 0 <= i < origin@.len() implies cell_at::<X>(
                bytes,
                #[trigger] crate::ancha::vec::vec_elem::<X>(at, i),
            ) == origin@[i] by {
                assert(crate::ancha::vec::vec_holds_elem(s.elem_ancha, origin@[i], (), bytes, at, i));
            }
        }
        r
    }
}

impl<'a, X: Cell + Build> BlobDeserialize for AnchaVec<'a, X> {
    type DeserializeCtx = ();

    open spec fn spec_walked(bytes: Seq<u8>, pos: int) -> Option<int> {
        vec_walk::<X>(bytes, pos)
    }

    /// Walks over the length and the elements.
    fn deserialize_elem(buf: &[u8], cur: BuildCursor<Self>, ctx: &()) -> (r: BuildCursor<()>) {
        let d = VecDeanchize::new(NoopDeanchize::<X>::new());
        let c: BuildCursor<AnchaVec<'static, X>> = cur.transmute();
        d.deanchize(buf, c)
    }
}

/// Walking over a blob vector laid out by its type ends where the layout
/// ends.
pub proof fn lemma_blobvec_walk<'a, X: Cell + Copy + Build<Origin = X>>(origin: Vec<X>, bytes: Seq<u8>, pos: int)
    requires
        0 <= pos,
        <AnchaVec<'a, X> as BlobSerialize>::spec_laid_end(origin, pos) <= bytes.len(),
        <AnchaVec<'a, X> as BlobSerialize>::spec_laid(origin, bytes, pos),
    ensures
        <AnchaVec<'a, X> as BlobDeserialize>::spec_walked(bytes, pos) == Some(
            <AnchaVec<'a, X> as BlobSerialize>::spec_laid_end(origin, pos),
        ),
{
    lemma_align_up(pos, 8);
    crate::ancha::vec::lemma_vec_end::<X>(spec_align_up(pos, 8), origin@.len() as int);
}

/// Each value of the type reserves exactly one cell, aligned for the type.
pub open spec fn reserves_cells<X: BlobReserve>() -> bool {
    forall|o: X::Origin, p: int| 0 <= p ==> #[trigger] X::spec_reserved(o, p) == cell_end::<X>(p)
}

/// Bytes, words and guards reserve exactly one cell each.
pub proof fn lemma_cells_reserve_cells()
    ensures
        reserves_cells::<u8>(),
        reserves_cells::<usize>(),
        reserves_cells::<Guard>(),
{
}

proof fn lemma_seq_cells<X: BlobReserve + Cell>(os: Seq<X::Origin>, at: int)
    requires
        0 <= at,
        reserves_cells::<X>(),
    ensures
        os.len() == 0 ==> seq_reserved::<X>(os, at + 8) == at + 8,
        os.len() > 0 ==> seq_reserved::<X>(os, at + 8) == crate::ancha::vec::vec_end::<X>(at, os.len() as int),
    decreases os.len(),
{
    X::lemma_layout();
    let a = X::spec_align() as int;
    lemma_align_up(at + 8, a);
    if os.len() > 0 {
        let n = os.len() as int;
        lemma_seq_cells::<X>(os.drop_last(), at);
        crate::ancha::lemma_reserve_add::<X>(at + 8, n - 1);
        let e = spec_align_up(at + 8, a) + (n - 1) * X::spec_size();
        assert(n * X::spec_size() == (n - 1) * X::spec_size() + X::spec_size()) by (nonlinear_arith);
        assert(0 <= (n - 1) * X::spec_size()) by (nonlinear_arith)
            requires
                n >= 1,
        ;
        if n == 1 {
            assert(os.drop_last().len() == 0);
            assert((n - 1) * X::spec_size() == 0) by (nonlinear_arith)
                requires
                    n == 1,
            ;
        }
        assert(seq_reserved::<X>(os.drop_last(), at + 8) >= 0);
        assert(seq_reserved::<X>(os.drop_last(), at + 8) == if n == 1 { at + 8 } else { e });
    }
}

/// A blob vector of values that reserve one cell each reserves its header,
/// then exactly its elements, one behind the other.
pub proof fn lemma_blobvec_reserved<'a, X: BlobReserve + Cell>(origin: Vec<X::Origin>, pos: int)
    requires
        0 <= pos,
        reserves_cells::<X>(),
    ensures
        AnchaVec::<'a, X>::spec_reserved(origin, pos) == crate::ancha::vec::vec_end::<X>(
            spec_align_up(pos, 8),
            origin@.len() as int,
        ),
{
    X::lemma_layout();
    lemma_align_up(pos, 8);
    let at = spec_align_up(pos, 8);
    let a = X::spec_align() as int;
    lemma_seq_cells::<X>(origin@, at);
    lemma_align_up(at + 8, a);
    crate::ancha::lemma_reserve_add::<X>(at + 8, origin@.len() as int);
    if origin@.len() == 0 {
        lemma_align_idem(at + 8, a);
    }
}

} // verus!
