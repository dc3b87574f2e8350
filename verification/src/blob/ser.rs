//! Serialization strategies as values: a strategy knows how an origin value
//! becomes its image in a blob, so strategies can be chosen, combined and
//! passed around.
use core::marker::PhantomData;
use vstd::prelude::*;

use crate::ancha::vec::{vec_walk, AnchaVec, VecAnchizeFromVec};
use crate::ancha::{
    from_base, lemma_align_up, max_blob, spec_align_up, unchanged_outside, Anchize, BuildCursor, Cell,
    Layout, Reserve, StaticAnchize,
};

verus! {

/// Serialization of a fixed-size value: the target is computed from the
/// origin.
pub trait StaticSerialization: Sized {
    type Origin;

    type Target;

    /// The origins that this strategy serializes.
    spec fn spec_accepts(&self, origin: Self::Origin) -> bool;

    /// The image of an origin.
    spec fn spec_serialize(&self, origin: Self::Origin) -> Self::Target;

    fn serialize(&self, origin: &Self::Origin, target: &mut Self::Target)
        requires
            self.spec_accepts(*origin),
        ensures
            *final(target) == self.spec_serialize(*origin),
    ;
}

/// Serialization of a structure laid out in a blob, from a position on.
pub trait DynamicSerialization: Sized {
    type Origin;

    type Target: Layout;

    spec fn spec_accepts(&self, origin: Self::Origin) -> bool;

    /// The position behind the structure laid out from `pos` on.
    spec fn spec_end(&self, origin: Self::Origin, pos: int) -> int;

    /// The blob holds the structure laid out from `pos` on.
    spec fn spec_holds(&self, origin: Self::Origin, bytes: Seq<u8>, pos: int) -> bool;

    /// The position behind the structure at `pos`, where the bytes hold one.
    spec fn spec_walk(&self, bytes: Seq<u8>, pos: int) -> Option<int>;

    proof fn lemma_end(&self, origin: Self::Origin, pos: int)
        requires
            0 <= pos,
        ensures
            pos <= self.spec_end(origin, pos),
    ;

    /// Walking over a serialized structure ends right behind it.
    proof fn lemma_walk_holds(&self, origin: Self::Origin, bytes: Seq<u8>, pos: int)
        requires
            0 <= pos,
            self.spec_holds(origin, bytes, pos),
        ensures
            self.spec_walk(bytes, pos) == Some(self.spec_end(origin, pos)),
    ;

    /// Reserves space for the structure; returns where it will start.
    fn reserve(&self, origin: &Self::Origin, sz: &mut Reserve) -> (r: usize)
        requires
            self.spec_end(*origin, old(sz).0 as int) <= max_blob(),
        ensures
            r == spec_align_up(old(sz).0 as int, Self::Target::spec_align() as int),
            final(sz).0 == self.spec_end(*origin, old(sz).0 as int),
    ;

    /// Serializes the origin at the cursor; returns the cursor behind it.
    fn serialize<After>(
        &self,
        origin: &Self::Origin,
        buf: &mut Vec<u8>,
        cur: BuildCursor<Self::Target>,
    ) -> (r: BuildCursor<After>)
        requires
            self.spec_accepts(*origin),
            cur.buf + self.spec_end(*origin, cur.cur as int) <= old(buf)@.len(),
            old(buf)@.len() <= max_blob(),
        ensures
            r.cur == self.spec_end(*origin, cur.cur as int),
            r.buf == cur.buf,
            unchanged_outside(old(buf)@, final(buf)@, cur.buf + cur.cur, cur.buf + r.cur),
            self.spec_holds(*origin, from_base(final(buf)@, cur.buf as int), cur.cur as int),
    ;

    /// Walks over the structure at the cursor; returns the cursor behind it.
    fn deserialize<After>(&self, buf: &[u8], cur: BuildCursor<Self::Target>) -> (r: BuildCursor<After>)
        requires
            cur.buf <= buf@.len() <= max_blob(),
            self.spec_walk(from_base(buf@, cur.buf as int), cur.cur as int) is Some,
        ensures
            r.cur == self.spec_walk(from_base(buf@, cur.buf as int), cur.cur as int)->0,
            r.buf == cur.buf,
    ;
}

/// Direct serialization: the image is the value itself.
pub struct DirectCopy<T>(pub PhantomData<T>);

impl<T> DirectCopy<T> {
    pub fn new() -> Self {
        DirectCopy(PhantomData)
    }
}

impl<T> Default for DirectCopy<T> {
    fn default() -> Self {
        Self::new()
    }
}

impl<T: Copy> StaticSerialization for DirectCopy<T> {
    type Origin = T;

    type Target = T;

    open spec fn spec_accepts(&self, origin: T) -> bool {
        true
    }

    open spec fn spec_serialize(&self, origin: T) -> T {
        origin
    }

    fn serialize(&self, origin: &T, target: &mut T) {
        *target = *origin;
    }
}

/// Direct serialization of bytes.
pub type U8Ser = DirectCopy<u8>;

/// Direct serialization of sizes.
pub type UsizeSer = DirectCopy<usize>;

/// Serialization that doubles a number; it serializes the numbers whose
/// double fits.
pub struct MultiplyBy2;

impl StaticSerialization for MultiplyBy2 {
    type Origin = usize;

    type Target = usize;

    open spec fn spec_accepts(&self, origin: usize) -> bool {
        origin * 2 <= usize::MAX
    }

    open spec fn spec_serialize(&self, origin: usize) -> usize {
        (origin * 2) as usize
    }

    fn serialize(&self, origin: &usize, target: &mut usize) {
        *target = *origin * 2;
    }
}

/// A fixed-size serialization, used where a structure is expected: the
/// image is one cell.
pub struct StaticToDynamic<S>(pub S);

impl<S> StaticToDynamic<S> {
    pub fn new(inner: S) -> (r: Self)
        ensures
            r.0 == inner,
    {
        StaticToDynamic(inner)
    }
}

impl<S: StaticSerialization> DynamicSerialization for StaticToDynamic<S> where S::Target: Cell {
    type Origin = S::Origin;

    type Target = S::Target;

    open spec fn spec_accepts(&self, origin: S::Origin) -> bool {
        self.0.spec_accepts(origin)
    }

    open spec fn spec_end(&self, origin: S::Origin, pos: int) -> int {
        spec_align_up(pos, S::Target::spec_align() as int) + S::Target::spec_size()
    }

    open spec fn spec_holds(&self, origin: S::Origin, bytes: Seq<u8>, pos: int) -> bool {
        let at = spec_align_up(pos, S::Target::spec_align() as int);
        &&& at + S::Target::spec_size() <= bytes.len()
        &&& crate::ancha::cell_at::<S::Target>(bytes, at) == self.0.spec_serialize(origin)
    }

    open spec fn spec_walk(&self, bytes: Seq<u8>, pos: int) -> Option<int> {
        let end = spec_align_up(pos, S::Target::spec_align() as int) + S::Target::spec_size();
        if end <= bytes.len() {
            Some(end)
        } else {
            None
        }
    }

    proof fn lemma_end(&self, origin: S::Origin, pos: int) {
        S::Target::lemma_layout();
        lemma_align_up(pos, S::Target::spec_align() as int);
    }

    proof fn lemma_walk_holds(&self, origin: S::Origin, bytes: Seq<u8>, pos: int) {
    }

    fn reserve(&self, origin: &S::Origin, sz: &mut Reserve) -> (r: usize) {
        proof {
            S::Target::lemma_layout();
            lemma_align_up(old(sz).0 as int, S::Target::spec_align() as int);
        }
        sz.add::<S::Target>(0);
        let my_addr = sz.0;
        sz.add::<S::Target>(1);
        proof {
            crate::ancha::lemma_align_up_aligned(my_addr as int, S::Target::spec_align() as int);
        }
        my_addr
    }

    fn serialize<After>(&self, origin: &S::Origin, buf: &mut Vec<u8>, cur: BuildCursor<S::Target>) -> (r:
        BuildCursor<After>) {
        let ghost b0 = buf@;
        proof {
            S::Target::lemma_layout();
            lemma_align_up(cur.cur as int, S::Target::spec_align() as int);
        }
        let at: BuildCursor<S::Target> = cur.align();
        let mut t = S::Target::read_cell(buf.as_slice(), at.buf + at.cur);
        self.0.serialize(origin, &mut t);
        t.write_cell(buf, at.buf + at.cur);
        proof {
            crate::ancha::lemma_write_cell::<S::Target>(b0, buf@, at.buf + at.cur, t);
            crate::ancha::lemma_cell_from_base::<S::Target>(buf@, at.buf as int, at.cur as int);
        }
        BuildCursor { cur: at.cur + S::Target::size(), buf: at.buf, _phantom: PhantomData }
    }

    fn deserialize<After>(&self, buf: &[u8], cur: BuildCursor<S::Target>) -> (r: BuildCursor<After>) {
        proof {
            S::Target::lemma_layout();
            lemma_align_up(cur.cur as int, S::Target::spec_align() as int);
        }
        let at: BuildCursor<S::Target> = cur.align();
        BuildCursor { cur: at.cur + S::Target::size(), buf: at.buf, _phantom: PhantomData }
    }
}

/// A fixed-size serialization seen as an anchization without context.
pub struct SerAnchize<'s, S>(pub &'s S);

impl<'s, S: StaticSerialization> StaticAnchize for SerAnchize<'s, S> where S::Target: Cell {
    type Origin = S::Origin;

    type Context = ();

    type Ancha = S::Target;

    open spec fn spec_accepts(&self, origin: S::Origin, context: ()) -> bool {
        self.0.spec_accepts(origin)
    }

    open spec fn spec_anchize_static(&self, origin: S::Origin, context: ()) -> S::Target {
        self.0.spec_serialize(origin)
    }

    fn anchize_static(&self, origin: &S::Origin, context: &(), ancha: &mut S::Target) {
        self.0.serialize(origin, ancha);
    }
}

/// Serialization of a vector, each element by `elem_ser`, as an `AnchaVec`.
pub struct BlobVecSer<ElemSer> {
    pub elem_ser: ElemSer,
}

impl<ElemSer> BlobVecSer<ElemSer> {
    pub fn new(elem_ser: ElemSer) -> (r: Self)
        ensures
            r.elem_ser == elem_ser,
    {
        BlobVecSer { elem_ser }
    }

    /// The vector anchization that lays the elements out.
    pub open spec fn vec_ancha(&self) -> VecAnchizeFromVec<SerAnchize<'_, ElemSer>> {
        VecAnchizeFromVec { elem_ancha: SerAnchize(&self.elem_ser) }
    }

    fn vec_ancha_exec(&self) -> (r: VecAnchizeFromVec<SerAnchize<'_, ElemSer>>)
        ensures
            r == self.vec_ancha(),
    {
        VecAnchizeFromVec { elem_ancha: SerAnchize(&self.elem_ser) }
    }
}

impl<ElemSer: StaticSerialization> DynamicSerialization for BlobVecSer<ElemSer> where ElemSer::Target: Cell {
    type Origin = Vec<ElemSer::Origin>;

    type Target = AnchaVec<'static, ElemSer::Target>;

    open spec fn spec_accepts(&self, origin: Vec<ElemSer::Origin>) -> bool {
        self.vec_ancha().spec_accepts(origin, ())
    }

    open spec fn spec_end(&self, origin: Vec<ElemSer::Origin>, pos: int) -> int {
        self.vec_ancha().spec_end(origin, pos)
    }

    open spec fn spec_holds(&self, origin: Vec<ElemSer::Origin>, bytes: Seq<u8>, pos: int) -> bool {
        self.vec_ancha().spec_holds(origin, (), bytes, pos)
    }

    open spec fn spec_walk(&self, bytes: Seq<u8>, pos: int) -> Option<int> {
        vec_walk::<ElemSer::Target>(bytes, pos)
    }

    proof fn lemma_end(&self, origin: Vec<ElemSer::Origin>, pos: int) {
        self.vec_ancha().lemma_end(origin, pos);
    }

    proof fn lemma_walk_holds(&self, origin: Vec<ElemSer::Origin>, bytes: Seq<u8>, pos: int) {
        lemma_align_up(pos, 8);
        crate::ancha::vec::lemma_vec_end::<ElemSer::Target>(spec_align_up(pos, 8), origin@.len() as int);
    }

    fn reserve(&self, origin: &Vec<ElemSer::Origin>, sz: &mut Reserve) -> (r: usize) {
        proof {
            lemma_align_up(old(sz).0 as int, 8);
            self.vec_ancha().lemma_end(*origin, old(sz).0 as int);
        }
        let my_addr = crate::ancha::align_up(sz.0, 8);
        self.vec_ancha_exec().reserve(origin, &(), sz);
        my_addr
    }

    fn serialize<After>(
        &self,
        origin: &Vec<ElemSer::Origin>,
        buf: &mut Vec<u8>,
        cur: BuildCursor<AnchaVec<'static, ElemSer::Target>>,
    ) -> (r: BuildCursor<After>) {
        self.vec_ancha_exec().anchize(origin, &(), buf, cur)
    }

    fn deserialize<After>(&self, buf: &[u8], cur: BuildCursor<AnchaVec<'static, ElemSer::Target>>) -> (r:
        BuildCursor<After>) {
        let ghost bytes = from_base(buf@, cur.buf as int);
        let ghost pos = cur.cur as int;
        proof {
            lemma_align_up(pos, 8);
            crate::ancha::lemma_cell_from_base::<usize>(buf@, cur.buf as int, spec_align_up(pos, 8));
            crate::ancha::vec::lemma_vec_end::<ElemSer::Target>(
                spec_align_up(pos, 8),
                crate::ancha::cell_at::<usize>(bytes, spec_align_up(pos, 8)) as int,
            );
            ElemSer::Target::lemma_layout();
        }
        let at: BuildCursor<AnchaVec<'static, ElemSer::Target>> = cur.align();
        let len = usize::read_cell(buf, at.buf + at.cur);
        let start = crate::ancha::align_up(at.cur + 8, ElemSer::Target::align());
        BuildCursor { cur: start + len * ElemSer::Target::size(), buf: at.buf, _phantom: PhantomData }
    }
}

} // verus!
