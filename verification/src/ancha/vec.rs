//! AnchaVec: a dynamic array stored in a blob.
//!
//! Layout: `[len: usize][padding][elem 0][elem 1]...`
use core::marker::PhantomData;
use vstd::prelude::*;

use super::{
    cell_at, from_base, lemma_align_up, lemma_cell_from_base, lemma_cell_unchanged, lemma_unchanged_cell,
    lemma_subrange_within, lemma_write_cell, max_blob, spec_align_up, unchanged_outside,
    Anchize, BuildCursor, Cell, Deanchize, Layout, Reserve, StaticAnchize, StaticDeanchize,
};

verus! {

/// A vector in a blob: the header holds the length; the elements follow,
/// aligned for their type.
pub struct AnchaVec<'a, X> {
    /// Number of elements.
    pub len: usize,
    /// The blob that holds the vector.
    pub blob: &'a [u8],
    /// Position of the header in `blob`.
    pub at: usize,
    pub _phantom: PhantomData<X>,
}

impl<'a, X> Layout for AnchaVec<'a, X> {
    open spec fn spec_size() -> nat {
        8
    }

    open spec fn spec_align() -> nat {
        8
    }

    fn size() -> (r: usize) {
        8
    }

    fn align() -> (r: usize) {
        8
    }

    proof fn lemma_layout() {
    }
}

/// Position of the first element of a vector whose header is at `at`.
pub open spec fn vec_elems<X: Layout>(at: int) -> int {
    spec_align_up(at + 8, X::spec_align() as int)
}

/// Position of element `i` of a vector whose header is at `at`.
pub open spec fn vec_elem<X: Layout>(at: int, i: int) -> int {
    vec_elems::<X>(at) + i * X::spec_size()
}

/// Position behind a vector of `len` elements whose header is at `at`.
pub open spec fn vec_end<X: Layout>(at: int, len: int) -> int {
    vec_elem::<X>(at, len)
}

pub proof fn lemma_vec_elem<X: Layout>(at: int, i: int, len: int)
    requires
        0 <= at,
        0 <= i < len,
    ensures
        at + 8 <= vec_elems::<X>(at) <= vec_elem::<X>(at, i),
        vec_elem::<X>(at, i) + X::spec_size() <= vec_end::<X>(at, len),
{
    X::lemma_layout();
    lemma_align_up(at + 8, X::spec_align() as int);
    assert(i * X::spec_size() + X::spec_size() <= len * X::spec_size()) by (nonlinear_arith)
        requires
            0 <= i < len,
    ;
    assert(0 <= i * X::spec_size()) by (nonlinear_arith)
        requires
            0 <= i,
    ;
}

pub proof fn lemma_vec_end<X: Layout>(at: int, len: int)
    requires
        0 <= at,
        0 <= len,
    ensures
        at + 8 <= vec_elems::<X>(at) <= vec_end::<X>(at, len),
{
    X::lemma_layout();
    lemma_align_up(at + 8, X::spec_align() as int);
    assert(0 <= len * X::spec_size()) by (nonlinear_arith)
        requires
            0 <= len,
    ;
}

impl<'a, X: Cell> AnchaVec<'a, X> {
    /// Element `i` as stored in the blob.
    pub open spec fn spec_elem(&self, i: int) -> X {
        cell_at::<X>(self.blob@, vec_elem::<X>(self.at as int, i))
    }

    /// The vector lies inside its blob.
    pub open spec fn wf(&self) -> bool {
        &&& vec_end::<X>(self.at as int, self.len as int) <= self.blob@.len()
        &&& self.blob@.len() <= max_blob()
    }

    /// The elements as stored in the blob.
    pub open spec fn spec_elems(&self) -> Seq<X> {
        Seq::new(self.len as nat, |i: int| self.spec_elem(i))
    }

    /// The vector whose header is at `at`.
    pub fn from_blob(blob: &'a [u8], at: usize) -> (r: Self)
        requires
            at + 8 <= blob@.len(),
        ensures
            r.len == cell_at::<usize>(blob@, at as int),
            r.blob@ == blob@,
            r.at == at,
    {
        let len = usize::read_cell(blob, at);
        AnchaVec { len, blob, at, _phantom: PhantomData }
    }

    /// Get an element by index.
    pub fn get(&self, ix: usize) -> (r: X)
        requires
            self.wf(),
            ix < self.len,
        ensures
            r == self.spec_elem(ix as int),
    {
        proof {
            lemma_vec_elem::<X>(self.at as int, ix as int, self.len as int);
            X::lemma_layout();
        }
        let start = super::align_up(self.at + 8, X::align());
        X::read_cell(self.blob, start + ix * X::size())
    }

    /// All elements, in order.
    pub fn as_ref(&self) -> (r: Vec<X>)
        requires
            self.wf(),
        ensures
            r@ == self.spec_elems(),
    {
        let mut r: Vec<X> = Vec::new();
        let mut i: usize = 0;
        while i < self.len
            invariant
                self.wf(),
                i <= self.len,
                r@.len() == i,
                forall|j: int| 0 <= j < i ==> r@[j] == self.spec_elem(j),
            decreases self.len - i,
        {
            r.push(self.get(i));
            i = i + 1;
        }
        assert(r@ =~= self.spec_elems());
        r
    }

    /// Position behind the elements, aligned for `After`.
    pub fn behind<After: Layout>(&self) -> (r: usize)
        requires
            self.wf(),
        ensures
            r == spec_align_up(
                vec_end::<X>(self.at as int, self.len as int),
                After::spec_align() as int,
            ),
    {
        proof {
            lemma_vec_end::<X>(self.at as int, self.len as int);
            After::lemma_layout();
            X::lemma_layout();
        }
        let start = super::align_up(self.at + 8, X::align());
        super::align_up(start + self.len * X::size(), After::align())
    }

    /// Iterator over the elements.
    pub fn iter(&self) -> (r: AnchaVecIter<'a, X>)
        requires
            self.wf(),
        ensures
            r.vec == *self,
            r.ix == 0,
    {
        AnchaVecIter { vec: AnchaVec { len: self.len, blob: self.blob, at: self.at, _phantom: PhantomData }, ix: 0 }
    }
}

/// Iterator over the elements of an `AnchaVec`.
pub struct AnchaVecIter<'a, X> {
    pub vec: AnchaVec<'a, X>,
    pub ix: usize,
}

impl<'a, X: Cell> AnchaVecIter<'a, X> {
    /// The next element, if any.
    pub fn next(&mut self) -> (r: Option<X>)
        requires
            old(self).vec.wf(),
            old(self).ix <= old(self).vec.len,
        ensures
            final(self).vec == old(self).vec,
            old(self).ix < old(self).vec.len ==> r == Some(old(self).vec.spec_elem(old(self).ix as int))
                && final(self).ix == old(self).ix + 1,
            old(self).ix >= old(self).vec.len ==> r is None && final(self).ix == old(self).ix,
    {
        if self.ix < self.vec.len {
            let x = self.vec.get(self.ix);
            self.ix = self.ix + 1;
            Some(x)
        } else {
            None
        }
    }
}


/// Anchization of a `Vec` into an `AnchaVec`, each element by `elem_ancha`.
pub struct VecAnchizeFromVec<ElemAnchize> {
    pub elem_ancha: ElemAnchize,
}

impl<ElemAnchize> VecAnchizeFromVec<ElemAnchize> {
    pub fn new(elem_ancha: ElemAnchize) -> (r: Self)
        ensures
            r.elem_ancha == elem_ancha,
    {
        VecAnchizeFromVec { elem_ancha }
    }
}

impl<ElemAnchize: Default> Default for VecAnchizeFromVec<ElemAnchize> {
    fn default() -> Self {
        VecAnchizeFromVec { elem_ancha: ElemAnchize::default() }
    }
}

/// Element `i` of a vector at `pos` holds the anchized image of `o`.
pub open spec fn vec_holds_elem<E: StaticAnchize>(
    elem: E,
    o: E::Origin,
    ctx: E::Context,
    bytes: Seq<u8>,
    at: int,
    i: int,
) -> bool {
    cell_at::<E::Ancha>(bytes, vec_elem::<E::Ancha>(at, i)) == elem.spec_anchize_static(o, ctx)
}

/// Reserving a vector takes its header, aligned for the header, then its
/// elements, aligned for their type: what `reserve` reserves from `pos` ends
/// at the aligned header's position plus the header's size, aligned for an
/// element, plus the length times an element's size; so at least the header
/// and the elements.
pub proof fn lemma_vec_reserve_size<E: StaticAnchize>(v: VecAnchizeFromVec<E>, origin: Vec<E::Origin>, pos: int)
    requires
        0 <= pos,
    ensures
        v.spec_end(origin, pos) == spec_align_up(
            spec_align_up(pos, AnchaVec::<'static, E::Ancha>::spec_align() as int)
                + AnchaVec::<'static, E::Ancha>::spec_size(),
            E::Ancha::spec_align() as int,
        ) + origin@.len() * E::Ancha::spec_size(),
        v.spec_end(origin, pos) >= spec_align_up(pos, AnchaVec::<'static, E::Ancha>::spec_align() as int)
            + AnchaVec::<'static, E::Ancha>::spec_size() + origin@.len() * E::Ancha::spec_size(),
{
    E::Ancha::lemma_layout();
    lemma_align_up(pos, 8);
    lemma_align_up(spec_align_up(pos, 8) + 8, E::Ancha::spec_align() as int);
}

impl<ElemAnchize: StaticAnchize> Anchize for VecAnchizeFromVec<ElemAnchize> {
    type Origin = Vec<ElemAnchize::Origin>;

    type Context = ElemAnchize::Context;

    type Ancha = AnchaVec<'static, ElemAnchize::Ancha>;

    open spec fn spec_accepts(&self, origin: Self::Origin, context: Self::Context) -> bool {
        forall|i: int| 0 <= i < origin@.len() ==> self.elem_ancha.spec_accepts(origin@[i], context)
    }

    open spec fn spec_end(&self, origin: Self::Origin, pos: int) -> int {
        vec_end::<ElemAnchize::Ancha>(spec_align_up(pos, 8), origin@.len() as int)
    }

    open spec fn spec_holds(
        &self,
        origin: Self::Origin,
        context: Self::Context,
        bytes: Seq<u8>,
        pos: int,
    ) -> bool {
        let at = spec_align_up(pos, 8);
        &&& self.spec_end(origin, pos) <= bytes.len()
        &&& cell_at::<usize>(bytes, at) == origin@.len()
        &&& forall|i: int|
            0 <= i < origin@.len() ==> vec_holds_elem(self.elem_ancha, #[trigger] origin@[i], context, bytes, at, i)
    }

    proof fn lemma_align_start(
        &self,
        origin: Self::Origin,
        context: Self::Context,
        bytes: Seq<u8>,
        pos: int,
    ) {
        super::lemma_align_idem(pos, 8);
    }

    proof fn lemma_end(&self, origin: Self::Origin, pos: int) {
        lemma_align_up(pos, 8);
        lemma_vec_end::<ElemAnchize::Ancha>(spec_align_up(pos, 8), origin@.len() as int);
    }

    proof fn lemma_frame(
        &self,
        origin: Self::Origin,
        context: Self::Context,
        b1: Seq<u8>,
        b2: Seq<u8>,
        pos: int,
    ) {
        let at = spec_align_up(pos, 8);
        let end = self.spec_end(origin, pos);
        let len = origin@.len() as int;
        lemma_align_up(pos, 8);
        lemma_vec_end::<ElemAnchize::Ancha>(at, len);
        lemma_subrange_within(b1, b2, pos, end, at, at + 8);
        assert forall|i: int| 0 <= i < len implies vec_holds_elem(
            self.elem_ancha,
            #[trigger] origin@[i],
            context,
            b2,
            at,
            i,
        ) by {
            assert(vec_holds_elem(self.elem_ancha, origin@[i], context, b1, at, i));
            lemma_vec_elem::<ElemAnchize::Ancha>(at, i, len);
            let p = vec_elem::<ElemAnchize::Ancha>(at, i);
            lemma_subrange_within(b1, b2, pos, end, p, p + ElemAnchize::Ancha::spec_size());
        }
    }

    fn reserve(&self, origin: &Self::Origin, context: &Self::Context, sz: &mut Reserve) {
        proof {
            lemma_align_up(old(sz).0 as int, 8);
            lemma_vec_end::<ElemAnchize::Ancha>(spec_align_up(old(sz).0 as int, 8), origin@.len() as int);
            lemma_align_up(spec_align_up(old(sz).0 as int, 8), 8);
        }
        sz.add::<Self::Ancha>(0);
        proof {
            super::lemma_align_up_aligned(sz.0 as int, 8);
        }
        sz.add::<Self::Ancha>(1);
        sz.add::<ElemAnchize::Ancha>(origin.len());
    }

    fn anchize<After>(
        &self,
        origin: &Self::Origin,
        context: &Self::Context,
        buf: &mut Vec<u8>,
        cur: BuildCursor<Self::Ancha>,
    ) -> (r: BuildCursor<After>) {
        let ghost pos = cur.cur as int;
        let ghost base = cur.buf as int;
        let ghost len = origin@.len() as int;
        proof {
            lemma_align_up(pos, 8);
            lemma_vec_end::<ElemAnchize::Ancha>(spec_align_up(pos, 8), len);
            ElemAnchize::Ancha::lemma_layout();
        }
        let cur: BuildCursor<Self::Ancha> = cur.align();
        let ghost at = cur.cur as int;
        let n = origin.len();
        n.write_cell(buf, cur.buf + cur.cur);
        proof {
            lemma_write_cell::<usize>(old(buf)@, buf@, base + at, n);
        }
        let mut xcur: BuildCursor<ElemAnchize::Ancha> = cur.behind(1);
        let ghost start = xcur.cur as int;
        let mut i: usize = 0;
        while i < n
            invariant
                n == len,
                len == origin@.len(),
                0 <= base,
                0 <= pos <= at,
                at + 8 <= start,
                start == vec_elems::<ElemAnchize::Ancha>(at),
                at == spec_align_up(pos, 8),
                base + vec_end::<ElemAnchize::Ancha>(at, len) <= buf@.len(),
                buf@.len() == old(buf)@.len(),
                old(buf)@.len() <= max_blob(),
                0 <= i <= n,
                xcur.buf == base,
                xcur.cur == vec_elem::<ElemAnchize::Ancha>(at, i as int),
                self.spec_accepts(*origin, *context),
                unchanged_outside(old(buf)@, buf@, base + pos, base + xcur.cur),
                cell_at::<usize>(buf@, base + at) == len,
                forall|j: int|
                    0 <= j < i ==> #[trigger] cell_at::<ElemAnchize::Ancha>(
                        buf@,
                        base + vec_elem::<ElemAnchize::Ancha>(at, j),
                    ) == self.elem_ancha.spec_anchize_static(origin@[j], *context),
            decreases n - i,
        {
            proof {
                lemma_vec_elem::<ElemAnchize::Ancha>(at, i as int, len);
            }
            let p = xcur.buf + xcur.cur;
            let ghost before = buf@;
            let mut v = ElemAnchize::Ancha::read_cell(buf.as_slice(), p);
            self.elem_ancha.anchize_static(&origin[i], context, &mut v);
            v.write_cell(buf, p);
            proof {
                lemma_write_cell::<ElemAnchize::Ancha>(before, buf@, p as int, v);
                lemma_cell_unchanged::<usize>(before, buf@, base + at);
                assert forall|j: int| 0 <= j < i + 1 implies #[trigger] cell_at::<ElemAnchize::Ancha>(
                    buf@,
                    base + vec_elem::<ElemAnchize::Ancha>(at, j),
                ) == self.elem_ancha.spec_anchize_static(origin@[j], *context) by {
                    if j < i {
                        lemma_vec_elem::<ElemAnchize::Ancha>(at, j, len);
                        assert(vec_elem::<ElemAnchize::Ancha>(at, j) + ElemAnchize::Ancha::spec_size()
                            <= vec_elem::<ElemAnchize::Ancha>(at, i as int)) by (nonlinear_arith)
                            requires
                                j < i,
                                vec_elem::<ElemAnchize::Ancha>(at, j) == vec_elems::<ElemAnchize::Ancha>(at) + j * ElemAnchize::Ancha::spec_size(),
                                vec_elem::<ElemAnchize::Ancha>(at, i as int) == vec_elems::<ElemAnchize::Ancha>(at) + i * ElemAnchize::Ancha::spec_size(),
                        ;
                        lemma_cell_unchanged::<ElemAnchize::Ancha>(
                            before,
                            buf@,
                            base + vec_elem::<ElemAnchize::Ancha>(at, j),
                        );
                    }
                }
                assert(vec_elem::<ElemAnchize::Ancha>(at, i + 1) == vec_elem::<ElemAnchize::Ancha>(at, i as int) + ElemAnchize::Ancha::spec_size()) by (nonlinear_arith);
            }
            xcur.inc();
            i = i + 1;
        }
        proof {
            let bytes = from_base(buf@, base);
            lemma_cell_from_base::<usize>(buf@, base, at);
            assert forall|j: int| 0 <= j < len implies vec_holds_elem(
                self.elem_ancha,
                #[trigger] origin@[j],
                *context,
                bytes,
                at,
                j,
            ) by {
                lemma_vec_elem::<ElemAnchize::Ancha>(at, j, len);
                lemma_cell_from_base::<ElemAnchize::Ancha>(
                    buf@,
                    base,
                    vec_elem::<ElemAnchize::Ancha>(at, j),
                );
                assert(cell_at::<ElemAnchize::Ancha>(buf@, base + vec_elem::<ElemAnchize::Ancha>(at, j))
                    == self.elem_ancha.spec_anchize_static(origin@[j], *context));
            }
        }
        xcur.transmute()
    }
}


/// Deanchization of an `AnchaVec`, each element by `elem_deancha`.
pub struct VecDeanchize<ElemDeanchize> {
    pub elem_deancha: ElemDeanchize,
}

impl<ElemDeanchize> VecDeanchize<ElemDeanchize> {
    pub fn new(elem_deancha: ElemDeanchize) -> (r: Self)
        ensures
            r.elem_deancha == elem_deancha,
    {
        VecDeanchize { elem_deancha }
    }
}

impl<ElemDeanchize: Default> Default for VecDeanchize<ElemDeanchize> {
    fn default() -> Self {
        VecDeanchize { elem_deancha: ElemDeanchize::default() }
    }
}

/// The position behind a vector of `X` at `pos` (aligned first), if the
/// bytes hold one.
pub open spec fn vec_walk<X: Layout>(bytes: Seq<u8>, pos: int) -> Option<int> {
    let at = spec_align_up(pos, 8);
    if at + 8 > bytes.len() {
        None
    } else {
        let end = vec_end::<X>(at, cell_at::<usize>(bytes, at) as int);
        if end <= bytes.len() {
            Some(end)
        } else {
            None
        }
    }
}

impl<ElemDeanchize: StaticDeanchize> Deanchize for VecDeanchize<ElemDeanchize> {
    type Ancha = AnchaVec<'static, ElemDeanchize::Ancha>;

    open spec fn spec_walk(&self, bytes: Seq<u8>, pos: int) -> Option<int> {
        vec_walk::<ElemDeanchize::Ancha>(bytes, pos)
    }

    proof fn lemma_walk(&self, bytes: Seq<u8>, pos: int) {
        let at = spec_align_up(pos, 8);
        lemma_align_up(pos, 8);
        lemma_vec_end::<ElemDeanchize::Ancha>(at, cell_at::<usize>(bytes, at) as int);
    }

    fn deanchize<After>(&self, buf: &[u8], cur: BuildCursor<Self::Ancha>) -> (r: BuildCursor<After>) {
        let ghost bytes = from_base(buf@, cur.buf as int);
        let ghost pos = cur.cur as int;
        proof {
            lemma_align_up(pos, 8);
            ElemDeanchize::Ancha::lemma_layout();
        }
        let cur: BuildCursor<Self::Ancha> = cur.align();
        let ghost at = cur.cur as int;
        proof {
            lemma_cell_from_base::<usize>(buf@, cur.buf as int, at);
        }
        let len = usize::read_cell(buf, cur.buf + cur.cur);
        proof {
            lemma_vec_end::<ElemDeanchize::Ancha>(at, len as int);
        }
        let mut xcur: BuildCursor<ElemDeanchize::Ancha> = cur.behind(1);
        let mut i: usize = 0;
        while i < len
            invariant
                0 <= i <= len,
                xcur.buf == cur.buf,
                xcur.cur == vec_elem::<ElemDeanchize::Ancha>(at, i as int),
                0 <= at,
                cur.buf + vec_end::<ElemDeanchize::Ancha>(at, len as int) <= buf@.len(),
                buf@.len() <= max_blob(),
            decreases len - i,
        {
            proof {
                lemma_vec_elem::<ElemDeanchize::Ancha>(at, i as int, len as int);
                assert(vec_elem::<ElemDeanchize::Ancha>(at, i + 1) == vec_elem::<ElemDeanchize::Ancha>(at, i as int) + ElemDeanchize::Ancha::spec_size()) by (nonlinear_arith);
            }
            xcur.inc();
            i = i + 1;
        }
        xcur.transmute()
    }
}

/// Whether every element of the vector at `at` (from the anchor `base`)
/// can be fixed up by `d`.
pub open spec fn vec_fixable<D: StaticDeanchize>(d: D, bytes: Seq<u8>, base: int, at: int) -> bool {
    forall|i: int|
        0 <= i < cell_at::<usize>(bytes, base + at) ==> d.spec_fixable(
            #[trigger] cell_at::<D::Ancha>(bytes, base + vec_elem::<D::Ancha>(at, i)),
        )
}

/// `new` is `old` with each element of the vector at `at` (from the anchor
/// `base`) fixed up by `d`, and every other byte as it was.
pub open spec fn vec_fixed<D: StaticDeanchize>(d: D, old: Seq<u8>, new: Seq<u8>, base: int, at: int) -> bool {
    let len = cell_at::<usize>(old, base + at) as int;
    &&& new.len() == old.len()
    &&& forall|i: int|
        0 <= i < len ==> #[trigger] cell_at::<D::Ancha>(new, base + vec_elem::<D::Ancha>(at, i)) == d.spec_fix(
            cell_at::<D::Ancha>(old, base + vec_elem::<D::Ancha>(at, i)),
        )
    &&& unchanged_outside(old, new, base + vec_elems::<D::Ancha>(at), base + vec_end::<D::Ancha>(at, len))
}

impl<ElemDeanchize: StaticDeanchize> VecDeanchize<ElemDeanchize> {
    /// Deanchize the vector at the cursor and fix its elements up in place:
    /// each element becomes its fix by `elem_deancha` (a link becomes the
    /// anchor plus its offset); no other byte changes. Returns the cursor
    /// behind the vector.
    pub fn fix_up<After>(&self, buf: &mut Vec<u8>, cur: BuildCursor<AnchaVec<'static, ElemDeanchize::Ancha>>) -> (r: BuildCursor<After>)
        requires
            cur.buf <= old(buf)@.len() <= max_blob(),
            vec_walk::<ElemDeanchize::Ancha>(from_base(old(buf)@, cur.buf as int), cur.cur as int) is Some,
            vec_fixable(self.elem_deancha, old(buf)@, cur.buf as int, spec_align_up(cur.cur as int, 8)),
        ensures
            r.cur == vec_walk::<ElemDeanchize::Ancha>(from_base(old(buf)@, cur.buf as int), cur.cur as int)->0,
            r.buf == cur.buf,
            vec_fixed(self.elem_deancha, old(buf)@, final(buf)@, cur.buf as int, spec_align_up(cur.cur as int, 8)),
    {
        let ghost old_bytes = old(buf)@;
        let ghost base = cur.buf as int;
        let ghost pos = cur.cur as int;
        proof {
            lemma_align_up(pos, 8);
            ElemDeanchize::Ancha::lemma_layout();
        }
        let cur: BuildCursor<AnchaVec<'static, ElemDeanchize::Ancha>> = cur.align();
        let ghost at = cur.cur as int;
        proof {
            lemma_cell_from_base::<usize>(old_bytes, base, at);
        }
        let len = usize::read_cell(buf, cur.buf + cur.cur);
        proof {
            lemma_vec_end::<ElemDeanchize::Ancha>(at, len as int);
            lemma_cell_from_base::<usize>(old_bytes, base, at);
        }
        let mut xcur: BuildCursor<ElemDeanchize::Ancha> = cur.behind(1);
        let mut i: usize = 0;
        while i < len
            invariant
                0 <= i <= len,
                0 <= at,
                base == cur.buf,
                xcur.buf == cur.buf,
                xcur.cur == vec_elem::<ElemDeanchize::Ancha>(at, i as int),
                len == cell_at::<usize>(old_bytes, base + at),
                base + vec_end::<ElemDeanchize::Ancha>(at, len as int) <= old_bytes.len(),
                old_bytes.len() <= max_blob(),
                buf@.len() == old_bytes.len(),
                vec_fixable(self.elem_deancha, old_bytes, base, at),
                unchanged_outside(
                    old_bytes,
                    buf@,
                    base + vec_elems::<ElemDeanchize::Ancha>(at),
                    base + vec_elem::<ElemDeanchize::Ancha>(at, i as int),
                ),
                forall|j: int|
                    0 <= j < i ==> #[trigger] cell_at::<ElemDeanchize::Ancha>(
                        buf@,
                        base + vec_elem::<ElemDeanchize::Ancha>(at, j),
                    ) == self.elem_deancha.spec_fix(
                        cell_at::<ElemDeanchize::Ancha>(old_bytes, base + vec_elem::<ElemDeanchize::Ancha>(at, j)),
                    ),
            decreases len - i,
        {
            let ghost before = buf@;
            let ghost p = base + vec_elem::<ElemDeanchize::Ancha>(at, i as int);
            proof {
                lemma_vec_elem::<ElemDeanchize::Ancha>(at, i as int, len as int);
                assert(vec_elem::<ElemDeanchize::Ancha>(at, i + 1) == vec_elem::<ElemDeanchize::Ancha>(at, i as int) + ElemDeanchize::Ancha::spec_size()) by (nonlinear_arith);
                lemma_unchanged_cell::<ElemDeanchize::Ancha>(
                    old_bytes,
                    before,
                    base + vec_elems::<ElemDeanchize::Ancha>(at),
                    p,
                    p,
                );
                assert(self.elem_deancha.spec_fixable(cell_at::<ElemDeanchize::Ancha>(old_bytes, p)));
            }
            let mut x = ElemDeanchize::Ancha::read_cell(buf, xcur.buf + xcur.cur);
            self.elem_deancha.deanchize_static(&mut x);
            x.write_cell(buf, xcur.buf + xcur.cur);
            proof {
                lemma_write_cell::<ElemDeanchize::Ancha>(before, buf@, p, x);
                assert forall|j: int| 0 <= j < i + 1 implies #[trigger] cell_at::<ElemDeanchize::Ancha>(
                    buf@,
                    base + vec_elem::<ElemDeanchize::Ancha>(at, j),
                ) == self.elem_deancha.spec_fix(
                    cell_at::<ElemDeanchize::Ancha>(old_bytes, base + vec_elem::<ElemDeanchize::Ancha>(at, j)),
                ) by {
                    if j < i {
                        lemma_vec_elem::<ElemDeanchize::Ancha>(at, j, i as int);
                        lemma_unchanged_cell::<ElemDeanchize::Ancha>(
                            before,
                            buf@,
                            p,
                            p + ElemDeanchize::Ancha::spec_size(),
                            base + vec_elem::<ElemDeanchize::Ancha>(at, j),
                        );
                    }
                }
            }
            xcur.inc();
            i = i + 1;
        }
        proof {
            assert forall|j: int| 0 <= j < len implies self.elem_deancha.spec_fixable(
                #[trigger] cell_at::<ElemDeanchize::Ancha>(old_bytes, base + vec_elem::<ElemDeanchize::Ancha>(at, j)),
            ) by {}
        }
        xcur.transmute()
    }
}

/// Deanchization walks exactly over an anchized vector.
pub proof fn lemma_vec_walk<E: StaticAnchize, D: StaticDeanchize<Ancha = E::Ancha>>(
    anchize: VecAnchizeFromVec<E>,
    deanchize: VecDeanchize<D>,
    origin: Vec<E::Origin>,
    context: E::Context,
    bytes: Seq<u8>,
    pos: int,
)
    requires
        0 <= pos,
        anchize.spec_holds(origin, context, bytes, pos),
    ensures
        deanchize.spec_walk(bytes, pos) == Some(anchize.spec_end(origin, pos)),
{
    lemma_align_up(pos, 8);
    lemma_vec_end::<E::Ancha>(spec_align_up(pos, 8), origin@.len() as int);
}

/// A vector read back from the blob holds the images of the origin's elements.
pub proof fn lemma_vec_read<'a, E: StaticAnchize>(
    anchize: VecAnchizeFromVec<E>,
    origin: Vec<E::Origin>,
    context: E::Context,
    vec: AnchaVec<'a, E::Ancha>,
)
    requires
        anchize.spec_holds(origin, context, vec.blob@, vec.at as int),
        vec.at as int % 8 == 0,
        vec.len == cell_at::<usize>(vec.blob@, vec.at as int),
        vec.blob@.len() <= max_blob(),
    ensures
        vec.wf(),
        vec.len == origin@.len(),
        vec.spec_elems() == origin@.map_values(|o: E::Origin| anchize.elem_ancha.spec_anchize_static(o, context)),
{
    super::lemma_align_up_aligned(vec.at as int, 8);
    assert(vec.spec_elems() =~= origin@.map_values(|o: E::Origin| anchize.elem_ancha.spec_anchize_static(o, context))) by {
        assert forall|i: int| 0 <= i < origin@.len() implies vec.spec_elems()[i] == anchize.elem_ancha.spec_anchize_static(origin@[i], context) by {
            assert(vec_holds_elem(anchize.elem_ancha, origin@[i], context, vec.blob@, vec.at as int, i));
        }
    }
}

} // verus!
