//! Ancha: composable serialization of data structures into blobs.
//!
//! A blob is a byte buffer. Every structure is laid out at a position that
//! is measured from the blob's anchor (`BuildCursor::buf`), and every link
//! inside a blob is stored as such a relative offset, so a blob can be moved
//! without rewriting it.

use core::marker::PhantomData;
use vstd::prelude::*;

pub mod cells;
pub mod vec;
pub mod tupellum;
pub mod sediment;
pub mod flagellum;
pub mod list;
pub mod assoc_list;
pub mod hashmap;
pub mod arrmap;
pub mod listmap;
pub mod vecmap;
pub mod bdd;
pub mod combined;

verus! {

/// Blobs stay this far below `usize::MAX`, so cursor arithmetic inside a blob
/// never overflows.
pub open spec fn max_blob() -> int {
    usize::MAX - 0x1_0000
}

/// The alignments that blob cells use.
pub open spec fn valid_align(a: nat) -> bool {
    a == 1 || a == 2 || a == 4 || a == 8 || a == 16
}

/// The smallest multiple of `align` that is at least `addr`.
pub open spec fn spec_align_up(addr: int, align: int) -> int {
    ((addr + align - 1) / align) * align
}

pub proof fn lemma_align_up(addr: int, align: int)
    requires
        addr >= 0,
        align > 0,
    ensures
        addr <= spec_align_up(addr, align) < addr + align,
        spec_align_up(addr, align) % align == 0,
{
    let y = addr + align - 1;
    assert(y == (y / align) * align + y % align) by (nonlinear_arith)
        requires align > 0;
    assert(0 <= y % align < align) by (nonlinear_arith)
        requires align > 0;
    assert(((y / align) * align) % align == 0) by (nonlinear_arith)
        requires align > 0;
}

/// Aligning an aligned address changes nothing.
pub proof fn lemma_align_up_aligned(addr: int, align: int)
    requires
        addr >= 0,
        align > 0,
        addr % align == 0,
    ensures
        spec_align_up(addr, align) == addr,
{
    lemma_align_up(addr, align);
    let r = spec_align_up(addr, align);
    assert(r == addr) by (nonlinear_arith)
        requires
            addr <= r < addr + align,
            r % align == 0,
            addr % align == 0,
            align > 0,
    {
        assert(r - addr == (r / align - addr / align) * align);
    }
}

/// Align an address up to the given alignment.
pub fn align_up(addr: usize, align: usize) -> (r: usize)
    requires
        align > 0,
        addr + align - 1 <= usize::MAX,
    ensures
        r == spec_align_up(addr as int, align as int),
{
    let y: usize = addr + (align - 1);
    proof {
        assert((y / align) * align <= y) by (nonlinear_arith)
            requires align > 0;
    }
    (y / align) * align
}


/// `old` with `bytes` written over it from position `at` on.
pub open spec fn splice(old: Seq<u8>, at: int, bytes: Seq<u8>) -> Seq<u8> {
    old.subrange(0, at) + bytes + old.subrange(at + bytes.len(), old.len() as int)
}

/// The blob seen from its anchor: positions inside a blob are measured from `base`.
pub open spec fn from_base(bytes: Seq<u8>, base: int) -> Seq<u8> {
    bytes.subrange(base, bytes.len() as int)
}

/// Write `bytes` into `buf` from position `at` on.
pub fn write_bytes(buf: &mut Vec<u8>, at: usize, bytes: &[u8])
    requires
        at + bytes@.len() <= old(buf)@.len(),
    ensures
        final(buf)@ == splice(old(buf)@, at as int, bytes@),
{
    let n = bytes.len();
    let len = buf.len();
    let mut i: usize = 0;
    while i < n
        invariant
            n == bytes@.len(),
            0 <= i <= n,
            at + n <= buf@.len(),
            buf@.len() == old(buf)@.len(),
            len == buf@.len(),
            forall|j: int| 0 <= j < at ==> buf@[j] == old(buf)@[j],
            forall|j: int| at + n <= j < buf@.len() ==> buf@[j] == old(buf)@[j],
            forall|j: int| at + i <= j < at + n ==> buf@[j] == old(buf)@[j],
            forall|j: int| 0 <= j < i ==> buf@[at + j] == bytes@[j],
        decreases n - i,
    {
        buf.set(at + i, bytes[i]);
        i = i + 1;
    }
    assert(buf@ =~= splice(old(buf)@, at as int, bytes@));
}

/// Size and alignment of a type laid out in a blob.
pub trait Layout {
    spec fn spec_size() -> nat;

    spec fn spec_align() -> nat;

    fn size() -> (r: usize)
        ensures
            r == Self::spec_size(),
    ;

    fn align() -> (r: usize)
        ensures
            r == Self::spec_align(),
    ;

    proof fn lemma_layout()
        ensures
            valid_align(Self::spec_align()),
            Self::spec_size() <= 0x1000,
            Self::spec_size() % Self::spec_align() == 0,
    ;
}

/// A value of fixed size that is stored inline in a blob.
pub trait Cell: Layout + Sized {
    spec fn spec_encode(v: Self) -> Seq<u8>;

    spec fn spec_decode(bytes: Seq<u8>) -> Self;

    proof fn lemma_cell(v: Self)
        ensures
            Self::spec_encode(v).len() == Self::spec_size(),
            Self::spec_decode(Self::spec_encode(v)) == v,
            Self::spec_size() % Self::spec_align() == 0,
    ;

    /// Read the value stored at `at`.
    fn read_cell(buf: &[u8], at: usize) -> (r: Self)
        requires
            at + Self::spec_size() <= buf@.len(),
        ensures
            r == Self::spec_decode(buf@.subrange(at as int, at + Self::spec_size())),
    ;

    /// Store the value at `at`.
    fn write_cell(&self, buf: &mut Vec<u8>, at: usize)
        requires
            at + Self::spec_size() <= old(buf)@.len(),
        ensures
            final(buf)@ == splice(old(buf)@, at as int, Self::spec_encode(*self)),
    ;
}

/// The value of type `X` stored at position `at` of `bytes`.
pub open spec fn cell_at<X: Cell>(bytes: Seq<u8>, at: int) -> X {
    X::spec_decode(bytes.subrange(at, at + X::spec_size()))
}


/// Two byte sequences that agree on a range agree on every range inside it.
pub proof fn lemma_subrange_within(b1: Seq<u8>, b2: Seq<u8>, lo: int, hi: int, a: int, e: int)
    requires
        0 <= lo <= a <= e <= hi,
        hi <= b1.len(),
        hi <= b2.len(),
        b1.subrange(lo, hi) == b2.subrange(lo, hi),
    ensures
        b1.subrange(a, e) == b2.subrange(a, e),
{
    assert forall|i: int| 0 <= i < e - a implies b1.subrange(a, e)[i] == b2.subrange(a, e)[i] by {
        assert(b1.subrange(lo, hi)[a - lo + i] == b2.subrange(lo, hi)[a - lo + i]);
        assert(b1.subrange(lo, hi)[a - lo + i] == b1[a + i]);
        assert(b2.subrange(lo, hi)[a - lo + i] == b2[a + i]);
    }
    assert(b1.subrange(a, e) =~= b2.subrange(a, e));
}

/// Space calculator: the position reached after laying out what was added.
#[derive(Clone, Copy)]
pub struct Reserve(pub usize);

impl Reserve {
    /// Add space for `n` instances of `T`, after aligning for `T`.
    pub fn add<T: Layout>(&mut self, n: usize)
        requires
            spec_align_up(old(self).0 as int, T::spec_align() as int) + n * T::spec_size()
                <= max_blob(),
        ensures
            final(self).0 == spec_align_up(old(self).0 as int, T::spec_align() as int) + n
                * T::spec_size(),
    {
        proof {
            T::lemma_layout();
            lemma_align_up(self.0 as int, T::spec_align() as int);
        }
        let a = align_up(self.0, T::align());
        self.0 = a + n * T::size();
    }
}

/// Build cursor: a position inside a blob, measured from the blob's anchor
/// `buf`, where a value of type `A` is (to be) laid out.
pub struct BuildCursor<A> {
    pub cur: usize,
    pub buf: usize,
    pub _phantom: PhantomData<A>,
}

impl<A> Clone for BuildCursor<A> {
    fn clone(&self) -> (r: Self)
        ensures
            r.cur == self.cur,
            r.buf == self.buf,
    {
        BuildCursor { cur: self.cur, buf: self.buf, _phantom: PhantomData }
    }
}

impl<A> BuildCursor<A> {
    /// A cursor at the anchor `buf` of a blob.
    pub fn new(buf: usize) -> (r: Self)
        ensures
            r.cur == 0,
            r.buf == buf,
    {
        BuildCursor { cur: 0, buf, _phantom: PhantomData }
    }

    /// The same position, for a value of another type.
    pub fn transmute<B>(&self) -> (r: BuildCursor<B>)
        ensures
            r.cur == self.cur,
            r.buf == self.buf,
    {
        BuildCursor { cur: self.cur, buf: self.buf, _phantom: PhantomData }
    }

    /// A cursor at the absolute position `at` of the same blob.
    pub fn goto<B>(&self, at: usize) -> (r: BuildCursor<B>)
        requires
            self.buf <= at,
        ensures
            r.cur == at - self.buf,
            r.buf == self.buf,
    {
        BuildCursor { cur: at - self.buf, buf: self.buf, _phantom: PhantomData }
    }

    /// The position aligned for `B`.
    pub fn align<B: Layout>(&self) -> (r: BuildCursor<B>)
        requires
            self.cur <= max_blob(),
        ensures
            r.cur == spec_align_up(self.cur as int, B::spec_align() as int),
            r.buf == self.buf,
    {
        proof {
            B::lemma_layout();
        }
        BuildCursor { cur: align_up(self.cur, B::align()), buf: self.buf, _phantom: PhantomData }
    }
}

/// Values reserved one behind the other (`Reserve::add`) end aligned for
/// their type, so that reserving none more changes nothing.
pub proof fn lemma_reserve_add<T: Layout>(pos: int, n: int)
    requires
        0 <= pos,
        0 <= n,
    ensures
        ({
            let a = T::spec_align() as int;
            let r = spec_align_up(pos, a) + n * T::spec_size();
            &&& pos <= r
            &&& r % a == 0
            &&& spec_align_up(r, a) + 0 * T::spec_size() == r
        }),
{
    T::lemma_layout();
    let a = T::spec_align() as int;
    let sz = T::spec_size() as int;
    lemma_align_up(pos, a);
    let b = spec_align_up(pos, a);
    let r = b + n * sz;
    assert(r % a == 0) by (nonlinear_arith)
        requires
            a > 0,
            b % a == 0,
            sz % a == 0,
            n >= 0,
            sz >= 0,
            r == b + n * sz,
    {
        assert(b == (b / a) * a);
        assert(sz == (sz / a) * a);
        assert(r == (b / a + n * (sz / a)) * a);
    }
    assert(n * sz >= 0) by (nonlinear_arith)
        requires
            n >= 0,
            sz >= 0,
    ;
    lemma_align_up_aligned(r, a);
}

/// On a cursor aligned for its type, moving by one value is moving behind
/// one value.
pub proof fn lemma_inc_is_behind<T: Layout>(cur: int)
    requires
        0 <= cur,
        cur % (T::spec_align() as int) == 0,
    ensures
        cur + T::spec_size() == spec_align_up(cur + 1 * T::spec_size(), T::spec_align() as int),
{
    T::lemma_layout();
    lemma_reserve_add::<T>(cur, 1);
    lemma_align_up_aligned(cur, T::spec_align() as int);
}

impl<A: Layout> BuildCursor<A> {
    /// The position behind `n` values of type `A`, aligned for `B`.
    pub fn behind<B: Layout>(&self, n: usize) -> (r: BuildCursor<B>)
        requires
            self.cur + n * A::spec_size() <= max_blob(),
        ensures
            r.cur == spec_align_up(self.cur + n * A::spec_size(), B::spec_align() as int),
            r.buf == self.buf,
    {
        proof {
            B::lemma_layout();
        }
        let end = self.cur + n * A::size();
        BuildCursor { cur: align_up(end, B::align()), buf: self.buf, _phantom: PhantomData }
    }

    /// Advance by one value of type `A`.
    pub fn inc(&mut self)
        requires
            old(self).cur + A::spec_size() <= max_blob(),
        ensures
            final(self).cur == old(self).cur + A::spec_size(),
            final(self).buf == old(self).buf,
    {
        self.cur = self.cur + A::size();
    }
}

/// Converts offsets that are relative to a blob's anchor into absolute positions.
#[derive(Clone, Copy)]
pub struct Shifter(pub usize);

impl Shifter {
    /// Turn the offset in `x` into an absolute position.
    pub fn shift(&self, x: &mut usize)
        requires
            self.0 + *old(x) <= usize::MAX,
        ensures
            *final(x) == self.0 + *old(x),
    {
        *x = self.0 + *x;
    }
}

/// The position behind a value of type `A` at `a`, aligned for `B`.
pub fn get_behind_struct<A: Layout, B: Layout>(a: usize) -> (r: usize)
    requires
        a + A::spec_size() <= max_blob(),
    ensures
        r == spec_align_up(a + A::spec_size(), B::spec_align() as int),
{
    proof {
        B::lemma_layout();
    }
    align_up(a + A::size(), B::align())
}


/// `new` agrees with `old` everywhere outside `[lo, hi)`.
pub open spec fn unchanged_outside(old: Seq<u8>, new: Seq<u8>, lo: int, hi: int) -> bool {
    &&& new.len() == old.len()
    &&& forall|i: int| 0 <= i < old.len() && !(lo <= i < hi) ==> new[i] == old[i]
}

/// Anchization: lays an origin value out in a blob.
///
/// `spec_end` is the position right behind the laid-out structure and
/// `spec_holds` says that a blob holds the structure at a position. Both
/// positions are measured from the blob's anchor.
pub trait Anchize: Sized {
    type Origin;

    type Context;

    type Ancha: Layout;

    /// The origins (in a context) that this strategy lays out.
    spec fn spec_accepts(&self, origin: Self::Origin, context: Self::Context) -> bool;

    spec fn spec_end(&self, origin: Self::Origin, pos: int) -> int;

    spec fn spec_holds(
        &self,
        origin: Self::Origin,
        context: Self::Context,
        bytes: Seq<u8>,
        pos: int,
    ) -> bool;

    proof fn lemma_end(&self, origin: Self::Origin, pos: int)
        requires
            0 <= pos,
        ensures
            pos <= self.spec_end(origin, pos),
    ;

    /// The structure starts by aligning itself for its own type.
    proof fn lemma_align_start(
        &self,
        origin: Self::Origin,
        context: Self::Context,
        bytes: Seq<u8>,
        pos: int,
    )
        requires
            0 <= pos,
        ensures
            self.spec_end(origin, pos) == self.spec_end(
                origin,
                spec_align_up(pos, Self::Ancha::spec_align() as int),
            ),
            self.spec_holds(origin, context, bytes, pos) == self.spec_holds(
                origin,
                context,
                bytes,
                spec_align_up(pos, Self::Ancha::spec_align() as int),
            ),
    ;

    /// Holding depends only on the bytes of the structure itself.
    proof fn lemma_frame(
        &self,
        origin: Self::Origin,
        context: Self::Context,
        b1: Seq<u8>,
        b2: Seq<u8>,
        pos: int,
    )
        requires
            0 <= pos,
            self.spec_end(origin, pos) <= b1.len(),
            self.spec_end(origin, pos) <= b2.len(),
            b1.subrange(pos, self.spec_end(origin, pos)) == b2.subrange(
                pos,
                self.spec_end(origin, pos),
            ),
            self.spec_holds(origin, context, b1, pos),
        ensures
            self.spec_holds(origin, context, b2, pos),
    ;

    /// Reserve space for the structure.
    fn reserve(&self, origin: &Self::Origin, context: &Self::Context, sz: &mut Reserve)
        requires
            self.spec_end(*origin, old(sz).0 as int) <= max_blob(),
        ensures
            final(sz).0 == self.spec_end(*origin, old(sz).0 as int),
    ;

    /// Lay the origin out at the cursor; returns the cursor behind it.
    fn anchize<After>(
        &self,
        origin: &Self::Origin,
        context: &Self::Context,
        buf: &mut Vec<u8>,
        cur: BuildCursor<Self::Ancha>,
    ) -> (r: BuildCursor<After>)
        requires
            self.spec_accepts(*origin, *context),
            cur.buf + self.spec_end(*origin, cur.cur as int) <= old(buf)@.len(),
            old(buf)@.len() <= max_blob(),
        ensures
            r.cur == self.spec_end(*origin, cur.cur as int),
            r.buf == cur.buf,
            unchanged_outside(old(buf)@, final(buf)@, cur.buf + cur.cur, cur.buf + r.cur),
            self.spec_holds(*origin, *context, from_base(final(buf)@, cur.buf as int), cur.cur as int),
    ;
}

/// Reserve space for `origin` as laid out by `e`; returns where it starts:
/// the reserved size so far, aligned for the structure's type.
pub fn reserve_addr<E: Anchize>(e: &E, origin: &E::Origin, context: &E::Context, sz: &mut Reserve) -> (r: usize)
    requires
        e.spec_end(*origin, old(sz).0 as int) <= max_blob(),
    ensures
        r == spec_align_up(old(sz).0 as int, E::Ancha::spec_align() as int),
        final(sz).0 == e.spec_end(*origin, old(sz).0 as int),
{
    proof {
        e.lemma_end(*origin, sz.0 as int);
        E::Ancha::lemma_layout();
    }
    let r = align_up(sz.0, E::Ancha::align());
    e.reserve(origin, context, sz);
    r
}

/// Deanchization: walks over a structure laid out in a blob and finds the
/// position behind it. The walk leaves the bytes as they are: links stay
/// offsets from the blob's anchor, which the readers of a blob take. The
/// links of a vector are fixed up in place by `VecDeanchize::fix_up`.
pub trait Deanchize: Sized {
    type Ancha: Layout;

    /// The position behind the structure at `pos`, or `None` where the bytes
    /// do not hold a complete structure.
    spec fn spec_walk(&self, bytes: Seq<u8>, pos: int) -> Option<int>;

    proof fn lemma_walk(&self, bytes: Seq<u8>, pos: int)
        requires
            0 <= pos,
            self.spec_walk(bytes, pos) is Some,
        ensures
            pos <= self.spec_walk(bytes, pos)->0 <= bytes.len(),
    ;

    fn deanchize<After>(&self, buf: &[u8], cur: BuildCursor<Self::Ancha>) -> (r: BuildCursor<After>)
        requires
            cur.buf <= buf@.len() <= max_blob(),
            self.spec_walk(from_base(buf@, cur.buf as int), cur.cur as int) is Some,
        ensures
            r.cur == self.spec_walk(from_base(buf@, cur.buf as int), cur.cur as int)->0,
            r.buf == cur.buf,
    ;
}

/// Static anchization: a fixed-size value computed from the origin.
pub trait StaticAnchize: Sized {
    type Origin;

    type Context;

    type Ancha: Cell;

    spec fn spec_accepts(&self, origin: Self::Origin, context: Self::Context) -> bool;

    spec fn spec_anchize_static(&self, origin: Self::Origin, context: Self::Context) -> Self::Ancha;

    fn anchize_static(&self, origin: &Self::Origin, context: &Self::Context, ancha: &mut Self::Ancha)
        requires
            self.spec_accepts(*origin, *context),
        ensures
            *final(ancha) == self.spec_anchize_static(*origin, *context),
    ;
}

/// Static deanchization of a fixed-size value: a value that holds no offset
/// is kept; a link, an offset from the blob's anchor, becomes the absolute
/// position, the anchor plus the offset.
pub trait StaticDeanchize: Sized {
    type Ancha: Cell;

    /// The values that can be fixed up without overflow.
    spec fn spec_fixable(&self, old: Self::Ancha) -> bool;

    /// The value after the fix-up.
    spec fn spec_fix(&self, old: Self::Ancha) -> Self::Ancha;

    fn deanchize_static(&self, ancha: &mut Self::Ancha)
        requires
            self.spec_fixable(*old(ancha)),
        ensures
            *final(ancha) == self.spec_fix(*old(ancha)),
    ;
}

/// Direct copy: the default anchization of a fixed-size value.
pub struct CopyAnchize<T, Ctx>(pub PhantomData<(T, Ctx)>);

impl<T, Ctx> CopyAnchize<T, Ctx> {
    pub fn new() -> Self {
        CopyAnchize(PhantomData)
    }
}

impl<T, Ctx> Default for CopyAnchize<T, Ctx> {
    fn default() -> Self {
        CopyAnchize(PhantomData)
    }
}

impl<T: Cell + Copy, Ctx> StaticAnchize for CopyAnchize<T, Ctx> {
    type Origin = T;

    type Context = Ctx;

    type Ancha = T;

    open spec fn spec_accepts(&self, origin: T, context: Ctx) -> bool {
        true
    }

    open spec fn spec_anchize_static(&self, origin: T, context: Ctx) -> T {
        origin
    }

    fn anchize_static(&self, origin: &T, context: &Ctx, ancha: &mut T) {
        *ancha = *origin;
    }
}

/// The deanchization of values that hold no offsets.
pub struct NoopDeanchize<T>(pub PhantomData<T>);

impl<T> NoopDeanchize<T> {
    pub fn new() -> Self {
        NoopDeanchize(PhantomData)
    }
}

impl<T> Default for NoopDeanchize<T> {
    fn default() -> Self {
        NoopDeanchize(PhantomData)
    }
}

impl<T: Cell> StaticDeanchize for NoopDeanchize<T> {
    type Ancha = T;

    open spec fn spec_fixable(&self, old: T) -> bool {
        true
    }

    open spec fn spec_fix(&self, old: T) -> T {
        old
    }

    fn deanchize_static(&self, ancha: &mut T) {
    }
}


/// Reading a cell through the anchored view reads it at the shifted position.
pub proof fn lemma_cell_from_base<X: Cell>(b: Seq<u8>, base: int, p: int)
    requires
        0 <= base,
        0 <= p,
        base + p + X::spec_size() <= b.len(),
    ensures
        cell_at::<X>(from_base(b, base), p) == cell_at::<X>(b, base + p),
{
    assert(from_base(b, base).subrange(p, p + X::spec_size()) =~= b.subrange(
        base + p,
        base + p + X::spec_size(),
    ));
}

/// Aligning twice is aligning once.
pub proof fn lemma_align_idem(addr: int, align: int)
    requires
        addr >= 0,
        align > 0,
    ensures
        spec_align_up(spec_align_up(addr, align), align) == spec_align_up(addr, align),
{
    lemma_align_up(addr, align);
    lemma_align_up_aligned(spec_align_up(addr, align), align);
}

/// A cell reads back what was written into it.
pub proof fn lemma_write_cell<X: Cell>(old: Seq<u8>, new: Seq<u8>, at: int, v: X)
    requires
        0 <= at,
        at + X::spec_size() <= old.len(),
        new == splice(old, at, X::spec_encode(v)),
    ensures
        new.len() == old.len(),
        cell_at::<X>(new, at) == v,
        unchanged_outside(old, new, at, at + X::spec_size()),
{
    X::lemma_cell(v);
    assert(new.subrange(at, at + X::spec_size()) =~= X::spec_encode(v));
}

/// A cell whose bytes are unchanged reads the same.
pub proof fn lemma_cell_unchanged<X: Cell>(old: Seq<u8>, new: Seq<u8>, at: int)
    requires
        0 <= at,
        at + X::spec_size() <= old.len(),
        at + X::spec_size() <= new.len(),
        forall|i: int| at <= i < at + X::spec_size() ==> new[i] == old[i],
    ensures
        cell_at::<X>(new, at) == cell_at::<X>(old, at),
{
    assert(new.subrange(at, at + X::spec_size()) =~= old.subrange(at, at + X::spec_size()));
}

/// Unchanged bytes stay unchanged in the anchored view.
pub proof fn lemma_from_base_unchanged(old: Seq<u8>, new: Seq<u8>, base: int, lo: int, hi: int)
    requires
        0 <= base <= old.len(),
        unchanged_outside(old, new, base + lo, base + hi),
    ensures
        unchanged_outside(from_base(old, base), from_base(new, base), lo, hi),
{
}


/// Bytes left unchanged outside `[lo, hi)` keep every range that lies
/// before `lo` or behind `hi`.
pub proof fn lemma_unchanged_subrange(b1: Seq<u8>, b2: Seq<u8>, lo: int, hi: int, a: int, e: int)
    requires
        unchanged_outside(b1, b2, lo, hi),
        0 <= a <= e <= b1.len(),
        e <= lo || hi <= a,
    ensures
        b1.subrange(a, e) == b2.subrange(a, e),
{
    assert(b1.subrange(a, e) =~= b2.subrange(a, e));
}

/// A cell outside the changed range reads the same.
pub proof fn lemma_unchanged_cell<X: Cell>(b1: Seq<u8>, b2: Seq<u8>, lo: int, hi: int, at: int)
    requires
        unchanged_outside(b1, b2, lo, hi),
        0 <= at,
        at + X::spec_size() <= b1.len(),
        at + X::spec_size() <= lo || hi <= at,
    ensures
        cell_at::<X>(b2, at) == cell_at::<X>(b1, at),
{
    lemma_unchanged_subrange(b1, b2, lo, hi, at, at + X::spec_size());
}

/// A structure outside the changed range still holds.
pub proof fn lemma_unchanged_holds<E: Anchize>(
    e: E,
    o: E::Origin,
    ctx: E::Context,
    b1: Seq<u8>,
    b2: Seq<u8>,
    lo: int,
    hi: int,
    p: int,
)
    requires
        unchanged_outside(b1, b2, lo, hi),
        0 <= p,
        e.spec_end(o, p) <= b1.len(),
        e.spec_end(o, p) <= lo || hi <= p,
        e.spec_holds(o, ctx, b1, p),
    ensures
        e.spec_holds(o, ctx, b2, p),
{
    e.lemma_end(o, p);
    lemma_unchanged_subrange(b1, b2, lo, hi, p, e.spec_end(o, p));
    e.lemma_frame(o, ctx, b1, b2, p);
}

/// Position behind the origins `os`, laid out one after another from `pos` on.
pub open spec fn seq_end<E: Anchize>(e: E, os: Seq<E::Origin>, pos: int) -> int
    decreases os.len(),
{
    if os.len() == 0 {
        pos
    } else {
        e.spec_end(os.last(), seq_end(e, os.drop_last(), pos))
    }
}

/// The bytes hold the origins `os`, laid out one after another from `pos` on.
pub open spec fn seq_holds<E: Anchize>(
    e: E,
    os: Seq<E::Origin>,
    context: E::Context,
    bytes: Seq<u8>,
    pos: int,
) -> bool
    decreases os.len(),
{
    if os.len() == 0 {
        true
    } else {
        seq_holds(e, os.drop_last(), context, bytes, pos) && e.spec_holds(
            os.last(),
            context,
            bytes,
            seq_end(e, os.drop_last(), pos),
        )
    }
}

/// Position behind `n` structures walked over one after another from `pos` on.
pub open spec fn seq_walk<D: Deanchize>(d: D, bytes: Seq<u8>, pos: int, n: nat) -> Option<int>
    decreases n,
{
    if n == 0 {
        Some(pos)
    } else {
        match seq_walk(d, bytes, pos, (n - 1) as nat) {
            Some(p) => d.spec_walk(bytes, p),
            None => None,
        }
    }
}

pub proof fn lemma_seq_end<E: Anchize>(e: E, os: Seq<E::Origin>, pos: int, k: int)
    requires
        0 <= pos,
        0 <= k <= os.len(),
    ensures
        pos <= seq_end(e, os.take(k), pos) <= seq_end(e, os, pos),
    decreases os.len(),
{
    if os.len() == 0 {
        assert(os.take(k) =~= os);
    } else if k == os.len() {
        assert(os.take(k) =~= os);
        lemma_seq_end(e, os.drop_last(), pos, k - 1);
        e.lemma_end(os.last(), seq_end(e, os.drop_last(), pos));
    } else {
        lemma_seq_end(e, os.drop_last(), pos, k);
        assert(os.drop_last().take(k) =~= os.take(k));
        lemma_seq_end(e, os.drop_last(), pos, os.len() - 1);
        assert(os.drop_last().take(os.len() - 1) =~= os.drop_last());
        e.lemma_end(os.last(), seq_end(e, os.drop_last(), pos));
    }
}

/// Holding a sequence depends only on its own bytes.
pub proof fn lemma_seq_frame<E: Anchize>(
    e: E,
    os: Seq<E::Origin>,
    context: E::Context,
    b1: Seq<u8>,
    b2: Seq<u8>,
    pos: int,
)
    requires
        0 <= pos,
        seq_end(e, os, pos) <= b1.len(),
        seq_end(e, os, pos) <= b2.len(),
        b1.subrange(pos, seq_end(e, os, pos)) == b2.subrange(pos, seq_end(e, os, pos)),
        seq_holds(e, os, context, b1, pos),
    ensures
        seq_holds(e, os, context, b2, pos),
    decreases os.len(),
{
    if os.len() > 0 {
        let p = seq_end(e, os.drop_last(), pos);
        let end = seq_end(e, os, pos);
        lemma_seq_end(e, os, pos, os.len() - 1);
        assert(os.take(os.len() - 1) =~= os.drop_last());
        e.lemma_end(os.last(), p);
        lemma_subrange_within(b1, b2, pos, end, pos, p);
        lemma_seq_frame(e, os.drop_last(), context, b1, b2, pos);
        lemma_subrange_within(b1, b2, pos, end, p, end);
        e.lemma_frame(os.last(), context, b1, b2, p);
    }
}

/// Extending a sequence by one structure laid out behind it.
pub proof fn lemma_seq_push<E: Anchize>(e: E, os: Seq<E::Origin>, o: E::Origin, pos: int)
    ensures
        seq_end(e, os.push(o), pos) == e.spec_end(o, seq_end(e, os, pos)),
        os.push(o).drop_last() == os,
{
    assert(os.push(o).drop_last() =~= os);
}


/// Structure `i` of a sequence held from `pos` on holds where the ones
/// before it end.
pub proof fn lemma_seq_holds_at<E: Anchize>(
    e: E,
    os: Seq<E::Origin>,
    context: E::Context,
    bytes: Seq<u8>,
    pos: int,
    i: int,
)
    requires
        0 <= i < os.len(),
        seq_holds(e, os, context, bytes, pos),
    ensures
        e.spec_holds(os[i], context, bytes, seq_end(e, os.take(i), pos)),
    decreases os.len(),
{
    if i == os.len() - 1 {
        assert(os.take(i) =~= os.drop_last());
    } else {
        lemma_seq_holds_at(e, os.drop_last(), context, bytes, pos, i);
        assert(os.drop_last().take(i) =~= os.take(i));
    }
}

/// Where structure `i` of a sequence laid out from `pos` on starts, aligned
/// for its type.
pub open spec fn seq_at<E: Anchize>(e: E, os: Seq<E::Origin>, pos: int, i: int) -> int {
    spec_align_up(seq_end(e, os.take(i), pos), E::Ancha::spec_align() as int)
}

/// Lay the origins out one after another from the cursor on; returns the
/// cursor behind them and where each of them starts.
pub fn anchize_seq<E: Anchize>(
    e: &E,
    origin: &[E::Origin],
    context: &E::Context,
    buf: &mut Vec<u8>,
    cur: BuildCursor<E::Ancha>,
) -> (r: (BuildCursor<E::Ancha>, Vec<usize>))
    requires
        forall|i: int| 0 <= i < origin@.len() ==> e.spec_accepts(#[trigger] origin@[i], *context),
        cur.buf + seq_end(*e, origin@, cur.cur as int) <= old(buf)@.len(),
        old(buf)@.len() <= max_blob(),
    ensures
        r.0.cur == seq_end(*e, origin@, cur.cur as int),
        r.0.buf == cur.buf,
        r.1@.len() == origin@.len(),
        forall|i: int| 0 <= i < origin@.len() ==> r.1@[i] == seq_at(*e, origin@, cur.cur as int, i),
        unchanged_outside(old(buf)@, final(buf)@, cur.buf + cur.cur, cur.buf + r.0.cur),
        seq_holds(*e, origin@, *context, from_base(final(buf)@, cur.buf as int), cur.cur as int),
{
    let ghost pos = cur.cur as int;
    let ghost base = cur.buf as int;
    let ghost os = origin@;
    proof {
        lemma_seq_end(*e, os, pos, 0);
        assert(os.take(0) =~= Seq::<E::Origin>::empty());
        E::Ancha::lemma_layout();
    }
    let n = origin.len();
    let mut xcur = cur.clone();
    let mut at: Vec<usize> = Vec::new();
    let mut i: usize = 0;
    while i < n
        invariant
            n == os.len(),
            os == origin@,
            0 <= base,
            0 <= pos,
            cur.cur == pos,
            cur.buf == base,
            base + seq_end(*e, os, pos) <= buf@.len(),
            buf@.len() == old(buf)@.len(),
            old(buf)@.len() <= max_blob(),
            0 <= i <= n,
            xcur.buf == base,
            xcur.cur == seq_end(*e, os.take(i as int), pos),
            forall|j: int| 0 <= j < os.len() ==> e.spec_accepts(#[trigger] os[j], *context),
            at@.len() == i,
            forall|j: int| 0 <= j < i ==> at@[j] == seq_at(*e, os, pos, j),
            unchanged_outside(old(buf)@, buf@, base + pos, base + xcur.cur),
            seq_holds(*e, os.take(i as int), *context, from_base(buf@, base), pos),
        decreases n - i,
    {
        let ghost before = buf@;
        let ghost p = xcur.cur as int;
        proof {
            E::Ancha::lemma_layout();
            lemma_seq_end(*e, os, pos, i + 1);
            lemma_seq_push(*e, os.take(i as int), os[i as int], pos);
            assert(os.take(i as int).push(os[i as int]) =~= os.take(i + 1));
            lemma_seq_end(*e, os, pos, i as int);
            e.lemma_end(os[i as int], p);
            lemma_align_up(p, E::Ancha::spec_align() as int);
            e.lemma_end(os[i as int], spec_align_up(p, E::Ancha::spec_align() as int));
            e.lemma_align_start(os[i as int], *context, Seq::empty(), p);
        }
        let acur: BuildCursor<E::Ancha> = xcur.align();
        at.push(acur.cur);
        xcur = e.anchize(&origin[i], context, buf, xcur);
        proof {
            let v1 = from_base(before, base);
            let v2 = from_base(buf@, base);
            assert(v1.subrange(pos, p) =~= v2.subrange(pos, p));
            lemma_seq_frame(*e, os.take(i as int), *context, v1, v2, pos);
            assert(os.take(i + 1).drop_last() =~= os.take(i as int));
            assert(os.take(i + 1).last() == os[i as int]);
        }
        i = i + 1;
    }
    proof {
        assert(os.take(n as int) =~= os);
    }
    (xcur, at)
}

/// Walk over `n` structures laid out one after another from the cursor on.
pub fn deanchize_seq<D: Deanchize>(d: &D, buf: &[u8], cur: BuildCursor<D::Ancha>, n: usize) -> (r:
    BuildCursor<D::Ancha>)
    requires
        cur.buf <= buf@.len() <= max_blob(),
        cur.cur <= buf@.len() - cur.buf,
        seq_walk(*d, from_base(buf@, cur.buf as int), cur.cur as int, n as nat) is Some,
    ensures
        r.cur == seq_walk(*d, from_base(buf@, cur.buf as int), cur.cur as int, n as nat)->0,
        r.buf == cur.buf,
{
    let ghost bytes = from_base(buf@, cur.buf as int);
    let ghost first = cur.cur as int;
    let mut xcur = cur.clone();
    let mut i: usize = 0;
    while i < n
        invariant
            0 <= i <= n,
            xcur.buf == cur.buf,
            0 <= first <= bytes.len(),
            first == cur.cur,
            bytes == from_base(buf@, cur.buf as int),
            cur.buf <= buf@.len() <= max_blob(),
            seq_walk(*d, bytes, first, n as nat) is Some,
            seq_walk(*d, bytes, first, i as nat) == Some(xcur.cur as int),
        decreases n - i,
    {
        proof {
            sediment::lemma_seq_walk_prefix(*d, bytes, first, (i + 1) as nat, n as nat);
            lemma_seq_walk_bounds(*d, bytes, first, i as nat);
        }
        xcur = d.deanchize(buf, xcur);
        i = i + 1;
    }
    xcur
}

/// Walking over `n` structures laid out from `pos` on reaches the end of the
/// origins they were anchized from.
pub proof fn lemma_seq_walk<E: Anchize, D: Deanchize>(
    e: E,
    d: D,
    os: Seq<E::Origin>,
    context: E::Context,
    bytes: Seq<u8>,
    pos: int,
)
    requires
        0 <= pos,
        seq_holds(e, os, context, bytes, pos),
        forall|o: E::Origin, p: int|
            0 <= p && #[trigger] e.spec_holds(o, context, bytes, p) ==> d.spec_walk(bytes, p) == Some(
                e.spec_end(o, p),
            ),
    ensures
        seq_walk(d, bytes, pos, os.len()) == Some(seq_end(e, os, pos)),
    decreases os.len(),
{
    if os.len() > 0 {
        lemma_seq_walk(e, d, os.drop_last(), context, bytes, pos);
        lemma_seq_end(e, os, pos, os.len() - 1);
        assert(os.take(os.len() - 1) =~= os.drop_last());
        assert((os.len() - 1) as nat == os.drop_last().len());
    }
}

/// Walking over `n` structures laid out from `pos` on reaches the end of the
/// origins they were anchized from, given that it does so over each of them.
pub proof fn lemma_seq_walk_each<E: Anchize, D: Deanchize>(
    e: E,
    d: D,
    os: Seq<E::Origin>,
    context: E::Context,
    bytes: Seq<u8>,
    pos: int,
)
    requires
        0 <= pos,
        seq_holds(e, os, context, bytes, pos),
        forall|i: int, p: int|
            0 <= i < os.len() && 0 <= p && #[trigger] e.spec_holds(os[i], context, bytes, p) ==> d.spec_walk(bytes, p)
                == Some(e.spec_end(os[i], p)),
    ensures
        seq_walk(d, bytes, pos, os.len()) == Some(seq_end(e, os, pos)),
    decreases os.len(),
{
    if os.len() > 0 {
        let prev = os.drop_last();
        assert forall|i: int, p: int|
            0 <= i < prev.len() && 0 <= p && #[trigger] e.spec_holds(prev[i], context, bytes, p) implies d.spec_walk(
                bytes,
                p,
            ) == Some(e.spec_end(prev[i], p)) by {
            assert(prev[i] == os[i]);
        }
        lemma_seq_walk_each(e, d, prev, context, bytes, pos);
        lemma_seq_end(e, os, pos, os.len() - 1);
        assert(os.take(os.len() - 1) =~= prev);
        assert((os.len() - 1) as nat == prev.len());
        assert(os.last() == os[os.len() - 1]);
    }
}

pub proof fn lemma_seq_walk_bounds<D: Deanchize>(d: D, bytes: Seq<u8>, pos: int, n: nat)
    requires
        0 <= pos <= bytes.len(),
        seq_walk(d, bytes, pos, n) is Some,
    ensures
        pos <= seq_walk(d, bytes, pos, n)->0 <= bytes.len(),
    decreases n,
{
    if n > 0 {
        lemma_seq_walk_bounds(d, bytes, pos, (n - 1) as nat);
        d.lemma_walk(bytes, seq_walk(d, bytes, pos, (n - 1) as nat)->0);
    }
}


pub open spec fn spec_max(a: nat, b: nat) -> nat {
    if a >= b {
        a
    } else {
        b
    }
}

/// A multiple of `m` is a multiple of every divisor of `m`.
pub proof fn lemma_mod_divisor(x: int, m: int, a: int)
    requires
        x >= 0,
        a > 0,
        m > 0,
        m % a == 0,
        x % m == 0,
    ensures
        x % a == 0,
{
    let k = x / m;
    let j = m / a;
    vstd::arithmetic::div_mod::lemma_fundamental_div_mod(x, m);
    vstd::arithmetic::div_mod::lemma_fundamental_div_mod(m, a);
    assert(x == (k * j) * a) by (nonlinear_arith)
        requires
            x == m * k,
            m == a * j,
    ;
    vstd::arithmetic::div_mod::lemma_mod_multiples_basic(k * j, a);
}

/// A larger alignment is a multiple of a smaller one.
pub proof fn lemma_align_pow(m: int, a: int)
    requires
        valid_align(m as nat),
        valid_align(a as nat),
        a <= m,
        m >= 0,
        a >= 0,
    ensures
        m % a == 0,
{
    if a == 1 {
        assert(m % 1 == 0);
    } else if a == 2 {
        assert(m == 2 || m == 4 || m == 8 || m == 16);
    } else if a == 4 {
        assert(m == 4 || m == 8 || m == 16);
    } else if a == 8 {
        assert(m == 8 || m == 16);
    }
}

/// A position aligned for the larger of two alignments is aligned for both.
/// Aligning stays at or below a bound that is itself aligned.
pub proof fn lemma_align_up_le(x: int, m: int, a: int)
    requires
        0 <= x <= m,
        a > 0,
        m % a == 0,
    ensures
        spec_align_up(x, a) <= m,
{
    lemma_align_up(x, a);
    let r = spec_align_up(x, a);
    assert(r <= m) by (nonlinear_arith)
        requires
            r % a == 0,
            m % a == 0,
            r < x + a,
            x <= m,
            a > 0,
            r >= 0,
            m >= 0,
    {
        let q1 = r / a;
        let q2 = m / a;
        assert(r == q1 * a);
        assert(m == q2 * a);
        if q1 > q2 {
            assert(q1 * a >= (q2 + 1) * a);
        }
    }
}

pub proof fn lemma_align_divides(x: int, a: nat, b: nat)
    requires
        valid_align(a),
        valid_align(b),
        x >= 0,
        x % (spec_max(a, b) as int) == 0,
    ensures
        x % (a as int) == 0,
        x % (b as int) == 0,
        spec_align_up(x, a as int) == x,
        spec_align_up(x, b as int) == x,
{
    let m = spec_max(a, b) as int;
    lemma_align_pow(m, a as int);
    lemma_align_pow(m, b as int);
    lemma_mod_divisor(x, m, a as int);
    lemma_mod_divisor(x, m, b as int);
    lemma_align_up_aligned(x, a as int);
    lemma_align_up_aligned(x, b as int);
}

pub proof fn lemma_valid_align_max(a: nat, b: nat)
    requires
        valid_align(a),
        valid_align(b),
    ensures
        valid_align(spec_max(a, b)),
{
}

/// Equality of cells, decided by their values.
pub trait CellEq: Cell + Copy {
    fn cell_eq(&self, other: &Self) -> (r: bool)
        ensures
            r == (*self == *other),
    ;
}

impl CellEq for u8 {
    fn cell_eq(&self, other: &u8) -> (r: bool) {
        *self == *other
    }
}

impl CellEq for u32 {
    fn cell_eq(&self, other: &u32) -> (r: bool) {
        *self == *other
    }
}

impl CellEq for usize {
    fn cell_eq(&self, other: &usize) -> (r: bool) {
        *self == *other
    }
}

/// A matcher decides which keys it matches while iterating over an
/// associative structure.
pub trait Matches<T> {
    spec fn spec_matches(&self, other: T) -> bool;

    fn matches(&self, other: &T) -> (r: bool)
        ensures
            r == self.spec_matches(*other),
    ;
}

/// Matches the keys equal to the given one.
pub struct EqMatch<'a, X>(pub &'a X);

impl<'a, X: CellEq> Matches<X> for EqMatch<'a, X> {
    open spec fn spec_matches(&self, other: X) -> bool {
        *self.0 == other
    }

    fn matches(&self, other: &X) -> (r: bool) {
        self.0.cell_eq(other)
    }
}

/// Matches every key.
pub struct AnyMatch;

impl<T> Matches<T> for AnyMatch {
    open spec fn spec_matches(&self, other: T) -> bool {
        true
    }

    fn matches(&self, other: &T) -> (r: bool) {
        true
    }
}

/// Hash of a key, used to pick a bucket of a blob hash map.
pub trait MyHash {
    spec fn spec_my_hash(&self) -> usize;

    fn my_hash(&self) -> (r: usize)
        ensures
            r == self.spec_my_hash(),
    ;
}

impl MyHash for u8 {
    open spec fn spec_my_hash(&self) -> usize {
        *self as usize
    }

    fn my_hash(&self) -> (r: usize) {
        *self as usize
    }
}

impl MyHash for u32 {
    open spec fn spec_my_hash(&self) -> usize {
        *self as usize
    }

    fn my_hash(&self) -> (r: usize) {
        *self as usize
    }
}

/// The 64-bit xxHash of `data` with `seed`.
pub uninterp spec fn xxhash64(seed: u64, data: Seq<u8>) -> u64;

/// `twox_hash::XxHash64::oneshot`: the 64-bit xxHash of the bytes under the
/// seed, a function of the two alone.
#[verifier::external_body]
fn xxhash64_oneshot(seed: u64, data: &[u8]) -> (r: u64)
    ensures
        r == xxhash64(seed, data@),
{
    twox_hash::XxHash64::oneshot(seed, data)
}

/// Byte strings hash by their 64-bit xxHash under a fixed seed.
impl<'a> MyHash for &'a [u8] {
    open spec fn spec_my_hash(&self) -> usize {
        xxhash64(1234, (*self)@) as usize
    }

    fn my_hash(&self) -> (r: usize) {
        xxhash64_oneshot(1234, *self) as usize
    }
}


/// A single key-value entry laid out in a blob: the key is a cell, the value
/// a structure at a position derived from the entry's position.
pub trait Assoc: Layout {
    type Key: Cell;

    spec fn spec_key_at(at: int) -> int;

    spec fn spec_val_at(at: int) -> int;

    fn key_at(at: usize) -> (r: usize)
        requires
            at <= max_blob() + 0x100,
        ensures
            r == Self::spec_key_at(at as int),
    ;

    fn val_at(at: usize) -> (r: usize)
        requires
            at <= max_blob() + 0x100,
        ensures
            r == Self::spec_val_at(at as int),
    ;

    proof fn lemma_assoc(at: int)
        requires
            0 <= at,
        ensures
            at <= Self::spec_key_at(at),
            Self::spec_key_at(at) + Self::Key::spec_size() <= Self::spec_val_at(at),
            Self::spec_val_at(at) <= at + 0x1100,
    ;
}

/// An associative structure laid out in a blob: a lookup by key gives the
/// position of the value of the first entry with that key.
pub trait Assocs: Layout {
    type Key: CellEq;

    spec fn spec_lookup(key: Self::Key, bytes: Seq<u8>, at: int) -> Option<int>;

    fn lookup(key: &Self::Key, blob: &[u8], at: usize) -> (r: Option<usize>)
        requires
            blob@.len() <= max_blob(),
        ensures
            match r {
                Some(p) => Self::spec_lookup(*key, blob@, at as int) == Some(p as int),
                None => Self::spec_lookup(*key, blob@, at as int) is None,
            },
    ;
}

/// Anchization of the second part of a pair by `value`; used to lay out the
/// values of key-value pairs behind their keys. `key` holds no key: it only
/// names the type of the first part.
pub struct SecondAnchize<'e, K, E> {
    pub value: &'e E,
    pub key: Option<&'e K>,
}

impl<'e, K, E: Anchize> Anchize for SecondAnchize<'e, K, E> {
    type Origin = (K, E::Origin);

    type Context = E::Context;

    type Ancha = E::Ancha;

    open spec fn spec_accepts(&self, origin: Self::Origin, context: Self::Context) -> bool {
        self.value.spec_accepts(origin.1, context)
    }

    open spec fn spec_end(&self, origin: Self::Origin, pos: int) -> int {
        self.value.spec_end(origin.1, pos)
    }

    open spec fn spec_holds(
        &self,
        origin: Self::Origin,
        context: Self::Context,
        bytes: Seq<u8>,
        pos: int,
    ) -> bool {
        self.value.spec_holds(origin.1, context, bytes, pos)
    }

    proof fn lemma_end(&self, origin: Self::Origin, pos: int) {
        self.value.lemma_end(origin.1, pos);
    }

    proof fn lemma_align_start(
        &self,
        origin: Self::Origin,
        context: Self::Context,
        bytes: Seq<u8>,
        pos: int,
    ) {
        self.value.lemma_align_start(origin.1, context, bytes, pos);
    }

    proof fn lemma_frame(
        &self,
        origin: Self::Origin,
        context: Self::Context,
        b1: Seq<u8>,
        b2: Seq<u8>,
        pos: int,
    ) {
        self.value.lemma_frame(origin.1, context, b1, b2, pos);
    }

    fn reserve(&self, origin: &Self::Origin, context: &Self::Context, sz: &mut Reserve) {
        self.value.reserve(&origin.1, context, sz);
    }

    fn anchize<After>(
        &self,
        origin: &Self::Origin,
        context: &Self::Context,
        buf: &mut Vec<u8>,
        cur: BuildCursor<Self::Ancha>,
    ) -> (r: BuildCursor<After>) {
        self.value.anchize(&origin.1, context, buf, cur)
    }
}

/// A strategy used through a reference is the strategy itself.
impl<'e, E: StaticAnchize> StaticAnchize for &'e E {
    type Origin = E::Origin;

    type Context = E::Context;

    type Ancha = E::Ancha;

    open spec fn spec_accepts(&self, origin: E::Origin, context: E::Context) -> bool {
        (**self).spec_accepts(origin, context)
    }

    open spec fn spec_anchize_static(&self, origin: E::Origin, context: E::Context) -> E::Ancha {
        (**self).spec_anchize_static(origin, context)
    }

    fn anchize_static(&self, origin: &E::Origin, context: &E::Context, ancha: &mut E::Ancha) {
        (**self).anchize_static(origin, context, ancha)
    }
}

/// A strategy used through a reference is the strategy itself.
impl<'e, E: Anchize> Anchize for &'e E {
    type Origin = E::Origin;

    type Context = E::Context;

    type Ancha = E::Ancha;

    open spec fn spec_accepts(&self, origin: E::Origin, context: E::Context) -> bool {
        (**self).spec_accepts(origin, context)
    }

    open spec fn spec_end(&self, origin: E::Origin, pos: int) -> int {
        (**self).spec_end(origin, pos)
    }

    open spec fn spec_holds(&self, origin: E::Origin, context: E::Context, bytes: Seq<u8>, pos: int) -> bool {
        (**self).spec_holds(origin, context, bytes, pos)
    }

    proof fn lemma_end(&self, origin: E::Origin, pos: int) {
        (**self).lemma_end(origin, pos);
    }

    proof fn lemma_align_start(&self, origin: E::Origin, context: E::Context, bytes: Seq<u8>, pos: int) {
        (**self).lemma_align_start(origin, context, bytes, pos);
    }

    proof fn lemma_frame(&self, origin: E::Origin, context: E::Context, b1: Seq<u8>, b2: Seq<u8>, pos: int) {
        (**self).lemma_frame(origin, context, b1, b2, pos);
    }

    fn reserve(&self, origin: &E::Origin, context: &E::Context, sz: &mut Reserve) {
        (**self).reserve(origin, context, sz)
    }

    fn anchize<After>(
        &self,
        origin: &E::Origin,
        context: &E::Context,
        buf: &mut Vec<u8>,
        cur: BuildCursor<E::Ancha>,
    ) -> (r: BuildCursor<After>) {
        (**self).anchize(origin, context, buf, cur)
    }
}

/// A strategy used through a reference is the strategy itself.
impl<'e, D: Deanchize> Deanchize for &'e D {
    type Ancha = D::Ancha;

    open spec fn spec_walk(&self, bytes: Seq<u8>, pos: int) -> Option<int> {
        (**self).spec_walk(bytes, pos)
    }

    proof fn lemma_walk(&self, bytes: Seq<u8>, pos: int) {
        (**self).lemma_walk(bytes, pos);
    }

    fn deanchize<After>(&self, buf: &[u8], cur: BuildCursor<D::Ancha>) -> (r: BuildCursor<After>) {
        (**self).deanchize(buf, cur)
    }
}

/// Origins that can be empty: a hash map leaves the buckets of empty origins out.
pub trait IsEmpty {
    spec fn spec_is_empty(&self) -> bool;

    fn is_empty(&self) -> (r: bool)
        ensures
            r == self.spec_is_empty(),
    ;
}

impl<X> IsEmpty for Vec<X> {
    open spec fn spec_is_empty(&self) -> bool {
        self@.len() == 0
    }

    fn is_empty(&self) -> (r: bool) {
        self.len() == 0
    }
}

} // verus!
