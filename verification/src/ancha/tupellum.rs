//! Two structures stored one behind the other.
//!
//! Layout: `[A][padding][B]`
use core::marker::PhantomData;
use vstd::prelude::*;

use super::{from_base, unchanged_outside, Anchize, BuildCursor, Deanchize, Layout, Reserve};

verus! {

/// A pair in a blob: the first element inline, the second behind it.
pub struct Tupellum<'a, A, B> {
    /// Position of the first element.
    pub at: usize,
    pub blob: &'a [u8],
    pub _phantom: PhantomData<(A, B)>,
}

impl<'a, A: Layout, B> Layout for Tupellum<'a, A, B> {
    open spec fn spec_size() -> nat {
        A::spec_size()
    }

    open spec fn spec_align() -> nat {
        A::spec_align()
    }

    fn size() -> (r: usize) {
        A::size()
    }

    fn align() -> (r: usize) {
        A::align()
    }

    proof fn lemma_layout() {
        A::lemma_layout();
    }
}

/// Anchization of a pair into a `Tupellum`.
pub struct TupellumAnchizeFromTuple<A, B> {
    pub a_ancha: A,
    pub b_ancha: B,
}

impl<A, B> TupellumAnchizeFromTuple<A, B> {
    pub fn new(a_ancha: A, b_ancha: B) -> (r: Self)
        ensures
            r.a_ancha == a_ancha,
            r.b_ancha == b_ancha,
    {
        TupellumAnchizeFromTuple { a_ancha, b_ancha }
    }
}

impl<A: Default, B: Default> Default for TupellumAnchizeFromTuple<A, B> {
    fn default() -> Self {
        TupellumAnchizeFromTuple { a_ancha: A::default(), b_ancha: B::default() }
    }
}

impl<A: Anchize, B: Anchize<Context = A::Context>> Anchize for TupellumAnchizeFromTuple<A, B> {
    type Origin = (A::Origin, B::Origin);

    type Context = A::Context;

    type Ancha = Tupellum<'static, A::Ancha, B::Ancha>;

    open spec fn spec_accepts(&self, origin: Self::Origin, context: Self::Context) -> bool {
        self.a_ancha.spec_accepts(origin.0, context) && self.b_ancha.spec_accepts(origin.1, context)
    }

    open spec fn spec_end(&self, origin: Self::Origin, pos: int) -> int {
        self.b_ancha.spec_end(origin.1, self.a_ancha.spec_end(origin.0, pos))
    }

    open spec fn spec_holds(
        &self,
        origin: Self::Origin,
        context: Self::Context,
        bytes: Seq<u8>,
        pos: int,
    ) -> bool {
        &&& self.a_ancha.spec_holds(origin.0, context, bytes, pos)
        &&& self.b_ancha.spec_holds(origin.1, context, bytes, self.a_ancha.spec_end(origin.0, pos))
    }

    proof fn lemma_align_start(
        &self,
        origin: Self::Origin,
        context: Self::Context,
        bytes: Seq<u8>,
        pos: int,
    ) {
        self.a_ancha.lemma_align_start(origin.0, context, bytes, pos);
    }

    proof fn lemma_end(&self, origin: Self::Origin, pos: int) {
        self.a_ancha.lemma_end(origin.0, pos);
        self.b_ancha.lemma_end(origin.1, self.a_ancha.spec_end(origin.0, pos));
    }

    proof fn lemma_frame(
        &self,
        origin: Self::Origin,
        context: Self::Context,
        b1: Seq<u8>,
        b2: Seq<u8>,
        pos: int,
    ) {
        let mid = self.a_ancha.spec_end(origin.0, pos);
        let end = self.spec_end(origin, pos);
        self.a_ancha.lemma_end(origin.0, pos);
        self.b_ancha.lemma_end(origin.1, mid);
        super::lemma_subrange_within(b1, b2, pos, end, pos, mid);
        super::lemma_subrange_within(b1, b2, pos, end, mid, end);
        self.a_ancha.lemma_frame(origin.0, context, b1, b2, pos);
        self.b_ancha.lemma_frame(origin.1, context, b1, b2, mid);
    }

    fn reserve(&self, origin: &Self::Origin, context: &Self::Context, sz: &mut Reserve) {
        proof {
            self.a_ancha.lemma_end(origin.0, old(sz).0 as int);
            self.b_ancha.lemma_end(origin.1, self.a_ancha.spec_end(origin.0, old(sz).0 as int));
        }
        self.a_ancha.reserve(&origin.0, context, sz);
        self.b_ancha.reserve(&origin.1, context, sz);
    }

    fn anchize<After>(
        &self,
        origin: &Self::Origin,
        context: &Self::Context,
        buf: &mut Vec<u8>,
        cur: BuildCursor<Self::Ancha>,
    ) -> (r: BuildCursor<After>) {
        let ghost base = cur.buf as int;
        let ghost pos = cur.cur as int;
        let ghost mid = self.a_ancha.spec_end(origin.0, pos);
        proof {
            self.a_ancha.lemma_end(origin.0, pos);
            self.b_ancha.lemma_end(origin.1, mid);
        }
        let ghost b0 = buf@;
        let vcur: BuildCursor<B::Ancha> = self.a_ancha.anchize(&origin.0, context, buf, cur.transmute());
        let ghost b1 = buf@;
        let r = self.b_ancha.anchize(&origin.1, context, buf, vcur);
        proof {
            let end = r.cur as int;
            let v1 = from_base(b1, base);
            let v2 = from_base(buf@, base);
            assert(v1.subrange(pos, mid) =~= v2.subrange(pos, mid));
            self.a_ancha.lemma_frame(origin.0, *context, v1, v2, pos);
        }
        r
    }
}

/// Deanchization of a `Tupellum`.
pub struct TupellumDeanchizeFromTuple<A, B> {
    pub a_deancha: A,
    pub b_deancha: B,
}

impl<A, B> TupellumDeanchizeFromTuple<A, B> {
    pub fn new(a_deancha: A, b_deancha: B) -> (r: Self)
        ensures
            r.a_deancha == a_deancha,
            r.b_deancha == b_deancha,
    {
        TupellumDeanchizeFromTuple { a_deancha, b_deancha }
    }
}

impl<A: Default, B: Default> Default for TupellumDeanchizeFromTuple<A, B> {
    fn default() -> Self {
        TupellumDeanchizeFromTuple { a_deancha: A::default(), b_deancha: B::default() }
    }
}

impl<A: Deanchize, B: Deanchize> Deanchize for TupellumDeanchizeFromTuple<A, B> {
    type Ancha = Tupellum<'static, A::Ancha, B::Ancha>;

    open spec fn spec_walk(&self, bytes: Seq<u8>, pos: int) -> Option<int> {
        match self.a_deancha.spec_walk(bytes, pos) {
            Some(mid) => self.b_deancha.spec_walk(bytes, mid),
            None => None,
        }
    }

    proof fn lemma_walk(&self, bytes: Seq<u8>, pos: int) {
        self.a_deancha.lemma_walk(bytes, pos);
        self.b_deancha.lemma_walk(bytes, self.a_deancha.spec_walk(bytes, pos)->0);
    }

    fn deanchize<After>(&self, buf: &[u8], cur: BuildCursor<Self::Ancha>) -> (r: BuildCursor<After>) {
        proof {
            self.a_deancha.lemma_walk(from_base(buf@, cur.buf as int), cur.cur as int);
        }
        let vcur: BuildCursor<B::Ancha> = self.a_deancha.deanchize(buf, cur.transmute());
        self.b_deancha.deanchize(buf, vcur)
    }
}

/// Deanchization walks exactly over an anchized pair, given that it does so
/// over each element.
pub proof fn lemma_tupellum_walk<A: Anchize, B: Anchize<Context = A::Context>, DA: Deanchize, DB: Deanchize>(
    anchize: TupellumAnchizeFromTuple<A, B>,
    deanchize: TupellumDeanchizeFromTuple<DA, DB>,
    origin: (A::Origin, B::Origin),
    context: A::Context,
    bytes: Seq<u8>,
    pos: int,
)
    requires
        0 <= pos,
        anchize.spec_holds(origin, context, bytes, pos),
        deanchize.a_deancha.spec_walk(bytes, pos) == Some(anchize.a_ancha.spec_end(origin.0, pos)),
        deanchize.b_deancha.spec_walk(bytes, anchize.a_ancha.spec_end(origin.0, pos)) == Some(
            anchize.spec_end(origin, pos),
        ),
    ensures
        deanchize.spec_walk(bytes, pos) == Some(anchize.spec_end(origin, pos)),
{
}

/// Position behind three structures laid out one behind the other from
/// `pos` on.
pub open spec fn trio_end<A: Anchize, B: Anchize, C: Anchize>(
    a: A,
    b: B,
    c: C,
    oa: A::Origin,
    ob: B::Origin,
    oc: C::Origin,
    pos: int,
) -> int {
    c.spec_end(oc, b.spec_end(ob, a.spec_end(oa, pos)))
}

/// The blob holds three structures laid out one behind the other from `pos`
/// on.
pub open spec fn trio_holds<A: Anchize, B: Anchize<Context = A::Context>, C: Anchize<Context = A::Context>>(
    a: A,
    b: B,
    c: C,
    oa: A::Origin,
    ob: B::Origin,
    oc: C::Origin,
    ctx: A::Context,
    bytes: Seq<u8>,
    pos: int,
) -> bool {
    let m1 = a.spec_end(oa, pos);
    let m2 = b.spec_end(ob, m1);
    &&& trio_end(a, b, c, oa, ob, oc, pos) <= bytes.len()
    &&& a.spec_holds(oa, ctx, bytes, pos)
    &&& b.spec_holds(ob, ctx, bytes, m1)
    &&& c.spec_holds(oc, ctx, bytes, m2)
}

pub proof fn lemma_trio_end<A: Anchize, B: Anchize, C: Anchize>(
    a: A,
    b: B,
    c: C,
    oa: A::Origin,
    ob: B::Origin,
    oc: C::Origin,
    pos: int,
)
    requires
        0 <= pos,
    ensures
        pos <= a.spec_end(oa, pos) <= b.spec_end(ob, a.spec_end(oa, pos)) <= trio_end(a, b, c, oa, ob, oc, pos),
{
    a.lemma_end(oa, pos);
    b.lemma_end(ob, a.spec_end(oa, pos));
    c.lemma_end(oc, b.spec_end(ob, a.spec_end(oa, pos)));
}

/// Three structures hold by the bytes between their start and end alone.
pub proof fn lemma_trio_frame<A: Anchize, B: Anchize<Context = A::Context>, C: Anchize<Context = A::Context>>(
    a: A,
    b: B,
    c: C,
    oa: A::Origin,
    ob: B::Origin,
    oc: C::Origin,
    ctx: A::Context,
    b1: Seq<u8>,
    b2: Seq<u8>,
    pos: int,
)
    requires
        0 <= pos,
        trio_end(a, b, c, oa, ob, oc, pos) <= b2.len(),
        b1.subrange(pos, trio_end(a, b, c, oa, ob, oc, pos)) == b2.subrange(
            pos,
            trio_end(a, b, c, oa, ob, oc, pos),
        ),
        trio_holds(a, b, c, oa, ob, oc, ctx, b1, pos),
    ensures
        trio_holds(a, b, c, oa, ob, oc, ctx, b2, pos),
{
    let m1 = a.spec_end(oa, pos);
    let m2 = b.spec_end(ob, m1);
    let end = trio_end(a, b, c, oa, ob, oc, pos);
    lemma_trio_end(a, b, c, oa, ob, oc, pos);
    super::lemma_subrange_within(b1, b2, pos, end, pos, m1);
    super::lemma_subrange_within(b1, b2, pos, end, m1, m2);
    super::lemma_subrange_within(b1, b2, pos, end, m2, end);
    a.lemma_frame(oa, ctx, b1, b2, pos);
    b.lemma_frame(ob, ctx, b1, b2, m1);
    c.lemma_frame(oc, ctx, b1, b2, m2);
}

/// Reserves space for three structures one behind the other.
pub fn trio_reserve<A: Anchize, B: Anchize<Context = A::Context>, C: Anchize<Context = A::Context>>(
    a: &A,
    b: &B,
    c: &C,
    oa: &A::Origin,
    ob: &B::Origin,
    oc: &C::Origin,
    ctx: &A::Context,
    sz: &mut Reserve,
)
    requires
        trio_end(*a, *b, *c, *oa, *ob, *oc, old(sz).0 as int) <= super::max_blob(),
    ensures
        final(sz).0 == trio_end(*a, *b, *c, *oa, *ob, *oc, old(sz).0 as int),
{
    proof {
        lemma_trio_end(*a, *b, *c, *oa, *ob, *oc, old(sz).0 as int);
    }
    a.reserve(oa, ctx, sz);
    b.reserve(ob, ctx, sz);
    c.reserve(oc, ctx, sz);
}

/// Lays out three structures one behind the other; returns the cursor
/// behind them.
pub fn trio_anchize<A: Anchize, B: Anchize<Context = A::Context>, C: Anchize<Context = A::Context>, After>(
    a: &A,
    b: &B,
    c: &C,
    oa: &A::Origin,
    ob: &B::Origin,
    oc: &C::Origin,
    ctx: &A::Context,
    buf: &mut Vec<u8>,
    cur: BuildCursor<A::Ancha>,
) -> (r: BuildCursor<After>)
    requires
        a.spec_accepts(*oa, *ctx),
        b.spec_accepts(*ob, *ctx),
        c.spec_accepts(*oc, *ctx),
        cur.buf + trio_end(*a, *b, *c, *oa, *ob, *oc, cur.cur as int) <= old(buf)@.len(),
        old(buf)@.len() <= super::max_blob(),
    ensures
        r.cur == trio_end(*a, *b, *c, *oa, *ob, *oc, cur.cur as int),
        r.buf == cur.buf,
        unchanged_outside(old(buf)@, final(buf)@, cur.buf + cur.cur, cur.buf + r.cur),
        trio_holds(*a, *b, *c, *oa, *ob, *oc, *ctx, from_base(final(buf)@, cur.buf as int), cur.cur as int),
{
    let ghost base = cur.buf as int;
    let ghost pos = cur.cur as int;
    let ghost m1 = a.spec_end(*oa, pos);
    let ghost m2 = b.spec_end(*ob, m1);
    proof {
        lemma_trio_end(*a, *b, *c, *oa, *ob, *oc, pos);
    }
    let c1: BuildCursor<B::Ancha> = a.anchize(oa, ctx, buf, cur);
    let ghost bf1 = buf@;
    let c2: BuildCursor<C::Ancha> = b.anchize(ob, ctx, buf, c1);
    let ghost bf2 = buf@;
    let r = c.anchize(oc, ctx, buf, c2);
    proof {
        let end = r.cur as int;
        let v1 = from_base(bf1, base);
        let v2 = from_base(bf2, base);
        let v3 = from_base(buf@, base);
        super::lemma_from_base_unchanged(bf1, bf2, base, m1, m2);
        super::lemma_from_base_unchanged(bf2, buf@, base, m2, end);
        super::lemma_unchanged_holds(*a, *oa, *ctx, v1, v2, m1, m2, pos);
        super::lemma_unchanged_holds(*a, *oa, *ctx, v2, v3, m2, end, pos);
        super::lemma_unchanged_holds(*b, *ob, *ctx, v2, v3, m2, end, m1);
    }
    r
}

/// Position behind three structures at `pos`, walked one after another.
pub open spec fn trio_walk<A: Deanchize, B: Deanchize, C: Deanchize>(
    a: A,
    b: B,
    c: C,
    bytes: Seq<u8>,
    pos: int,
) -> Option<int> {
    match a.spec_walk(bytes, pos) {
        Some(m1) => match b.spec_walk(bytes, m1) {
            Some(m2) => c.spec_walk(bytes, m2),
            None => None,
        },
        None => None,
    }
}

pub proof fn lemma_trio_walk<A: Deanchize, B: Deanchize, C: Deanchize>(
    a: A,
    b: B,
    c: C,
    bytes: Seq<u8>,
    pos: int,
)
    requires
        0 <= pos,
        trio_walk(a, b, c, bytes, pos) is Some,
    ensures
        pos <= trio_walk(a, b, c, bytes, pos)->0 <= bytes.len(),
{
    a.lemma_walk(bytes, pos);
    let m1 = a.spec_walk(bytes, pos)->0;
    b.lemma_walk(bytes, m1);
    c.lemma_walk(bytes, b.spec_walk(bytes, m1)->0);
}

/// Walks over three structures one after another.
pub fn trio_deanchize<A: Deanchize, B: Deanchize, C: Deanchize, After>(
    a: &A,
    b: &B,
    c: &C,
    buf: &[u8],
    cur: BuildCursor<A::Ancha>,
) -> (r: BuildCursor<After>)
    requires
        cur.buf <= buf@.len() <= super::max_blob(),
        trio_walk(*a, *b, *c, from_base(buf@, cur.buf as int), cur.cur as int) is Some,
    ensures
        r.cur == trio_walk(*a, *b, *c, from_base(buf@, cur.buf as int), cur.cur as int)->0,
        r.buf == cur.buf,
{
    let ghost bytes = from_base(buf@, cur.buf as int);
    proof {
        a.lemma_walk(bytes, cur.cur as int);
        b.lemma_walk(bytes, a.spec_walk(bytes, cur.cur as int)->0);
    }
    let c1: BuildCursor<B::Ancha> = a.deanchize(buf, cur);
    let c2: BuildCursor<C::Ancha> = b.deanchize(buf, c1);
    c.deanchize(buf, c2)
}

} // verus!
