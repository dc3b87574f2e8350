//! The context in which an automaton is laid out: where its states are.
use vstd::prelude::*;

use super::keyval_state::{
    Bytes, BytesSedimentAnchize, BytesSedimentDeanchize, GetQptrs as KeyValGetQptrs, KeyValState,
    KeyValStateAnchize, KeyValStateDeanchize, KeyValStatePointerAnchize, KeyValStatePointerDeanchize,
    StateOrigin,
};
use super::state::{GetQptrs, U8State, U8StateAnchize, U8StateDeanchize, U8StatePrepared};
use crate::ancha::sediment::{
    lemma_sediment_first, sediment_first, AnchaSediment, SedimentAnchizeFromVec, SedimentDeanchize,
};
use crate::ancha::tupellum::{
    lemma_trio_end, lemma_trio_frame, lemma_trio_walk, trio_anchize, trio_deanchize, trio_end, trio_holds,
    trio_reserve, trio_walk, Tupellum,
};
use crate::ancha::vec::{AnchaVec, VecAnchizeFromVec, VecDeanchize};
use crate::ancha::{
    from_base, lemma_align_up, lemma_seq_end, lemma_seq_push, lemma_unchanged_holds, max_blob, seq_at,
    seq_end, spec_align_up, unchanged_outside, Anchize, BuildCursor, CopyAnchize, Deanchize, Layout,
    NoopDeanchize, Reserve,
};

verus! {

/// Contexts that record where the key-value states are laid out.
pub trait TrackKvOffset {
    fn push_kvqptr(&mut self, offset: usize);
}

/// Contexts that record where the byte states are laid out.
pub trait TrackU8Offset {
    fn push_u8qptr(&mut self, offset: usize);
}

/// Where the states of an automaton are laid out: `u8qptrs[i]` is the
/// position of byte state `i`, `kvqptrs[i]` that of key-value state `i`.
pub struct AutomatonContext {
    pub u8qptrs: Vec<usize>,
    pub kvqptrs: Vec<usize>,
}

impl AutomatonContext {
    /// A context that knows no state yet.
    pub fn new() -> (r: Self)
        ensures
            r.u8qptrs@ == Seq::<usize>::empty(),
            r.kvqptrs@ == Seq::<usize>::empty(),
    {
        AutomatonContext { u8qptrs: Vec::new(), kvqptrs: Vec::new() }
    }
}

impl Default for AutomatonContext {
    fn default() -> (r: Self)
        ensures
            r.u8qptrs@ == Seq::<usize>::empty(),
            r.kvqptrs@ == Seq::<usize>::empty(),
    {
        Self::new()
    }
}

impl TrackKvOffset for AutomatonContext {
    fn push_kvqptr(&mut self, offset: usize)
        ensures
            final(self).kvqptrs@ == old(self).kvqptrs@.push(offset),
            final(self).u8qptrs@ == old(self).u8qptrs@,
    {
        self.kvqptrs.push(offset);
    }
}

impl TrackU8Offset for AutomatonContext {
    fn push_u8qptr(&mut self, offset: usize)
        ensures
            final(self).u8qptrs@ == old(self).u8qptrs@.push(offset),
            final(self).kvqptrs@ == old(self).kvqptrs@,
    {
        self.u8qptrs.push(offset);
    }
}

impl GetQptrs for AutomatonContext {
    open spec fn spec_qptrs(&self) -> Seq<usize> {
        self.u8qptrs@
    }

    fn get_qptrs(&self) -> (r: &Vec<usize>) {
        &self.u8qptrs
    }
}

impl KeyValGetQptrs for AutomatonContext {
    open spec fn spec_kvqptrs(&self) -> Seq<usize> {
        self.kvqptrs@
    }

    open spec fn spec_u8qptrs(&self) -> Seq<usize> {
        self.u8qptrs@
    }

    fn get_kvqptrs(&self) -> (r: &Vec<usize>) {
        &self.kvqptrs
    }

    fn get_u8qptrs(&self) -> (r: &Vec<usize>) {
        &self.u8qptrs
    }
}

} // verus!

verus! {

/// The byte states and the key-value states.
pub type States<'a> = Tupellum<'a, AnchaSediment<'a, KeyValState<'a>>, AnchaSediment<'a, U8State<'a>>>;

/// The initial key-value states, then the states.
pub type InitsAndStates<'a> = Tupellum<'a, AnchaVec<'a, usize>, States<'a>>;

/// The initial extensions, then the rest of the automaton.
pub type ExtsAndAut<'a> = Tupellum<'a, AnchaSediment<'a, Bytes<'a>>, InitsAndStates<'a>>;

/// An automaton in a blob: the initial keys to get, the initial extensions,
/// the initial key-value states, the key-value states and the byte states.
pub type Automaton<'a> = Tupellum<'a, AnchaSediment<'a, Bytes<'a>>, ExtsAndAut<'a>>;

/// An automaton before layout.
pub struct AutomatonOrigin {
    pub get_olds: Vec<Vec<u8>>,
    pub exts: Vec<Vec<u8>>,
    pub inits: Vec<usize>,
    pub kv_states: Vec<StateOrigin>,
    pub u8_states: Vec<U8StatePrepared>,
}

/// Strategies whose reservation records where their structure will start.
pub trait TrackedReserve: Anchize<Context = AutomatonContext> {
    /// Whether the positions go to the key-value states (else to the byte
    /// states).
    spec fn spec_tracks_kv(&self) -> bool;

    fn reserve_tracked(&self, origin: &Self::Origin, context: &mut AutomatonContext, sz: &mut Reserve)
        requires
            self.spec_end(*origin, old(sz).0 as int) <= max_blob(),
        ensures
            final(sz).0 == self.spec_end(*origin, old(sz).0 as int),
            self.spec_tracks_kv() ==> final(context).kvqptrs@ == old(context).kvqptrs@.push(
                spec_align_up(old(sz).0 as int, Self::Ancha::spec_align() as int) as usize,
            ) && final(context).u8qptrs@ == old(context).u8qptrs@,
            !self.spec_tracks_kv() ==> final(context).u8qptrs@ == old(context).u8qptrs@.push(
                spec_align_up(old(sz).0 as int, Self::Ancha::spec_align() as int) as usize,
            ) && final(context).kvqptrs@ == old(context).kvqptrs@,
    ;
}

/// Anchization that records where each key-value state starts.
pub struct TrackKvAnchize<Inner> {
    pub inner: Inner,
}

/// Anchization that records where each byte state starts.
pub struct TrackU8Anchize<Inner> {
    pub inner: Inner,
}

impl<Inner> TrackKvAnchize<Inner> {
    pub fn new(inner: Inner) -> (r: Self)
        ensures
            r.inner == inner,
    {
        TrackKvAnchize { inner }
    }
}

impl<Inner: Default> Default for TrackKvAnchize<Inner> {
    fn default() -> Self {
        TrackKvAnchize { inner: Inner::default() }
    }
}

impl<Inner> TrackU8Anchize<Inner> {
    pub fn new(inner: Inner) -> (r: Self)
        ensures
            r.inner == inner,
    {
        TrackU8Anchize { inner }
    }
}

impl<Inner: Default> Default for TrackU8Anchize<Inner> {
    fn default() -> Self {
        TrackU8Anchize { inner: Inner::default() }
    }
}

impl<Inner: Anchize> Anchize for TrackKvAnchize<Inner> {
    type Origin = Inner::Origin;

    type Context = Inner::Context;

    type Ancha = Inner::Ancha;

    open spec fn spec_accepts(&self, origin: Inner::Origin, context: Inner::Context) -> bool {
        self.inner.spec_accepts(origin, context)
    }

    open spec fn spec_end(&self, origin: Inner::Origin, pos: int) -> int {
        self.inner.spec_end(origin, pos)
    }

    open spec fn spec_holds(&self, origin: Inner::Origin, context: Inner::Context, bytes: Seq<u8>, pos: int) -> bool {
        self.inner.spec_holds(origin, context, bytes, pos)
    }

    proof fn lemma_end(&self, origin: Inner::Origin, pos: int) {
        self.inner.lemma_end(origin, pos);
    }

    proof fn lemma_align_start(&self, origin: Inner::Origin, context: Inner::Context, bytes: Seq<u8>, pos: int) {
        self.inner.lemma_align_start(origin, context, bytes, pos);
    }

    proof fn lemma_frame(&self, origin: Inner::Origin, context: Inner::Context, b1: Seq<u8>, b2: Seq<u8>, pos: int) {
        self.inner.lemma_frame(origin, context, b1, b2, pos);
    }

    fn reserve(&self, origin: &Inner::Origin, context: &Inner::Context, sz: &mut Reserve) {
        self.inner.reserve(origin, context, sz);
    }

    fn anchize<After>(
        &self,
        origin: &Inner::Origin,
        context: &Inner::Context,
        buf: &mut Vec<u8>,
        cur: BuildCursor<Inner::Ancha>,
    ) -> (r: BuildCursor<After>) {
        self.inner.anchize(origin, context, buf, cur)
    }
}

impl<Inner: Anchize> Anchize for TrackU8Anchize<Inner> {
    type Origin = Inner::Origin;

    type Context = Inner::Context;

    type Ancha = Inner::Ancha;

    open spec fn spec_accepts(&self, origin: Inner::Origin, context: Inner::Context) -> bool {
        self.inner.spec_accepts(origin, context)
    }

    open spec fn spec_end(&self, origin: Inner::Origin, pos: int) -> int {
        self.inner.spec_end(origin, pos)
    }

    open spec fn spec_holds(&self, origin: Inner::Origin, context: Inner::Context, bytes: Seq<u8>, pos: int) -> bool {
        self.inner.spec_holds(origin, context, bytes, pos)
    }

    proof fn lemma_end(&self, origin: Inner::Origin, pos: int) {
        self.inner.lemma_end(origin, pos);
    }

    proof fn lemma_align_start(&self, origin: Inner::Origin, context: Inner::Context, bytes: Seq<u8>, pos: int) {
        self.inner.lemma_align_start(origin, context, bytes, pos);
    }

    proof fn lemma_frame(&self, origin: Inner::Origin, context: Inner::Context, b1: Seq<u8>, b2: Seq<u8>, pos: int) {
        self.inner.lemma_frame(origin, context, b1, b2, pos);
    }

    fn reserve(&self, origin: &Inner::Origin, context: &Inner::Context, sz: &mut Reserve) {
        self.inner.reserve(origin, context, sz);
    }

    fn anchize<After>(
        &self,
        origin: &Inner::Origin,
        context: &Inner::Context,
        buf: &mut Vec<u8>,
        cur: BuildCursor<Inner::Ancha>,
    ) -> (r: BuildCursor<After>) {
        self.inner.anchize(origin, context, buf, cur)
    }
}

impl<Inner: Anchize<Context = AutomatonContext>> TrackedReserve for TrackKvAnchize<Inner> {
    open spec fn spec_tracks_kv(&self) -> bool {
        true
    }

    fn reserve_tracked(&self, origin: &Inner::Origin, context: &mut AutomatonContext, sz: &mut Reserve) {
        proof {
            self.inner.lemma_align_start(*origin, *context, Seq::empty(), old(sz).0 as int);
            Inner::Ancha::lemma_layout();
            lemma_align_up(old(sz).0 as int, Inner::Ancha::spec_align() as int);
            self.inner.lemma_end(*origin, spec_align_up(old(sz).0 as int, Inner::Ancha::spec_align() as int));
        }
        sz.add::<Inner::Ancha>(0);
        context.push_kvqptr(sz.0);
        self.inner.reserve(origin, context, sz);
    }
}

impl<Inner: Anchize<Context = AutomatonContext>> TrackedReserve for TrackU8Anchize<Inner> {
    open spec fn spec_tracks_kv(&self) -> bool {
        false
    }

    fn reserve_tracked(&self, origin: &Inner::Origin, context: &mut AutomatonContext, sz: &mut Reserve) {
        proof {
            self.inner.lemma_align_start(*origin, *context, Seq::empty(), old(sz).0 as int);
            Inner::Ancha::lemma_layout();
            lemma_align_up(old(sz).0 as int, Inner::Ancha::spec_align() as int);
            self.inner.lemma_end(*origin, spec_align_up(old(sz).0 as int, Inner::Ancha::spec_align() as int));
        }
        sz.add::<Inner::Ancha>(0);
        context.push_u8qptr(sz.0);
        self.inner.reserve(origin, context, sz);
    }
}

/// Where the elements of a sediment laid out from `pos` on start.
pub open spec fn sediment_positions<E: Anchize>(e: E, os: Seq<E::Origin>, pos: int) -> Seq<usize> {
    Seq::new(os.len(), |i: int| seq_at(e, os, sediment_first::<E::Ancha>(pos), i) as usize)
}

/// Reserves a sediment and records where its elements start.
pub fn sediment_reserve_tracked<E: TrackedReserve>(
    s: &SedimentAnchizeFromVec<E>,
    origin: &Vec<E::Origin>,
    context: &mut AutomatonContext,
    sz: &mut Reserve,
)
    requires
        s.spec_end(*origin, old(sz).0 as int) <= max_blob(),
    ensures
        final(sz).0 == s.spec_end(*origin, old(sz).0 as int),
        s.elem_ancha.spec_tracks_kv() ==> final(context).kvqptrs@ == old(context).kvqptrs@ + sediment_positions(
            s.elem_ancha,
            origin@,
            old(sz).0 as int,
        ) && final(context).u8qptrs@ == old(context).u8qptrs@,
        !s.elem_ancha.spec_tracks_kv() ==> final(context).u8qptrs@ == old(context).u8qptrs@ + sediment_positions(
            s.elem_ancha,
            origin@,
            old(sz).0 as int,
        ) && final(context).kvqptrs@ == old(context).kvqptrs@,
{
    let ghost pos = old(sz).0 as int;
    let ghost first = sediment_first::<E::Ancha>(pos);
    let ghost e = s.elem_ancha;
    let ghost kv0 = context.kvqptrs@;
    let ghost u80 = context.u8qptrs@;
    proof {
        lemma_sediment_first::<E::Ancha>(pos);
        lemma_seq_end(e, origin@, first, 0);
        lemma_align_up(spec_align_up(pos, 8), 8);
    }
    sz.add::<AnchaSediment<'static, E::Ancha>>(0);
    proof {
        crate::ancha::lemma_align_up_aligned(sz.0 as int, 8);
    }
    sz.add::<AnchaSediment<'static, E::Ancha>>(1);
    proof {
        E::Ancha::lemma_layout();
        lemma_align_up(sz.0 as int, E::Ancha::spec_align() as int);
    }
    sz.add::<E::Ancha>(0);
    let n = origin.len();
    let mut i: usize = 0;
    while i < n
        invariant
            n == origin@.len(),
            0 <= i <= n,
            0 <= first,
            e == s.elem_ancha,
            first == sediment_first::<E::Ancha>(pos),
            sz.0 == seq_end(e, origin@.take(i as int), first),
            seq_end(e, origin@, first) <= max_blob(),
            e.spec_tracks_kv() ==> context.kvqptrs@ == kv0 + sediment_positions(e, origin@, pos).take(i as int)
                && context.u8qptrs@ == u80,
            !e.spec_tracks_kv() ==> context.u8qptrs@ == u80 + sediment_positions(e, origin@, pos).take(i as int)
                && context.kvqptrs@ == kv0,
        decreases n - i,
    {
        proof {
            lemma_seq_end(e, origin@, first, i + 1);
            lemma_seq_push(e, origin@.take(i as int), origin@[i as int], first);
            assert(origin@.take(i as int).push(origin@[i as int]) =~= origin@.take(i + 1));
            assert(sediment_positions(e, origin@, pos).take(i + 1) =~= sediment_positions(e, origin@, pos).take(
                i as int,
            ).push(seq_at(e, origin@, first, i as int) as usize));
        }
        s.elem_ancha.reserve_tracked(&origin[i], context, sz);
        i = i + 1;
    }
    proof {
        assert(origin@.take(n as int) =~= origin@);
        assert(sediment_positions(e, origin@, pos).take(n as int) =~= sediment_positions(e, origin@, pos));
    }
}

} // verus!

verus! {

/// The strategy for the key-value states of an automaton.
pub type KvStatesAnchize = SedimentAnchizeFromVec<TrackKvAnchize<KeyValStateAnchize<AutomatonContext>>>;

/// The strategy for the byte states of an automaton.
pub type U8StatesAnchize = SedimentAnchizeFromVec<TrackU8Anchize<U8StateAnchize<AutomatonContext>>>;

/// Anchization of an automaton: its parts one behind the other.
pub struct AutomatonAnchize {
    pub get_olds: BytesSedimentAnchize<AutomatonContext>,
    pub exts: BytesSedimentAnchize<AutomatonContext>,
    pub inits: VecAnchizeFromVec<KeyValStatePointerAnchize<AutomatonContext>>,
    pub kv_states: KvStatesAnchize,
    pub u8_states: U8StatesAnchize,
}

impl AutomatonAnchize {
    pub fn new() -> Self {
        AutomatonAnchize {
            get_olds: SedimentAnchizeFromVec::new(VecAnchizeFromVec::new(CopyAnchize::new())),
            exts: SedimentAnchizeFromVec::new(VecAnchizeFromVec::new(CopyAnchize::new())),
            inits: VecAnchizeFromVec::new(KeyValStatePointerAnchize::new()),
            kv_states: SedimentAnchizeFromVec::new(TrackKvAnchize::new(KeyValStateAnchize::new())),
            u8_states: SedimentAnchizeFromVec::new(TrackU8Anchize::new(U8StateAnchize::new())),
        }
    }

    /// Position behind the initial parts (gets, extensions, initial states).
    pub open spec fn head_end(&self, origin: AutomatonOrigin, pos: int) -> int {
        trio_end(self.get_olds, self.exts, self.inits, origin.get_olds, origin.exts, origin.inits, pos)
    }

    /// Position of the key-value states' sediment.
    pub open spec fn kv_at(&self, origin: AutomatonOrigin, pos: int) -> int {
        self.head_end(origin, pos)
    }

    /// Position of the byte states' sediment.
    pub open spec fn u8_at(&self, origin: AutomatonOrigin, pos: int) -> int {
        self.kv_states.spec_end(origin.kv_states, self.kv_at(origin, pos))
    }

    /// Where the key-value states start.
    pub open spec fn kv_positions(&self, origin: AutomatonOrigin, pos: int) -> Seq<usize> {
        sediment_positions(self.kv_states.elem_ancha, origin.kv_states@, self.kv_at(origin, pos))
    }

    /// Where the byte states start.
    pub open spec fn u8_positions(&self, origin: AutomatonOrigin, pos: int) -> Seq<usize> {
        sediment_positions(self.u8_states.elem_ancha, origin.u8_states@, self.u8_at(origin, pos))
    }

    /// The parts of an automaton lie in order: its head, its key-value
    /// states, its byte states.
    pub proof fn lemma_parts(&self, origin: AutomatonOrigin, pos: int)
        requires
            0 <= pos,
        ensures
            pos <= self.kv_at(origin, pos) <= self.u8_at(origin, pos) <= self.spec_end(origin, pos),
    {
        lemma_trio_end(self.get_olds, self.exts, self.inits, origin.get_olds, origin.exts, origin.inits, pos);
        self.kv_states.lemma_end(origin.kv_states, self.kv_at(origin, pos));
        self.u8_states.lemma_end(origin.u8_states, self.u8_at(origin, pos));
    }

    /// Reserves space for the automaton and records where its states start.
    pub fn reserve_tracking(&self, origin: &AutomatonOrigin, context: &mut AutomatonContext, sz: &mut Reserve)
        requires
            self.spec_end(*origin, old(sz).0 as int) <= max_blob(),
        ensures
            final(sz).0 == self.spec_end(*origin, old(sz).0 as int),
            final(context).kvqptrs@ == old(context).kvqptrs@ + self.kv_positions(*origin, old(sz).0 as int),
            final(context).u8qptrs@ == old(context).u8qptrs@ + self.u8_positions(*origin, old(sz).0 as int),
    {
        let ghost pos = old(sz).0 as int;
        proof {
            self.lemma_parts(*origin, pos);
        }
        trio_reserve(&self.get_olds, &self.exts, &self.inits, &origin.get_olds, &origin.exts, &origin.inits, context, sz);
        sediment_reserve_tracked(&self.kv_states, &origin.kv_states, context, sz);
        sediment_reserve_tracked(&self.u8_states, &origin.u8_states, context, sz);
    }

    /// Lays an automaton out in a new blob, anchored at its start; returns
    /// the blob and where its states are.
    pub fn build(&self, origin: &AutomatonOrigin) -> (r: (Vec<u8>, AutomatonContext))
        requires
            self.spec_end(*origin, 0) <= max_blob(),
            forall|ctx: AutomatonContext|
                ctx.kvqptrs@.len() == origin.kv_states@.len() && ctx.u8qptrs@.len() == origin.u8_states@.len()
                    ==> #[trigger] self.spec_accepts(*origin, ctx),
        ensures
            r.0@.len() == self.spec_end(*origin, 0),
            r.1.kvqptrs@ == self.kv_positions(*origin, 0),
            r.1.u8qptrs@ == self.u8_positions(*origin, 0),
            self.spec_holds(*origin, r.1, r.0@, 0),
    {
        let mut context = AutomatonContext::new();
        let mut sz = Reserve(0);
        self.reserve_tracking(origin, &mut context, &mut sz);
        proof {
            assert(context.kvqptrs@ =~= self.kv_positions(*origin, 0));
            assert(context.u8qptrs@ =~= self.u8_positions(*origin, 0));
            assert(self.spec_accepts(*origin, context));
        }
        let mut buf: Vec<u8> = vec![0u8; sz.0];
        let _end: BuildCursor<u8> = self.anchize(origin, &context, &mut buf, BuildCursor::new(0));
        proof {
            assert(from_base(buf@, 0) =~= buf@);
        }
        (buf, context)
    }
}

impl Default for AutomatonAnchize {
    fn default() -> Self {
        Self::new()
    }
}

impl Anchize for AutomatonAnchize {
    type Origin = AutomatonOrigin;

    type Context = AutomatonContext;

    type Ancha = Automaton<'static>;

    open spec fn spec_accepts(&self, origin: AutomatonOrigin, context: AutomatonContext) -> bool {
        &&& self.get_olds.spec_accepts(origin.get_olds, context)
        &&& self.exts.spec_accepts(origin.exts, context)
        &&& self.inits.spec_accepts(origin.inits, context)
        &&& self.kv_states.spec_accepts(origin.kv_states, context)
        &&& self.u8_states.spec_accepts(origin.u8_states, context)
    }

    open spec fn spec_end(&self, origin: AutomatonOrigin, pos: int) -> int {
        self.u8_states.spec_end(origin.u8_states, self.u8_at(origin, pos))
    }

    open spec fn spec_holds(&self, origin: AutomatonOrigin, context: AutomatonContext, bytes: Seq<u8>, pos: int) -> bool {
        &&& self.spec_end(origin, pos) <= bytes.len()
        &&& trio_holds(
            self.get_olds,
            self.exts,
            self.inits,
            origin.get_olds,
            origin.exts,
            origin.inits,
            context,
            bytes,
            pos,
        )
        &&& self.kv_states.spec_holds(origin.kv_states, context, bytes, self.kv_at(origin, pos))
        &&& self.u8_states.spec_holds(origin.u8_states, context, bytes, self.u8_at(origin, pos))
    }

    proof fn lemma_end(&self, origin: AutomatonOrigin, pos: int) {
        self.lemma_parts(origin, pos);
    }

    proof fn lemma_align_start(&self, origin: AutomatonOrigin, context: AutomatonContext, bytes: Seq<u8>, pos: int) {
        self.get_olds.lemma_align_start(origin.get_olds, context, bytes, pos);
    }

    proof fn lemma_frame(&self, origin: AutomatonOrigin, context: AutomatonContext, b1: Seq<u8>, b2: Seq<u8>, pos: int) {
        let k = self.kv_at(origin, pos);
        let u = self.u8_at(origin, pos);
        let end = self.spec_end(origin, pos);
        self.lemma_parts(origin, pos);
        crate::ancha::lemma_subrange_within(b1, b2, pos, end, pos, k);
        crate::ancha::lemma_subrange_within(b1, b2, pos, end, k, u);
        crate::ancha::lemma_subrange_within(b1, b2, pos, end, u, end);
        lemma_trio_frame(
            self.get_olds,
            self.exts,
            self.inits,
            origin.get_olds,
            origin.exts,
            origin.inits,
            context,
            b1,
            b2,
            pos,
        );
        self.kv_states.lemma_frame(origin.kv_states, context, b1, b2, k);
        self.u8_states.lemma_frame(origin.u8_states, context, b1, b2, u);
    }

    fn reserve(&self, origin: &AutomatonOrigin, context: &AutomatonContext, sz: &mut Reserve) {
        proof {
            self.lemma_parts(*origin, old(sz).0 as int);
        }
        trio_reserve(&self.get_olds, &self.exts, &self.inits, &origin.get_olds, &origin.exts, &origin.inits, context, sz);
        self.kv_states.reserve(&origin.kv_states, context, sz);
        self.u8_states.reserve(&origin.u8_states, context, sz);
    }

    fn anchize<After>(
        &self,
        origin: &AutomatonOrigin,
        context: &AutomatonContext,
        buf: &mut Vec<u8>,
        cur: BuildCursor<Automaton<'static>>,
    ) -> (r: BuildCursor<After>) {
        let ghost pos = cur.cur as int;
        let ghost base = cur.buf as int;
        let ghost k = self.kv_at(*origin, pos);
        let ghost u = self.u8_at(*origin, pos);
        proof {
            self.lemma_parts(*origin, pos);
        }
        let c0: BuildCursor<AnchaSediment<'static, Bytes<'static>>> = cur.transmute();
        let c1: BuildCursor<AnchaSediment<'static, KeyValState<'static>>> = trio_anchize(
            &self.get_olds,
            &self.exts,
            &self.inits,
            &origin.get_olds,
            &origin.exts,
            &origin.inits,
            context,
            buf,
            c0,
        );
        let ghost bf1 = buf@;
        let c2: BuildCursor<AnchaSediment<'static, U8State<'static>>> = self.kv_states.anchize(
            &origin.kv_states,
            context,
            buf,
            c1,
        );
        let ghost bf2 = buf@;
        let r: BuildCursor<After> = self.u8_states.anchize(&origin.u8_states, context, buf, c2);
        proof {
            let end = r.cur as int;
            let v1 = from_base(bf1, base);
            let v2 = from_base(bf2, base);
            let v3 = from_base(buf@, base);
            crate::ancha::lemma_from_base_unchanged(bf1, bf2, base, k, u);
            crate::ancha::lemma_from_base_unchanged(bf2, buf@, base, u, end);
            lemma_trio_end(self.get_olds, self.exts, self.inits, origin.get_olds, origin.exts, origin.inits, pos);
            lemma_trio_keep(self, *origin, *context, v1, v2, pos, k, u);
            lemma_trio_keep(self, *origin, *context, v2, v3, pos, u, end);
            lemma_unchanged_holds(self.kv_states, origin.kv_states, *context, v2, v3, u, end, k);
        }
        r
    }
}

/// Changes behind the initial parts keep them.
proof fn lemma_trio_keep(
    a: &AutomatonAnchize,
    origin: AutomatonOrigin,
    context: AutomatonContext,
    b1: Seq<u8>,
    b2: Seq<u8>,
    pos: int,
    lo: int,
    hi: int,
)
    requires
        0 <= pos,
        a.head_end(origin, pos) <= lo,
        a.head_end(origin, pos) <= b1.len(),
        unchanged_outside(b1, b2, lo, hi),
        trio_holds(a.get_olds, a.exts, a.inits, origin.get_olds, origin.exts, origin.inits, context, b1, pos),
    ensures
        trio_holds(a.get_olds, a.exts, a.inits, origin.get_olds, origin.exts, origin.inits, context, b2, pos),
{
    let end = a.head_end(origin, pos);
    lemma_trio_end(a.get_olds, a.exts, a.inits, origin.get_olds, origin.exts, origin.inits, pos);
    crate::ancha::lemma_unchanged_subrange(b1, b2, lo, hi, pos, end);
    lemma_trio_frame(
        a.get_olds,
        a.exts,
        a.inits,
        origin.get_olds,
        origin.exts,
        origin.inits,
        context,
        b1,
        b2,
        pos,
    );
}

/// Deanchization of an automaton.
pub struct AutomatonDeanchize {
    pub get_olds: BytesSedimentDeanchize,
    pub exts: BytesSedimentDeanchize,
    pub inits: VecDeanchize<KeyValStatePointerDeanchize>,
    pub kv_states: SedimentDeanchize<KeyValStateDeanchize>,
    pub u8_states: SedimentDeanchize<U8StateDeanchize>,
}

impl AutomatonDeanchize {
    /// The strategy for the blob anchored at `buf`.
    pub fn new(buf: usize) -> (r: Self)
        ensures
            r.inits.elem_deancha.shifter.0 == buf,
            r.kv_states.elem_deancha.sparse.elem_deancha.inits.elem_deancha.shifter.0 == buf,
            r.u8_states.elem_deancha.pattern.val_ancha.elem_deancha.shifter.0 == buf,
    {
        AutomatonDeanchize {
            get_olds: SedimentDeanchize::new(VecDeanchize::new(NoopDeanchize::new())),
            exts: SedimentDeanchize::new(VecDeanchize::new(NoopDeanchize::new())),
            inits: VecDeanchize::new(KeyValStatePointerDeanchize::new(buf)),
            kv_states: SedimentDeanchize::new(KeyValStateDeanchize::new(buf)),
            u8_states: SedimentDeanchize::new(U8StateDeanchize::new(buf)),
        }
    }
}

impl Default for AutomatonDeanchize {
    fn default() -> Self {
        Self::new(0)
    }
}

impl Deanchize for AutomatonDeanchize {
    type Ancha = Automaton<'static>;

    open spec fn spec_walk(&self, bytes: Seq<u8>, pos: int) -> Option<int> {
        match trio_walk(self.get_olds, self.exts, self.inits, bytes, pos) {
            Some(k) => match self.kv_states.spec_walk(bytes, k) {
                Some(u) => self.u8_states.spec_walk(bytes, u),
                None => None,
            },
            None => None,
        }
    }

    proof fn lemma_walk(&self, bytes: Seq<u8>, pos: int) {
        lemma_trio_walk(self.get_olds, self.exts, self.inits, bytes, pos);
        let k = trio_walk(self.get_olds, self.exts, self.inits, bytes, pos)->0;
        self.kv_states.lemma_walk(bytes, k);
        self.u8_states.lemma_walk(bytes, self.kv_states.spec_walk(bytes, k)->0);
    }

    fn deanchize<After>(&self, buf: &[u8], cur: BuildCursor<Automaton<'static>>) -> (r: BuildCursor<After>) {
        let ghost bytes = from_base(buf@, cur.buf as int);
        proof {
            lemma_trio_walk(self.get_olds, self.exts, self.inits, bytes, cur.cur as int);
            let k = trio_walk(self.get_olds, self.exts, self.inits, bytes, cur.cur as int)->0;
            self.kv_states.lemma_walk(bytes, k);
        }
        let c0: BuildCursor<AnchaSediment<'static, Bytes<'static>>> = cur.transmute();
        let c1: BuildCursor<AnchaSediment<'static, KeyValState<'static>>> = trio_deanchize(
            &self.get_olds,
            &self.exts,
            &self.inits,
            buf,
            c0,
        );
        let c2: BuildCursor<AnchaSediment<'static, U8State<'static>>> = self.kv_states.deanchize(buf, c1);
        self.u8_states.deanchize(buf, c2)
    }
}

/// Deanchization walks exactly over an anchized automaton whose key-value
/// states all have transitions.
pub proof fn lemma_automaton_walk(
    a: AutomatonAnchize,
    d: AutomatonDeanchize,
    o: AutomatonOrigin,
    ctx: AutomatonContext,
    bytes: Seq<u8>,
    pos: int,
)
    requires
        0 <= pos,
        forall|i: int| 0 <= i < o.kv_states@.len() ==> (#[trigger] o.kv_states@[i]).transitions@.len() > 0,
        a.spec_holds(o, ctx, bytes, pos),
    ensures
        d.spec_walk(bytes, pos) == Some(a.spec_end(o, pos)),
{
    a.lemma_parts(o, pos);
    lemma_trio_end(a.get_olds, a.exts, a.inits, o.get_olds, o.exts, o.inits, pos);
    super::keyval_state::lemma_bytes_sediment_walk(a.get_olds, d.get_olds, o.get_olds, ctx, bytes, pos);
    let e1 = a.get_olds.spec_end(o.get_olds, pos);
    super::keyval_state::lemma_bytes_sediment_walk(a.exts, d.exts, o.exts, ctx, bytes, e1);
    let e2 = a.exts.spec_end(o.exts, e1);
    crate::ancha::vec::lemma_vec_walk(a.inits, d.inits, o.inits, ctx, bytes, e2);
    let k = a.kv_at(o, pos);
    let kf = sediment_first::<KeyValState<'static>>(k);
    lemma_sediment_first::<KeyValState<'static>>(k);
    let track = a.kv_states.elem_ancha;
    let kd = d.kv_states.elem_deancha;
    let kos = o.kv_states@;
    assert forall|i: int, p: int|
        0 <= i < kos.len() && 0 <= p && #[trigger] track.spec_holds(kos[i], ctx, bytes, p) implies kd.spec_walk(
        bytes,
        p,
    ) == Some(track.spec_end(kos[i], p)) by {
        super::keyval_state::lemma_kv_state_walk(track.inner, kd, kos[i], ctx, bytes, p);
    }
    lemma_seq_end(track, kos, kf, 0);
    assert(kos.take(0) =~= Seq::<StateOrigin>::empty());
    crate::ancha::lemma_seq_walk_each(track, kd, kos, ctx, bytes, kf);
    let u = a.u8_at(o, pos);
    let uf = sediment_first::<U8State<'static>>(u);
    lemma_sediment_first::<U8State<'static>>(u);
    let u8t = a.u8_states.elem_ancha;
    let ud = d.u8_states.elem_deancha;
    let uos = o.u8_states@;
    assert forall|i: int, p: int|
        0 <= i < uos.len() && 0 <= p && #[trigger] u8t.spec_holds(uos[i], ctx, bytes, p) implies ud.spec_walk(
        bytes,
        p,
    ) == Some(u8t.spec_end(uos[i], p)) by {
        super::state::lemma_u8_state_walk(u8t.inner, ud, uos[i], ctx, bytes, p);
    }
    lemma_seq_end(u8t, uos, uf, 0);
    assert(uos.take(0) =~= Seq::<U8StatePrepared>::empty());
    crate::ancha::lemma_seq_walk_each(u8t, ud, uos, ctx, bytes, uf);
}

} // verus!
