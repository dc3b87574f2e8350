//! Key-value states in a blob.
//!
//! A key-value state is a list of transitions. A transition holds a key (a
//! byte vector), the byte states that start reading the key's value, and a
//! decision diagram over the final states of those, whose leaves say which
//! key-value states follow and what to get and to run.
use core::marker::PhantomData;
use vstd::prelude::*;

use crate::ancha::bdd::{AnchaBdd, BddAnchize, BddDeanchize, BddOrigin, bdd_plain};
use crate::ancha::list::{AnchaList, ListAnchizeFromVec, ListDeanchize};
use crate::ancha::sediment::{AnchaSediment, SedimentAnchizeFromVec, SedimentDeanchize};
use crate::ancha::tupellum::{
    lemma_trio_end, lemma_trio_frame, lemma_trio_walk, trio_anchize, trio_deanchize, trio_end,
    trio_holds, trio_reserve, trio_walk, Tupellum,
};
use crate::ancha::vec::{AnchaVec, VecAnchizeFromVec, VecDeanchize};
use crate::ancha::{
    Anchize, BuildCursor, CopyAnchize, Deanchize, Layout, NoopDeanchize, Reserve, Shifter, StaticAnchize,
    StaticDeanchize,
};

verus! {

/// A byte string in a blob.
pub type Bytes<'a> = AnchaVec<'a, u8>;

/// What to get and what to run.
pub type LeafMeta<'a> = Tupellum<'a, AnchaSediment<'a, Bytes<'a>>, AnchaSediment<'a, Bytes<'a>>>;

/// A leaf: the key-value states that follow, then its meta.
pub type Leaf0<'a> = Tupellum<'a, AnchaVec<'a, usize>, LeafMeta<'a>>;

/// The decision diagram of a transition.
pub type Finals<'a> = AnchaBdd<'a, usize, Leaf0<'a>>;

/// The initial byte states, then the decision diagram.
pub type InitsAndFinals<'a> = Tupellum<'a, AnchaVec<'a, usize>, Finals<'a>>;

/// A transition: its key, then its initial states and diagram.
pub type Tran0<'a> = Tupellum<'a, Bytes<'a>, InitsAndFinals<'a>>;

/// The transitions of a key-value state.
pub type KeyValStateSparse<'a> = AnchaList<'a, Tran0<'a>>;

/// A key-value state in a blob.
pub struct KeyValState<'a> {
    pub sparse: KeyValStateSparse<'a>,
}

impl<'a> Layout for KeyValState<'a> {
    open spec fn spec_size() -> nat {
        KeyValStateSparse::<'a>::spec_size()
    }

    open spec fn spec_align() -> nat {
        KeyValStateSparse::<'a>::spec_align()
    }

    fn size() -> (r: usize) {
        KeyValStateSparse::<'a>::size()
    }

    fn align() -> (r: usize) {
        KeyValStateSparse::<'a>::align()
    }

    proof fn lemma_layout() {
        KeyValStateSparse::<'a>::lemma_layout();
    }
}

impl<'a> KeyValState<'a> {
    /// The key-value state whose first node is at `at` of `blob`.
    pub fn from_blob(blob: &'a [u8], at: usize) -> (r: Self)
        ensures
            r.sparse.blob@ == blob@,
            r.sparse.at == at,
    {
        KeyValState { sparse: AnchaList::from_blob(blob, at) }
    }

    /// The transitions of the state, from node to node by the links: the key
    /// of each, and where its initial byte states start.
    pub fn keyvals(&self) -> (r: Vec<(Vec<u8>, usize)>)
        requires
            self.sparse.blob@.len() <= crate::ancha::max_blob(),
        ensures
            crate::keyval_runner::trans_view(r@) == crate::keyval_runner::kv_trans(
                self.sparse.blob@,
                self.sparse.at as int,
            ),
    {
        crate::keyval_runner::read_trans(self.sparse.blob, self.sparse.at)
    }
}

/// A leaf of a transition's diagram, before layout: the key-value states
/// that follow, the keys whose old values to get, and the extensions to run.
#[derive(Clone, Debug)]
pub struct LeafOrigin {
    pub states: Vec<usize>,
    pub get_olds: Vec<Vec<u8>>,
    pub exts: Vec<Vec<u8>>,
}

/// A transition before layout.
pub struct TranOrigin {
    pub key: Vec<u8>,
    pub dfa_inits: Vec<usize>,
    pub bdd: BddOrigin<usize, LeafOrigin>,
}

/// A key-value state before layout.
pub struct StateOrigin {
    pub transitions: Vec<TranOrigin>,
}

/// Contexts that know where the key-value states and the byte states of an
/// automaton are laid out.
pub trait GetQptrs {
    spec fn spec_kvqptrs(&self) -> Seq<usize>;

    spec fn spec_u8qptrs(&self) -> Seq<usize>;

    fn get_kvqptrs(&self) -> (r: &Vec<usize>)
        ensures
            r@ == self.spec_kvqptrs(),
    ;

    fn get_u8qptrs(&self) -> (r: &Vec<usize>)
        ensures
            r@ == self.spec_u8qptrs(),
    ;
}

/// Anchization of a key-value state index as the state's position.
pub struct KeyValStatePointerAnchize<Ctx> {
    pub _phantom: PhantomData<Ctx>,
}

impl<Ctx> KeyValStatePointerAnchize<Ctx> {
    pub fn new() -> Self {
        KeyValStatePointerAnchize { _phantom: PhantomData }
    }
}

impl<Ctx> Default for KeyValStatePointerAnchize<Ctx> {
    fn default() -> Self {
        Self::new()
    }
}

impl<Ctx: GetQptrs> StaticAnchize for KeyValStatePointerAnchize<Ctx> {
    type Origin = usize;

    type Context = Ctx;

    type Ancha = usize;

    open spec fn spec_accepts(&self, origin: usize, context: Ctx) -> bool {
        origin < context.spec_kvqptrs().len()
    }

    open spec fn spec_anchize_static(&self, origin: usize, context: Ctx) -> usize {
        context.spec_kvqptrs()[origin as int]
    }

    fn anchize_static(&self, origin: &usize, context: &Ctx, ancha: &mut usize) {
        let kvqptrs = context.get_kvqptrs();
        *ancha = kvqptrs[*origin];
    }
}

/// Deanchization of a key-value state position: the offset from the blob's
/// anchor becomes the absolute position.
pub struct KeyValStatePointerDeanchize {
    pub shifter: Shifter,
}

impl KeyValStatePointerDeanchize {
    pub fn new(buf: usize) -> (r: Self)
        ensures
            r.shifter.0 == buf,
    {
        KeyValStatePointerDeanchize { shifter: Shifter(buf) }
    }
}

impl Default for KeyValStatePointerDeanchize {
    fn default() -> Self {
        Self::new(0)
    }
}

impl StaticDeanchize for KeyValStatePointerDeanchize {
    type Ancha = usize;

    open spec fn spec_fixable(&self, old: usize) -> bool {
        self.shifter.0 + old <= usize::MAX
    }

    /// The anchor plus the offset.
    open spec fn spec_fix(&self, old: usize) -> usize {
        (self.shifter.0 + old) as usize
    }

    fn deanchize_static(&self, ancha: &mut usize) {
        self.shifter.shift(ancha);
    }
}

/// Anchization of a byte state index as the state's position.
pub struct U8StatePointerAnchize<Ctx> {
    pub _phantom: PhantomData<Ctx>,
}

impl<Ctx> U8StatePointerAnchize<Ctx> {
    pub fn new() -> Self {
        U8StatePointerAnchize { _phantom: PhantomData }
    }
}

impl<Ctx> Default for U8StatePointerAnchize<Ctx> {
    fn default() -> Self {
        Self::new()
    }
}

impl<Ctx: GetQptrs> StaticAnchize for U8StatePointerAnchize<Ctx> {
    type Origin = usize;

    type Context = Ctx;

    type Ancha = usize;

    open spec fn spec_accepts(&self, origin: usize, context: Ctx) -> bool {
        origin < context.spec_u8qptrs().len()
    }

    open spec fn spec_anchize_static(&self, origin: usize, context: Ctx) -> usize {
        context.spec_u8qptrs()[origin as int]
    }

    fn anchize_static(&self, origin: &usize, context: &Ctx, ancha: &mut usize) {
        let u8qptrs = context.get_u8qptrs();
        *ancha = u8qptrs[*origin];
    }
}

/// Deanchization of a byte state position: the offset from the blob's
/// anchor becomes the absolute position.
pub struct U8StatePointerDeanchize {
    pub shifter: Shifter,
}

impl U8StatePointerDeanchize {
    pub fn new(buf: usize) -> (r: Self)
        ensures
            r.shifter.0 == buf,
    {
        U8StatePointerDeanchize { shifter: Shifter(buf) }
    }
}

impl Default for U8StatePointerDeanchize {
    fn default() -> Self {
        Self::new(0)
    }
}

impl StaticDeanchize for U8StatePointerDeanchize {
    type Ancha = usize;

    open spec fn spec_fixable(&self, old: usize) -> bool {
        self.shifter.0 + old <= usize::MAX
    }

    /// The anchor plus the offset.
    open spec fn spec_fix(&self, old: usize) -> usize {
        (self.shifter.0 + old) as usize
    }

    fn deanchize_static(&self, ancha: &mut usize) {
        self.shifter.shift(ancha);
    }
}

/// The strategy for a list of byte strings.
pub type BytesSedimentAnchize<Ctx> = SedimentAnchizeFromVec<VecAnchizeFromVec<CopyAnchize<u8, Ctx>>>;

/// Anchization of a leaf: its states, its gets and its extensions, one
/// behind the other.
pub struct LeafAnchize<Ctx> {
    pub states: VecAnchizeFromVec<KeyValStatePointerAnchize<Ctx>>,
    pub get_olds: BytesSedimentAnchize<Ctx>,
    pub exts: BytesSedimentAnchize<Ctx>,
}

impl<Ctx> LeafAnchize<Ctx> {
    pub fn new() -> Self {
        LeafAnchize {
            states: VecAnchizeFromVec::new(KeyValStatePointerAnchize::new()),
            get_olds: SedimentAnchizeFromVec::new(VecAnchizeFromVec::new(CopyAnchize::new())),
            exts: SedimentAnchizeFromVec::new(VecAnchizeFromVec::new(CopyAnchize::new())),
        }
    }
}

impl<Ctx> Default for LeafAnchize<Ctx> {
    fn default() -> Self {
        Self::new()
    }
}

impl<Ctx: GetQptrs> Anchize for LeafAnchize<Ctx> {
    type Origin = LeafOrigin;

    type Context = Ctx;

    type Ancha = Leaf0<'static>;

    open spec fn spec_accepts(&self, origin: LeafOrigin, context: Ctx) -> bool {
        &&& self.states.spec_accepts(origin.states, context)
        &&& self.get_olds.spec_accepts(origin.get_olds, context)
        &&& self.exts.spec_accepts(origin.exts, context)
    }

    open spec fn spec_end(&self, origin: LeafOrigin, pos: int) -> int {
        trio_end(self.states, self.get_olds, self.exts, origin.states, origin.get_olds, origin.exts, pos)
    }

    open spec fn spec_holds(&self, origin: LeafOrigin, context: Ctx, bytes: Seq<u8>, pos: int) -> bool {
        trio_holds(
            self.states,
            self.get_olds,
            self.exts,
            origin.states,
            origin.get_olds,
            origin.exts,
            context,
            bytes,
            pos,
        )
    }

    proof fn lemma_end(&self, origin: LeafOrigin, pos: int) {
        lemma_trio_end(self.states, self.get_olds, self.exts, origin.states, origin.get_olds, origin.exts, pos);
    }

    proof fn lemma_align_start(&self, origin: LeafOrigin, context: Ctx, bytes: Seq<u8>, pos: int) {
        self.states.lemma_align_start(origin.states, context, bytes, pos);
    }

    proof fn lemma_frame(&self, origin: LeafOrigin, context: Ctx, b1: Seq<u8>, b2: Seq<u8>, pos: int) {
        lemma_trio_frame(
            self.states,
            self.get_olds,
            self.exts,
            origin.states,
            origin.get_olds,
            origin.exts,
            context,
            b1,
            b2,
            pos,
        );
    }

    fn reserve(&self, origin: &LeafOrigin, context: &Ctx, sz: &mut Reserve) {
        trio_reserve(&self.states, &self.get_olds, &self.exts, &origin.states, &origin.get_olds, &origin.exts, context, sz);
    }

    fn anchize<After>(
        &self,
        origin: &LeafOrigin,
        context: &Ctx,
        buf: &mut Vec<u8>,
        cur: BuildCursor<Leaf0<'static>>,
    ) -> (r: BuildCursor<After>) {
        let c: BuildCursor<AnchaVec<'static, usize>> = cur.transmute();
        trio_anchize(
            &self.states,
            &self.get_olds,
            &self.exts,
            &origin.states,
            &origin.get_olds,
            &origin.exts,
            context,
            buf,
            c,
        )
    }
}

/// The strategy for walking over a list of byte strings.
pub type BytesSedimentDeanchize = SedimentDeanchize<VecDeanchize<NoopDeanchize<u8>>>;

/// Deanchization of a leaf.
pub struct LeafDeanchize {
    pub states: VecDeanchize<KeyValStatePointerDeanchize>,
    pub get_olds: BytesSedimentDeanchize,
    pub exts: BytesSedimentDeanchize,
}

impl LeafDeanchize {
    /// The strategy for the blob anchored at `buf`.
    pub fn new(buf: usize) -> (r: Self)
        ensures
            r.states.elem_deancha.shifter.0 == buf,
    {
        LeafDeanchize {
            states: VecDeanchize::new(KeyValStatePointerDeanchize::new(buf)),
            get_olds: SedimentDeanchize::new(VecDeanchize::new(NoopDeanchize::new())),
            exts: SedimentDeanchize::new(VecDeanchize::new(NoopDeanchize::new())),
        }
    }
}

impl Default for LeafDeanchize {
    fn default() -> Self {
        Self::new(0)
    }
}

impl Deanchize for LeafDeanchize {
    type Ancha = Leaf0<'static>;

    open spec fn spec_walk(&self, bytes: Seq<u8>, pos: int) -> Option<int> {
        trio_walk(self.states, self.get_olds, self.exts, bytes, pos)
    }

    proof fn lemma_walk(&self, bytes: Seq<u8>, pos: int) {
        lemma_trio_walk(self.states, self.get_olds, self.exts, bytes, pos);
    }

    fn deanchize<After>(&self, buf: &[u8], cur: BuildCursor<Leaf0<'static>>) -> (r: BuildCursor<After>) {
        let c: BuildCursor<AnchaVec<'static, usize>> = cur.transmute();
        trio_deanchize(&self.states, &self.get_olds, &self.exts, buf, c)
    }
}

/// Anchization of a transition: its key, its initial states and its
/// diagram, one behind the other.
pub struct TranAnchize<Ctx> {
    pub key: VecAnchizeFromVec<CopyAnchize<u8, Ctx>>,
    pub inits: VecAnchizeFromVec<U8StatePointerAnchize<Ctx>>,
    pub finals: BddAnchize<CopyAnchize<usize, Ctx>, LeafAnchize<Ctx>>,
}

impl<Ctx> TranAnchize<Ctx> {
    pub fn new() -> Self {
        TranAnchize {
            key: VecAnchizeFromVec::new(CopyAnchize::new()),
            inits: VecAnchizeFromVec::new(U8StatePointerAnchize::new()),
            finals: BddAnchize::new(CopyAnchize::new(), LeafAnchize::new()),
        }
    }
}

impl<Ctx> Default for TranAnchize<Ctx> {
    fn default() -> Self {
        Self::new()
    }
}

impl<Ctx: GetQptrs> Anchize for TranAnchize<Ctx> {
    type Origin = TranOrigin;

    type Context = Ctx;

    type Ancha = Tran0<'static>;

    open spec fn spec_accepts(&self, origin: TranOrigin, context: Ctx) -> bool {
        &&& self.key.spec_accepts(origin.key, context)
        &&& self.inits.spec_accepts(origin.dfa_inits, context)
        &&& self.finals.spec_accepts(origin.bdd, context)
        &&& bdd_plain(origin.bdd)
    }

    open spec fn spec_end(&self, origin: TranOrigin, pos: int) -> int {
        trio_end(self.key, self.inits, self.finals, origin.key, origin.dfa_inits, origin.bdd, pos)
    }

    /// A transition's diagram has no detached parts, so that a walk over it
    /// finds where it ends.
    open spec fn spec_holds(&self, origin: TranOrigin, context: Ctx, bytes: Seq<u8>, pos: int) -> bool {
        bdd_plain(origin.bdd) && trio_holds(self.key, self.inits, self.finals, origin.key, origin.dfa_inits, origin.bdd, context, bytes, pos)
    }

    proof fn lemma_end(&self, origin: TranOrigin, pos: int) {
        lemma_trio_end(self.key, self.inits, self.finals, origin.key, origin.dfa_inits, origin.bdd, pos);
    }

    proof fn lemma_align_start(&self, origin: TranOrigin, context: Ctx, bytes: Seq<u8>, pos: int) {
        self.key.lemma_align_start(origin.key, context, bytes, pos);
    }

    proof fn lemma_frame(&self, origin: TranOrigin, context: Ctx, b1: Seq<u8>, b2: Seq<u8>, pos: int) {
        lemma_trio_frame(
            self.key,
            self.inits,
            self.finals,
            origin.key,
            origin.dfa_inits,
            origin.bdd,
            context,
            b1,
            b2,
            pos,
        );
    }

    fn reserve(&self, origin: &TranOrigin, context: &Ctx, sz: &mut Reserve) {
        trio_reserve(&self.key, &self.inits, &self.finals, &origin.key, &origin.dfa_inits, &origin.bdd, context, sz);
    }

    fn anchize<After>(
        &self,
        origin: &TranOrigin,
        context: &Ctx,
        buf: &mut Vec<u8>,
        cur: BuildCursor<Tran0<'static>>,
    ) -> (r: BuildCursor<After>) {
        let c: BuildCursor<Bytes<'static>> = cur.transmute();
        trio_anchize(
            &self.key,
            &self.inits,
            &self.finals,
            &origin.key,
            &origin.dfa_inits,
            &origin.bdd,
            context,
            buf,
            c,
        )
    }
}

/// Deanchization of a transition.
pub struct TranDeanchize {
    pub key: VecDeanchize<NoopDeanchize<u8>>,
    pub inits: VecDeanchize<U8StatePointerDeanchize>,
    pub finals: BddDeanchize<NoopDeanchize<usize>, LeafDeanchize>,
}

impl TranDeanchize {
    /// The strategy for the blob anchored at `buf`.
    pub fn new(buf: usize) -> (r: Self)
        ensures
            r.inits.elem_deancha.shifter.0 == buf,
            r.finals.leaf_deancha.states.elem_deancha.shifter.0 == buf,
    {
        TranDeanchize {
            key: VecDeanchize::new(NoopDeanchize::new()),
            inits: VecDeanchize::new(U8StatePointerDeanchize::new(buf)),
            finals: BddDeanchize::new(NoopDeanchize::new(), LeafDeanchize::new(buf)),
        }
    }
}

impl Default for TranDeanchize {
    fn default() -> Self {
        Self::new(0)
    }
}

impl Deanchize for TranDeanchize {
    type Ancha = Tran0<'static>;

    open spec fn spec_walk(&self, bytes: Seq<u8>, pos: int) -> Option<int> {
        trio_walk(self.key, self.inits, self.finals, bytes, pos)
    }

    proof fn lemma_walk(&self, bytes: Seq<u8>, pos: int) {
        lemma_trio_walk(self.key, self.inits, self.finals, bytes, pos);
    }

    fn deanchize<After>(&self, buf: &[u8], cur: BuildCursor<Tran0<'static>>) -> (r: BuildCursor<After>) {
        let c: BuildCursor<Bytes<'static>> = cur.transmute();
        trio_deanchize(&self.key, &self.inits, &self.finals, buf, c)
    }
}

/// Anchization of a key-value state: the list of its transitions.
pub struct KeyValStateAnchize<Ctx> {
    pub sparse: ListAnchizeFromVec<TranAnchize<Ctx>>,
}

impl<Ctx> KeyValStateAnchize<Ctx> {
    pub fn new() -> Self {
        KeyValStateAnchize { sparse: ListAnchizeFromVec::new(TranAnchize::new()) }
    }
}

impl<Ctx> Default for KeyValStateAnchize<Ctx> {
    fn default() -> Self {
        Self::new()
    }
}

impl<Ctx: GetQptrs> Anchize for KeyValStateAnchize<Ctx> {
    type Origin = StateOrigin;

    type Context = Ctx;

    type Ancha = KeyValState<'static>;

    open spec fn spec_accepts(&self, origin: StateOrigin, context: Ctx) -> bool {
        self.sparse.spec_accepts(origin.transitions, context)
    }

    open spec fn spec_end(&self, origin: StateOrigin, pos: int) -> int {
        self.sparse.spec_end(origin.transitions, pos)
    }

    open spec fn spec_holds(&self, origin: StateOrigin, context: Ctx, bytes: Seq<u8>, pos: int) -> bool {
        self.sparse.spec_holds(origin.transitions, context, bytes, pos)
    }

    proof fn lemma_end(&self, origin: StateOrigin, pos: int) {
        self.sparse.lemma_end(origin.transitions, pos);
    }

    #[verifier::spinoff_prover]
    proof fn lemma_align_start(&self, origin: StateOrigin, context: Ctx, bytes: Seq<u8>, pos: int) {
        assert(KeyValState::<'static>::spec_align() == KeyValStateSparse::<'static>::spec_align());
        self.sparse.lemma_align_start(origin.transitions, context, bytes, pos);
    }

    proof fn lemma_frame(&self, origin: StateOrigin, context: Ctx, b1: Seq<u8>, b2: Seq<u8>, pos: int) {
        self.sparse.lemma_frame(origin.transitions, context, b1, b2, pos);
    }

    fn reserve(&self, origin: &StateOrigin, context: &Ctx, sz: &mut Reserve) {
        self.sparse.reserve(&origin.transitions, context, sz);
    }

    fn anchize<After>(
        &self,
        origin: &StateOrigin,
        context: &Ctx,
        buf: &mut Vec<u8>,
        cur: BuildCursor<KeyValState<'static>>,
    ) -> (r: BuildCursor<After>) {
        let c: BuildCursor<KeyValStateSparse<'static>> = cur.transmute();
        self.sparse.anchize(&origin.transitions, context, buf, c)
    }
}

/// Deanchization of a key-value state.
pub struct KeyValStateDeanchize {
    pub sparse: ListDeanchize<TranDeanchize>,
}

impl KeyValStateDeanchize {
    /// The strategy for the blob anchored at `buf`.
    pub fn new(buf: usize) -> (r: Self)
        ensures
            r.sparse.elem_deancha.inits.elem_deancha.shifter.0 == buf,
            r.sparse.elem_deancha.finals.leaf_deancha.states.elem_deancha.shifter.0 == buf,
    {
        KeyValStateDeanchize { sparse: ListDeanchize::new(TranDeanchize::new(buf)) }
    }
}

impl Default for KeyValStateDeanchize {
    fn default() -> Self {
        Self::new(0)
    }
}

impl Deanchize for KeyValStateDeanchize {
    type Ancha = KeyValState<'static>;

    open spec fn spec_walk(&self, bytes: Seq<u8>, pos: int) -> Option<int> {
        self.sparse.spec_walk(bytes, pos)
    }

    proof fn lemma_walk(&self, bytes: Seq<u8>, pos: int) {
        self.sparse.lemma_walk(bytes, pos);
    }

    fn deanchize<After>(&self, buf: &[u8], cur: BuildCursor<KeyValState<'static>>) -> (r: BuildCursor<After>) {
        let c: BuildCursor<KeyValStateSparse<'static>> = cur.transmute();
        self.sparse.deanchize(buf, c)
    }
}

/// Deanchization walks exactly over an anchized byte string.
pub proof fn lemma_bytes_walks<Ctx>(
    a: VecAnchizeFromVec<CopyAnchize<u8, Ctx>>,
    d: VecDeanchize<NoopDeanchize<u8>>,
    ctx: Ctx,
    bytes: Seq<u8>,
)
    ensures
        forall|o: Vec<u8>, p: int|
            0 <= p && #[trigger] a.spec_holds(o, ctx, bytes, p) ==> d.spec_walk(bytes, p) == Some(a.spec_end(o, p)),
{
    assert forall|o: Vec<u8>, p: int| 0 <= p && #[trigger] a.spec_holds(o, ctx, bytes, p) implies d.spec_walk(
        bytes,
        p,
    ) == Some(a.spec_end(o, p)) by {
        crate::ancha::vec::lemma_vec_walk(a, d, o, ctx, bytes, p);
    }
}

/// Deanchization walks exactly over an anchized list of byte strings.
pub proof fn lemma_bytes_sediment_walk<Ctx>(
    a: BytesSedimentAnchize<Ctx>,
    d: BytesSedimentDeanchize,
    o: Vec<Vec<u8>>,
    ctx: Ctx,
    bytes: Seq<u8>,
    pos: int,
)
    requires
        0 <= pos,
        a.spec_holds(o, ctx, bytes, pos),
    ensures
        d.spec_walk(bytes, pos) == Some(a.spec_end(o, pos)),
{
    lemma_bytes_walks(a.elem_ancha, d.elem_deancha, ctx, bytes);
    crate::ancha::sediment::lemma_sediment_walk(a, d, o, ctx, bytes, pos);
}

/// Deanchization walks exactly over an anchized leaf.
pub proof fn lemma_leaf_walk<Ctx: GetQptrs>(
    a: LeafAnchize<Ctx>,
    d: LeafDeanchize,
    o: LeafOrigin,
    ctx: Ctx,
    bytes: Seq<u8>,
    pos: int,
)
    requires
        0 <= pos,
        a.spec_holds(o, ctx, bytes, pos),
    ensures
        d.spec_walk(bytes, pos) == Some(a.spec_end(o, pos)),
{
    lemma_trio_end(a.states, a.get_olds, a.exts, o.states, o.get_olds, o.exts, pos);
    crate::ancha::vec::lemma_vec_walk(a.states, d.states, o.states, ctx, bytes, pos);
    let e1 = a.states.spec_end(o.states, pos);
    lemma_bytes_sediment_walk(a.get_olds, d.get_olds, o.get_olds, ctx, bytes, e1);
    let e2 = a.get_olds.spec_end(o.get_olds, e1);
    lemma_bytes_sediment_walk(a.exts, d.exts, o.exts, ctx, bytes, e2);
}

/// Deanchization walks exactly over an anchized transition.
pub proof fn lemma_tran_walk<Ctx: GetQptrs>(
    a: TranAnchize<Ctx>,
    d: TranDeanchize,
    o: TranOrigin,
    ctx: Ctx,
    bytes: Seq<u8>,
    pos: int,
)
    requires
        0 <= pos,
        a.spec_holds(o, ctx, bytes, pos),
    ensures
        d.spec_walk(bytes, pos) == Some(a.spec_end(o, pos)),
{
    lemma_trio_end(a.key, a.inits, a.finals, o.key, o.dfa_inits, o.bdd, pos);
    crate::ancha::vec::lemma_vec_walk(a.key, d.key, o.key, ctx, bytes, pos);
    let e1 = a.key.spec_end(o.key, pos);
    crate::ancha::vec::lemma_vec_walk(a.inits, d.inits, o.dfa_inits, ctx, bytes, e1);
    let e2 = a.inits.spec_end(o.dfa_inits, e1);
    assert forall|l: LeafOrigin, p: int|
        0 <= p && #[trigger] a.finals.leaf_ancha.spec_holds(l, ctx, bytes, p) implies d.finals.leaf_deancha.spec_walk(
        bytes,
        p,
    ) == Some(a.finals.leaf_ancha.spec_end(l, p)) by {
        lemma_leaf_walk(a.finals.leaf_ancha, d.finals.leaf_deancha, l, ctx, bytes, p);
    }
    crate::ancha::bdd::lemma_bdd_walk(a.finals, d.finals, o.bdd, ctx, bytes, e2);
}

/// Deanchization walks exactly over an anchized key-value state that has
/// transitions.
pub proof fn lemma_kv_state_walk<Ctx: GetQptrs>(
    a: KeyValStateAnchize<Ctx>,
    d: KeyValStateDeanchize,
    o: StateOrigin,
    ctx: Ctx,
    bytes: Seq<u8>,
    pos: int,
)
    requires
        0 <= pos,
        o.transitions@.len() > 0,
        a.spec_holds(o, ctx, bytes, pos),
    ensures
        d.spec_walk(bytes, pos) == Some(a.spec_end(o, pos)),
{
    assert forall|t: TranOrigin, p: int|
        0 <= p && #[trigger] a.sparse.elem_ancha.spec_holds(t, ctx, bytes, p) implies d.sparse.elem_deancha.spec_walk(
        bytes,
        p,
    ) == Some(a.sparse.elem_ancha.spec_end(t, p)) by {
        lemma_tran_walk(a.sparse.elem_ancha, d.sparse.elem_deancha, t, ctx, bytes, p);
    }
    crate::ancha::list::lemma_list_walk(a.sparse, d.sparse, o.transitions, ctx, bytes, pos);
}

} // verus!
