//! Strategies that both lay a structure out and walk over it, built from an
//! element strategy that does both.
use vstd::prelude::*;

use super::bdd::{AnchaBdd, BddAnchize, BddDeanchize, BddOrigin};
use super::hashmap::{AnchaHashMap, HashMapAnchizeFromVec, HashMapDeanchize};
use super::list::{AnchaList, ListAnchizeFromVec, ListDeanchize};
use super::vec::{AnchaVec, VecAnchizeFromVec, VecDeanchize};
use super::{Anchize, BuildCursor, Deanchize, IsEmpty, NoopDeanchize, Reserve, StaticAnchize};

verus! {

/// A vector whose elements are laid out by `elem_ancha`; walking needs no
/// element fixup.
pub struct VecAncha<ElemAnchize> {
    pub elem_ancha: ElemAnchize,
}

impl<ElemAnchize> VecAncha<ElemAnchize> {
    pub fn new(elem_ancha: ElemAnchize) -> (r: Self)
        ensures
            r.elem_ancha == elem_ancha,
    {
        VecAncha { elem_ancha }
    }

    /// The vector anchization it lays out with.
    pub open spec fn anchizer(&self) -> VecAnchizeFromVec<&ElemAnchize> {
        VecAnchizeFromVec { elem_ancha: &self.elem_ancha }
    }

    fn anchizer_exec(&self) -> (r: VecAnchizeFromVec<&ElemAnchize>)
        ensures
            r == self.anchizer(),
    {
        VecAnchizeFromVec { elem_ancha: &self.elem_ancha }
    }
}

impl<ElemAnchize: StaticAnchize> Anchize for VecAncha<ElemAnchize> {
    type Origin = Vec<ElemAnchize::Origin>;

    type Context = ElemAnchize::Context;

    type Ancha = AnchaVec<'static, ElemAnchize::Ancha>;

    open spec fn spec_accepts(&self, origin: Self::Origin, context: Self::Context) -> bool {
        self.anchizer().spec_accepts(origin, context)
    }

    open spec fn spec_end(&self, origin: Self::Origin, pos: int) -> int {
        self.anchizer().spec_end(origin, pos)
    }

    open spec fn spec_holds(&self, origin: Self::Origin, context: Self::Context, bytes: Seq<u8>, pos: int) -> bool {
        self.anchizer().spec_holds(origin, context, bytes, pos)
    }

    proof fn lemma_end(&self, origin: Self::Origin, pos: int) {
        self.anchizer().lemma_end(origin, pos);
    }

    proof fn lemma_align_start(&self, origin: Self::Origin, context: Self::Context, bytes: Seq<u8>, pos: int) {
        self.anchizer().lemma_align_start(origin, context, bytes, pos);
    }

    proof fn lemma_frame(&self, origin: Self::Origin, context: Self::Context, b1: Seq<u8>, b2: Seq<u8>, pos: int) {
        self.anchizer().lemma_frame(origin, context, b1, b2, pos);
    }

    fn reserve(&self, origin: &Self::Origin, context: &Self::Context, sz: &mut Reserve) {
        self.anchizer_exec().reserve(origin, context, sz)
    }

    fn anchize<After>(
        &self,
        origin: &Self::Origin,
        context: &Self::Context,
        buf: &mut Vec<u8>,
        cur: BuildCursor<Self::Ancha>,
    ) -> (r: BuildCursor<After>) {
        self.anchizer_exec().anchize(origin, context, buf, cur)
    }
}

impl<ElemAnchize: StaticAnchize> Deanchize for VecAncha<ElemAnchize> {
    type Ancha = AnchaVec<'static, ElemAnchize::Ancha>;

    open spec fn spec_walk(&self, bytes: Seq<u8>, pos: int) -> Option<int> {
        super::vec::vec_walk::<ElemAnchize::Ancha>(bytes, pos)
    }

    proof fn lemma_walk(&self, bytes: Seq<u8>, pos: int) {
        VecDeanchize { elem_deancha: NoopDeanchize::<ElemAnchize::Ancha>(core::marker::PhantomData) }.lemma_walk(
            bytes,
            pos,
        );
    }

    fn deanchize<After>(&self, buf: &[u8], cur: BuildCursor<Self::Ancha>) -> (r: BuildCursor<After>) {
        let d = VecDeanchize::new(NoopDeanchize::<ElemAnchize::Ancha>::new());
        d.deanchize(buf, cur)
    }
}

/// A list whose elements are laid out and walked over by `elem_ancha`.
pub struct ListAncha<ElemAnchize> {
    pub elem_ancha: ElemAnchize,
}

impl<ElemAnchize> ListAncha<ElemAnchize> {
    pub fn new(elem_ancha: ElemAnchize) -> (r: Self)
        ensures
            r.elem_ancha == elem_ancha,
    {
        ListAncha { elem_ancha }
    }

    /// The list anchization it lays out with.
    pub open spec fn anchizer(&self) -> ListAnchizeFromVec<&ElemAnchize> {
        ListAnchizeFromVec { elem_ancha: &self.elem_ancha }
    }

    /// The list deanchization it walks with.
    pub open spec fn deanchizer(&self) -> ListDeanchize<&ElemAnchize> {
        ListDeanchize { elem_deancha: &self.elem_ancha }
    }

    fn anchizer_exec(&self) -> (r: ListAnchizeFromVec<&ElemAnchize>)
        ensures
            r == self.anchizer(),
    {
        ListAnchizeFromVec { elem_ancha: &self.elem_ancha }
    }

    fn deanchizer_exec(&self) -> (r: ListDeanchize<&ElemAnchize>)
        ensures
            r == self.deanchizer(),
    {
        ListDeanchize { elem_deancha: &self.elem_ancha }
    }
}

impl<ElemAnchize: Anchize> Anchize for ListAncha<ElemAnchize> {
    type Origin = Vec<ElemAnchize::Origin>;

    type Context = ElemAnchize::Context;

    type Ancha = AnchaList<'static, ElemAnchize::Ancha>;

    open spec fn spec_accepts(&self, origin: Self::Origin, context: Self::Context) -> bool {
        self.anchizer().spec_accepts(origin, context)
    }

    open spec fn spec_end(&self, origin: Self::Origin, pos: int) -> int {
        self.anchizer().spec_end(origin, pos)
    }

    open spec fn spec_holds(&self, origin: Self::Origin, context: Self::Context, bytes: Seq<u8>, pos: int) -> bool {
        self.anchizer().spec_holds(origin, context, bytes, pos)
    }

    proof fn lemma_end(&self, origin: Self::Origin, pos: int) {
        self.anchizer().lemma_end(origin, pos);
    }

    proof fn lemma_align_start(&self, origin: Self::Origin, context: Self::Context, bytes: Seq<u8>, pos: int) {
        self.anchizer().lemma_align_start(origin, context, bytes, pos);
    }

    proof fn lemma_frame(&self, origin: Self::Origin, context: Self::Context, b1: Seq<u8>, b2: Seq<u8>, pos: int) {
        self.anchizer().lemma_frame(origin, context, b1, b2, pos);
    }

    fn reserve(&self, origin: &Self::Origin, context: &Self::Context, sz: &mut Reserve) {
        self.anchizer_exec().reserve(origin, context, sz)
    }

    fn anchize<After>(
        &self,
        origin: &Self::Origin,
        context: &Self::Context,
        buf: &mut Vec<u8>,
        cur: BuildCursor<Self::Ancha>,
    ) -> (r: BuildCursor<After>) {
        self.anchizer_exec().anchize(origin, context, buf, cur)
    }
}

impl<ElemAnchize: Deanchize> Deanchize for ListAncha<ElemAnchize> {
    type Ancha = AnchaList<'static, ElemAnchize::Ancha>;

    open spec fn spec_walk(&self, bytes: Seq<u8>, pos: int) -> Option<int> {
        self.deanchizer().spec_walk(bytes, pos)
    }

    proof fn lemma_walk(&self, bytes: Seq<u8>, pos: int) {
        self.deanchizer().lemma_walk(bytes, pos);
    }

    fn deanchize<After>(&self, buf: &[u8], cur: BuildCursor<Self::Ancha>) -> (r: BuildCursor<After>) {
        self.deanchizer_exec().deanchize(buf, cur)
    }
}

/// A hash map whose bucket lists are laid out and walked over by
/// `alist_ancha`.
pub struct HashMapAncha<AListAnchize> {
    pub alist_ancha: AListAnchize,
}

impl<AListAnchize> HashMapAncha<AListAnchize> {
    pub fn new(alist_ancha: AListAnchize) -> (r: Self)
        ensures
            r.alist_ancha == alist_ancha,
    {
        HashMapAncha { alist_ancha }
    }

    /// The hash map anchization it lays out with.
    pub open spec fn anchizer(&self) -> HashMapAnchizeFromVec<&AListAnchize> {
        HashMapAnchizeFromVec { alist_ancha: &self.alist_ancha }
    }

    /// The hash map deanchization it walks with.
    pub open spec fn deanchizer(&self) -> HashMapDeanchize<&AListAnchize> {
        HashMapDeanchize { alist_deancha: &self.alist_ancha }
    }

    fn anchizer_exec(&self) -> (r: HashMapAnchizeFromVec<&AListAnchize>)
        ensures
            r == self.anchizer(),
    {
        HashMapAnchizeFromVec { alist_ancha: &self.alist_ancha }
    }

    fn deanchizer_exec(&self) -> (r: HashMapDeanchize<&AListAnchize>)
        ensures
            r == self.deanchizer(),
    {
        HashMapDeanchize { alist_deancha: &self.alist_ancha }
    }
}

impl<AListAnchize: Anchize> Anchize for HashMapAncha<AListAnchize> where AListAnchize::Origin: IsEmpty {
    type Origin = Vec<AListAnchize::Origin>;

    type Context = AListAnchize::Context;

    type Ancha = AnchaHashMap<'static, AListAnchize::Ancha>;

    open spec fn spec_accepts(&self, origin: Self::Origin, context: Self::Context) -> bool {
        self.anchizer().spec_accepts(origin, context)
    }

    open spec fn spec_end(&self, origin: Self::Origin, pos: int) -> int {
        self.anchizer().spec_end(origin, pos)
    }

    open spec fn spec_holds(&self, origin: Self::Origin, context: Self::Context, bytes: Seq<u8>, pos: int) -> bool {
        self.anchizer().spec_holds(origin, context, bytes, pos)
    }

    proof fn lemma_end(&self, origin: Self::Origin, pos: int) {
        self.anchizer().lemma_end(origin, pos);
    }

    proof fn lemma_align_start(&self, origin: Self::Origin, context: Self::Context, bytes: Seq<u8>, pos: int) {
        self.anchizer().lemma_align_start(origin, context, bytes, pos);
    }

    proof fn lemma_frame(&self, origin: Self::Origin, context: Self::Context, b1: Seq<u8>, b2: Seq<u8>, pos: int) {
        self.anchizer().lemma_frame(origin, context, b1, b2, pos);
    }

    fn reserve(&self, origin: &Self::Origin, context: &Self::Context, sz: &mut Reserve) {
        self.anchizer_exec().reserve(origin, context, sz)
    }

    fn anchize<After>(
        &self,
        origin: &Self::Origin,
        context: &Self::Context,
        buf: &mut Vec<u8>,
        cur: BuildCursor<Self::Ancha>,
    ) -> (r: BuildCursor<After>) {
        self.anchizer_exec().anchize(origin, context, buf, cur)
    }
}

impl<AListAnchize: Deanchize> Deanchize for HashMapAncha<AListAnchize> {
    type Ancha = AnchaHashMap<'static, AListAnchize::Ancha>;

    open spec fn spec_walk(&self, bytes: Seq<u8>, pos: int) -> Option<int> {
        self.deanchizer().spec_walk(bytes, pos)
    }

    proof fn lemma_walk(&self, bytes: Seq<u8>, pos: int) {
        self.deanchizer().lemma_walk(bytes, pos);
    }

    fn deanchize<After>(&self, buf: &[u8], cur: BuildCursor<Self::Ancha>) -> (r: BuildCursor<After>) {
        self.deanchizer_exec().deanchize(buf, cur)
    }
}

/// A decision diagram whose variables are laid out by `var_ancha` and whose
/// leaves are laid out and walked over by `leaf_ancha`.
pub struct BddAncha<VarAnchize, LeafAnchize> {
    pub var_ancha: VarAnchize,
    pub leaf_ancha: LeafAnchize,
}

impl<VarAnchize, LeafAnchize> BddAncha<VarAnchize, LeafAnchize> {
    pub fn new(var_ancha: VarAnchize, leaf_ancha: LeafAnchize) -> (r: Self)
        ensures
            r.var_ancha == var_ancha,
            r.leaf_ancha == leaf_ancha,
    {
        BddAncha { var_ancha, leaf_ancha }
    }

    /// The diagram anchization it lays out with.
    pub open spec fn anchizer(&self) -> BddAnchize<&VarAnchize, &LeafAnchize> {
        BddAnchize { var_ancha: &self.var_ancha, leaf_ancha: &self.leaf_ancha }
    }

    fn anchizer_exec(&self) -> (r: BddAnchize<&VarAnchize, &LeafAnchize>)
        ensures
            r == self.anchizer(),
    {
        BddAnchize { var_ancha: &self.var_ancha, leaf_ancha: &self.leaf_ancha }
    }
}

impl<VarAnchize: StaticAnchize, LeafAnchize: Anchize<Context = VarAnchize::Context>> Anchize for BddAncha<
    VarAnchize,
    LeafAnchize,
> {
    type Origin = BddOrigin<VarAnchize::Origin, LeafAnchize::Origin>;

    type Context = VarAnchize::Context;

    type Ancha = AnchaBdd<'static, VarAnchize::Ancha, LeafAnchize::Ancha>;

    open spec fn spec_accepts(&self, origin: Self::Origin, context: Self::Context) -> bool {
        self.anchizer().spec_accepts(origin, context)
    }

    open spec fn spec_end(&self, origin: Self::Origin, pos: int) -> int {
        self.anchizer().spec_end(origin, pos)
    }

    open spec fn spec_holds(&self, origin: Self::Origin, context: Self::Context, bytes: Seq<u8>, pos: int) -> bool {
        self.anchizer().spec_holds(origin, context, bytes, pos)
    }

    proof fn lemma_end(&self, origin: Self::Origin, pos: int) {
        self.anchizer().lemma_end(origin, pos);
    }

    proof fn lemma_align_start(&self, origin: Self::Origin, context: Self::Context, bytes: Seq<u8>, pos: int) {
        self.anchizer().lemma_align_start(origin, context, bytes, pos);
    }

    proof fn lemma_frame(&self, origin: Self::Origin, context: Self::Context, b1: Seq<u8>, b2: Seq<u8>, pos: int) {
        self.anchizer().lemma_frame(origin, context, b1, b2, pos);
    }

    fn reserve(&self, origin: &Self::Origin, context: &Self::Context, sz: &mut Reserve) {
        self.anchizer_exec().reserve(origin, context, sz)
    }

    fn anchize<After>(
        &self,
        origin: &Self::Origin,
        context: &Self::Context,
        buf: &mut Vec<u8>,
        cur: BuildCursor<Self::Ancha>,
    ) -> (r: BuildCursor<After>) {
        self.anchizer_exec().anchize(origin, context, buf, cur)
    }
}

impl<VarAnchize: StaticAnchize, LeafAnchize: Deanchize> Deanchize for BddAncha<VarAnchize, LeafAnchize> {
    type Ancha = AnchaBdd<'static, VarAnchize::Ancha, LeafAnchize::Ancha>;

    open spec fn spec_walk(&self, bytes: Seq<u8>, pos: int) -> Option<int> {
        BddDeanchize {
            var_deancha: NoopDeanchize::<VarAnchize::Ancha>(core::marker::PhantomData),
            leaf_deancha: &self.leaf_ancha,
        }.spec_walk(bytes, pos)
    }

    proof fn lemma_walk(&self, bytes: Seq<u8>, pos: int) {
        BddDeanchize {
            var_deancha: NoopDeanchize::<VarAnchize::Ancha>(core::marker::PhantomData),
            leaf_deancha: &self.leaf_ancha,
        }.lemma_walk(bytes, pos);
    }

    fn deanchize<After>(&self, buf: &[u8], cur: BuildCursor<Self::Ancha>) -> (r: BuildCursor<After>) {
        let d = BddDeanchize {
            var_deancha: NoopDeanchize::<VarAnchize::Ancha>(core::marker::PhantomData),
            leaf_deancha: &self.leaf_ancha,
        };
        d.deanchize(buf, cur)
    }
}

} // verus!
