//! Byte-automaton states in a blob.
//!
//! A state is sparse (transitions kept by guard, and per byte in a hash map)
//! or dense (a table of 256 target lists, one per byte).
use core::marker::PhantomData;
use vstd::prelude::*;

use crate::ancha::arrmap::{AnchaArrMap, ArrMapAnchizeFromArray, ArrMapDeanchize};
use crate::ancha::hashmap::{hm_key_bucket, hm_lookup, hm_start, lemma_hm_end_ge, lemma_hm_lookup, AnchaHashMap, HashMapAnchizeFromVec, HashMapDeanchize};
use crate::ancha::vec::{vec_elem, vec_end, AnchaVec, VecAnchizeFromVec, VecDeanchize};
use crate::ancha::vecmap::{
    lemma_vm_bounds, lemma_vm_first_range, lemma_vm_item, lemma_vm_lookup, lemma_vm_stride, vm_align_exec,
    vm_first, vm_item, vm_stride_exec, vm_voff, AnchaVecMap, VecMapAncha,
};
use crate::ancha::{
    align_up, cell_at, from_base, lemma_align_idem, lemma_align_up, lemma_cell_from_base, lemma_subrange_within,
    lemma_unchanged_cell, lemma_unchanged_holds, lemma_write_cell, max_blob, spec_align_up,
    unchanged_outside, Anchize, BuildCursor, Cell, CopyAnchize, Deanchize, Layout, NoopDeanchize,
    IsEmpty, Reserve, SecondAnchize, Shifter, StaticAnchize, StaticDeanchize,
};
use crate::guards::{guard_has, Guard};

verus! {

/// A dense state ready to be laid out: its tags and, for each byte, the
/// states that the byte leads to.
pub struct U8DenseStatePrepared {
    pub tags: Vec<usize>,
    pub trans: [Vec<usize>; 256],
}

/// A sparse state ready to be laid out: its tags, the targets of each large
/// guard, and the buckets of the per-byte transitions.
pub struct U8SparseStatePrepared {
    pub tags: Vec<usize>,
    pub pattern_trans: Vec<(Guard, Vec<usize>)>,
    pub explicit_trans: Vec<Vec<(u8, Vec<usize>)>>,
}

/// A state ready to be laid out.
pub enum U8StatePrepared {
    Sparse(U8SparseStatePrepared),
    Dense(U8DenseStatePrepared),
}

impl U8StatePrepared {
    /// The tags of the state.
    pub open spec fn spec_tags(self) -> Vec<usize> {
        match self {
            U8StatePrepared::Sparse(s) => s.tags,
            U8StatePrepared::Dense(d) => d.tags,
        }
    }
}

/// Contexts that know where the states of an automaton are laid out:
/// state `i` is at position `qptrs[i]` of the blob.
pub trait GetQptrs {
    spec fn spec_qptrs(&self) -> Seq<usize>;

    fn get_qptrs(&self) -> (r: &Vec<usize>)
        ensures
            r@ == self.spec_qptrs(),
    ;
}

/// Anchization of a state index as the position of the state.
pub struct StatePointerAnchize<Ctx> {
    pub _phantom: PhantomData<Ctx>,
}

impl<Ctx> StatePointerAnchize<Ctx> {
    pub fn new() -> Self {
        StatePointerAnchize { _phantom: PhantomData }
    }
}

impl<Ctx> Default for StatePointerAnchize<Ctx> {
    fn default() -> Self {
        StatePointerAnchize { _phantom: PhantomData }
    }
}

impl<Ctx: GetQptrs> StaticAnchize for StatePointerAnchize<Ctx> {
    type Origin = usize;

    type Context = Ctx;

    type Ancha = usize;

    open spec fn spec_accepts(&self, origin: usize, context: Ctx) -> bool {
        origin < context.spec_qptrs().len()
    }

    open spec fn spec_anchize_static(&self, origin: usize, context: Ctx) -> usize {
        context.spec_qptrs()[origin as int]
    }

    fn anchize_static(&self, origin: &usize, context: &Ctx, ancha: &mut usize) {
        let qptrs = context.get_qptrs();
        *ancha = qptrs[*origin];
    }
}

/// Deanchization of a state position: the offset from the blob's anchor
/// (which the shifter holds) becomes the absolute position.
pub struct StatePointerDeanchize {
    pub shifter: Shifter,
}

impl StatePointerDeanchize {
    /// The strategy for the blob anchored at `buf`.
    pub fn new(buf: usize) -> (r: Self)
        ensures
            r.shifter.0 == buf,
    {
        StatePointerDeanchize { shifter: Shifter(buf) }
    }
}

impl StaticDeanchize for StatePointerDeanchize {
    type Ancha = usize;

    open spec fn spec_fixable(&self, old: usize) -> bool {
        self.shifter.0 + old <= usize::MAX
    }

    /// The anchor plus the offset.
    open spec fn spec_fix(&self, old: usize) -> usize {
        (self.shifter.0 + old) as usize
    }

    fn deanchize_static(&self, ancha: &mut usize) {
        self.shifter.shift(ancha);
    }
}

/// A state in a blob. The head of a state is `[is_dense: bool][pad]
/// [tags: usize]`; a sparse state goes on with `[explicit: usize]` and its
/// guard transitions (a vector map), behind which lie its byte transitions
/// (a hash map of vector maps, at `explicit`); a dense state goes on with an
/// array map of 256 target vectors. The tags (a vector) come last; `tags`
/// holds their position, 0 where there are none.
pub struct U8State<'a> {
    pub blob: &'a [u8],
    /// Position of the state.
    pub at: usize,
}

impl<'a> Layout for U8State<'a> {
    open spec fn spec_size() -> nat {
        16
    }

    open spec fn spec_align() -> nat {
        8
    }

    fn size() -> (r: usize) {
        16
    }

    fn align() -> (r: usize) {
        8
    }

    proof fn lemma_layout() {
    }
}

/// The strategy for the targets of one transition list.
pub type PtrVecAnchize<Ctx> = VecAnchizeFromVec<StatePointerAnchize<Ctx>>;

/// The strategy for the guard transitions of a sparse state.
pub type PatternAnchize<Ctx> = VecMapAncha<CopyAnchize<Guard, Ctx>, PtrVecAnchize<Ctx>>;

/// The strategy for one bucket of the byte transitions of a sparse state.
pub type AListAnchize<Ctx> = VecMapAncha<CopyAnchize<u8, Ctx>, PtrVecAnchize<Ctx>>;

/// The strategy for the byte transitions of a sparse state.
pub type ExplicitAnchize<Ctx> = HashMapAnchizeFromVec<AListAnchize<Ctx>>;

/// The strategy for the transitions of a dense state.
pub type DenseAnchize<Ctx> = ArrMapAnchizeFromArray<256, PtrVecAnchize<Ctx>>;

/// The strategy for the tags of a state.
pub type TagsAnchize<Ctx> = VecAnchizeFromVec<CopyAnchize<usize, Ctx>>;

/// Anchization of a prepared state into a `U8State`.
pub struct U8StateAnchize<Ctx> {
    pub pattern: PatternAnchize<Ctx>,
    pub explicit: ExplicitAnchize<Ctx>,
    pub dense: DenseAnchize<Ctx>,
    pub tags: TagsAnchize<Ctx>,
}

impl<Ctx> U8StateAnchize<Ctx> {
    pub fn new() -> Self {
        U8StateAnchize {
            pattern: VecMapAncha::new(CopyAnchize::new(), VecAnchizeFromVec::new(StatePointerAnchize::new())),
            explicit: HashMapAnchizeFromVec::new(
                VecMapAncha::new(CopyAnchize::new(), VecAnchizeFromVec::new(StatePointerAnchize::new())),
            ),
            dense: ArrMapAnchizeFromArray::new(VecAnchizeFromVec::new(StatePointerAnchize::new())),
            tags: VecAnchizeFromVec::new(CopyAnchize::new()),
        }
    }
}

impl<Ctx> Default for U8StateAnchize<Ctx> {
    fn default() -> Self {
        Self::new()
    }
}

/// Position of a state laid out from `pos` on.
pub open spec fn st_at(pos: int) -> int {
    spec_align_up(pos, 8)
}

impl<Ctx: GetQptrs> U8StateAnchize<Ctx> {
    /// Position of the byte transitions of a sparse state.
    pub open spec fn explicit_at(&self, origin: U8StatePrepared, pos: int) -> int {
        match origin {
            U8StatePrepared::Sparse(s) => spec_align_up(self.pattern.spec_end(s.pattern_trans, st_at(pos) + 24), 8),
            U8StatePrepared::Dense(_) => 0,
        }
    }

    /// Position behind the transitions.
    pub open spec fn trans_end(&self, origin: U8StatePrepared, pos: int) -> int {
        match origin {
            U8StatePrepared::Sparse(s) => self.explicit.spec_end(s.explicit_trans, self.explicit_at(origin, pos)),
            U8StatePrepared::Dense(d) => self.dense.spec_end(d.trans, st_at(pos) + 16),
        }
    }

    /// Position of the tags, where there are some.
    pub open spec fn tags_at(&self, origin: U8StatePrepared, pos: int) -> int {
        spec_align_up(self.trans_end(origin, pos), 8)
    }

    /// Where the parts of a state lie.
    pub proof fn lemma_parts(&self, origin: U8StatePrepared, pos: int)
        requires
            0 <= pos,
        ensures
            pos <= st_at(pos) < pos + 8,
            st_at(pos) % 8 == 0,
            origin is Sparse ==> st_at(pos) + 24 <= self.explicit_at(origin, pos) < self.explicit_at(origin, pos) + 8 <= self.trans_end(origin, pos),
            origin is Sparse ==> self.explicit_at(origin, pos) % 8 == 0,
            origin is Sparse ==> self.pattern.spec_end(origin->Sparse_0.pattern_trans, st_at(pos) + 24) <= self.explicit_at(origin, pos),
            origin is Dense ==> st_at(pos) + 16 <= self.trans_end(origin, pos),
            self.trans_end(origin, pos) <= self.tags_at(origin, pos) < self.trans_end(origin, pos) + 8,
            self.tags_at(origin, pos) % 8 == 0,
            self.tags_at(origin, pos) <= self.tags.spec_end(origin.spec_tags(), self.tags_at(origin, pos)),
            self.trans_end(origin, pos) <= self.spec_end(origin, pos),
    {
        lemma_align_up(pos, 8);
        match origin {
            U8StatePrepared::Sparse(s) => {
                let p = st_at(pos);
                self.pattern.lemma_end(s.pattern_trans, p + 24);
                let h = self.explicit_at(origin, pos);
                lemma_align_up(self.pattern.spec_end(s.pattern_trans, p + 24), 8);
                self.explicit.lemma_end(s.explicit_trans, h);
                lemma_align_idem(h, 8);
                crate::ancha::lemma_align_up_aligned(h, 8);
                lemma_explicit_head(self.explicit, s.explicit_trans, h);
            },
            U8StatePrepared::Dense(d) => {
                self.dense.lemma_end(d.trans, st_at(pos) + 16);
            },
        }
        lemma_align_up(self.trans_end(origin, pos), 8);
        self.tags.lemma_end(origin.spec_tags(), self.tags_at(origin, pos));
    }
}

impl<Ctx: GetQptrs> U8StateAnchize<Ctx> {
    /// A state takes at least its head (its kind and its tags' position);
    /// its tags take room only where it has some.
    pub proof fn lemma_state_room(&self, origin: U8StatePrepared, pos: int)
        requires
            0 <= pos,
        ensures
            st_at(pos) + 16 <= self.spec_end(origin, pos),
            origin.spec_tags()@.len() == 0 ==> self.spec_end(origin, pos) == self.trans_end(origin, pos),
            origin.spec_tags()@.len() > 0 ==> self.trans_end(origin, pos) + 8 + 8 * origin.spec_tags()@.len()
                <= self.spec_end(origin, pos),
    {
        self.lemma_parts(origin, pos);
        let t = self.tags_at(origin, pos);
        crate::ancha::lemma_align_up_aligned(t, 8);
        crate::ancha::vec::lemma_vec_end::<usize>(t, origin.spec_tags()@.len() as int);
        lemma_align_up(t + 8, 8);
        crate::ancha::lemma_align_up_aligned(t + 8, 8);
    }
}

/// Two states that differ only in their tags.
pub open spec fn same_but_tags(o1: U8StatePrepared, o2: U8StatePrepared) -> bool {
    match (o1, o2) {
        (U8StatePrepared::Sparse(a), U8StatePrepared::Sparse(b)) => a.pattern_trans == b.pattern_trans
            && a.explicit_trans == b.explicit_trans,
        (U8StatePrepared::Dense(a), U8StatePrepared::Dense(b)) => a.trans == b.trans,
        _ => false,
    }
}

impl<Ctx: GetQptrs> U8StateAnchize<Ctx> {
    /// Tags take room only where a state has some: of two states that
    /// differ only in their tags, laid out from the same position, the
    /// transitions end at the same place, and the one with tags reserves
    /// more than the one without.
    pub proof fn lemma_tags_take_room(&self, o1: U8StatePrepared, o2: U8StatePrepared, pos: int)
        requires
            0 <= pos,
            same_but_tags(o1, o2),
            o1.spec_tags()@.len() == 0,
            o2.spec_tags()@.len() > 0,
        ensures
            self.trans_end(o1, pos) == self.trans_end(o2, pos),
            self.spec_end(o1, pos) < self.spec_end(o2, pos),
    {
        self.lemma_state_room(o1, pos);
        self.lemma_state_room(o2, pos);
    }
}

/// A hash map takes at least its mask.
proof fn lemma_explicit_head<Ctx: GetQptrs>(e: ExplicitAnchize<Ctx>, o: Vec<Vec<(u8, Vec<usize>)>>, h: int)
    requires
        0 <= h,
        h % 8 == 0,
    ensures
        h + 8 <= e.spec_end(o, h),
{
    lemma_align_idem(h, 8);
    crate::ancha::lemma_align_up_aligned(h, 8);
    let start = hm_start::<AnchaVecMap<'static, u8, AnchaVec<'static, usize>>>(h, o@.len() as int);
    lemma_align_up(h + 8 + 8 * o@.len(), 8);
    lemma_hm_end_ge(e.alist_ancha, o@, start);
}

/// Changes inside two ranges stay inside a range that holds both.
proof fn lemma_unchanged_join(b1: Seq<u8>, b2: Seq<u8>, b3: Seq<u8>, lo1: int, hi1: int, lo2: int, hi2: int, lo: int, hi: int)
    requires
        unchanged_outside(b1, b2, lo1, hi1),
        unchanged_outside(b2, b3, lo2, hi2),
        lo <= lo1,
        hi1 <= hi,
        lo <= lo2,
        hi2 <= hi,
    ensures
        unchanged_outside(b1, b3, lo, hi),
{
}

impl<Ctx: GetQptrs> U8StateAnchize<Ctx> {
    /// The transitions of a state hold.
    pub open spec fn trans_hold(&self, origin: U8StatePrepared, context: Ctx, bytes: Seq<u8>, pos: int) -> bool {
        match origin {
            U8StatePrepared::Sparse(s) => {
                &&& self.pattern.spec_holds(s.pattern_trans, context, bytes, st_at(pos) + 24)
                &&& self.explicit.spec_holds(s.explicit_trans, context, bytes, self.explicit_at(origin, pos))
            },
            U8StatePrepared::Dense(d) => self.dense.spec_holds(d.trans, context, bytes, st_at(pos) + 16),
        }
    }

    /// Where the transitions of a state start.
    pub open spec fn trans_start(origin: U8StatePrepared, pos: int) -> int {
        if origin is Dense { st_at(pos) + 16 } else { st_at(pos) + 24 }
    }

    /// Changes outside the transitions keep them.
    pub proof fn lemma_trans_keep(
        &self,
        origin: U8StatePrepared,
        context: Ctx,
        b1: Seq<u8>,
        b2: Seq<u8>,
        lo: int,
        hi: int,
        pos: int,
    )
        requires
            0 <= pos,
            unchanged_outside(b1, b2, lo, hi),
            self.trans_end(origin, pos) <= b1.len(),
            self.trans_end(origin, pos) <= lo || hi <= Self::trans_start(origin, pos),
            self.trans_hold(origin, context, b1, pos),
        ensures
            self.trans_hold(origin, context, b2, pos),
    {
        self.lemma_parts(origin, pos);
        match origin {
            U8StatePrepared::Sparse(s) => {
                let p = st_at(pos);
                self.pattern.lemma_end(s.pattern_trans, p + 24);
                lemma_unchanged_holds(self.pattern, s.pattern_trans, context, b1, b2, lo, hi, p + 24);
                lemma_unchanged_holds(self.explicit, s.explicit_trans, context, b1, b2, lo, hi, self.explicit_at(origin, pos));
            },
            U8StatePrepared::Dense(d) => {
                lemma_unchanged_holds(self.dense, d.trans, context, b1, b2, lo, hi, st_at(pos) + 16);
            },
        }
    }

    /// Lays out the transitions of a state at `p`; returns the position
    /// behind them and, for a sparse state, where its byte transitions are.
    fn anchize_trans(
        &self,
        origin: &U8StatePrepared,
        context: &Ctx,
        buf: &mut Vec<u8>,
        base: usize,
        p: usize,
        Ghost(pos): Ghost<int>,
    ) -> (r: (usize, usize))
        requires
            0 <= pos,
            p == st_at(pos),
            self.spec_accepts(*origin, *context),
            base + self.trans_end(*origin, pos) <= old(buf)@.len(),
            old(buf)@.len() <= max_blob(),
        ensures
            r.0 == self.trans_end(*origin, pos),
            r.1 == self.explicit_at(*origin, pos),
            final(buf)@.len() == old(buf)@.len(),
            unchanged_outside(old(buf)@, final(buf)@, base + Self::trans_start(*origin, pos), base + r.0),
            self.trans_hold(*origin, *context, from_base(final(buf)@, base as int), pos),
    {
        proof {
            self.lemma_parts(*origin, pos);
        }
        let ghost b0 = buf@;
        match origin {
            U8StatePrepared::Sparse(s) => {
                proof {
                    self.pattern.lemma_end(s.pattern_trans, p + 24);
                }
                let c1: BuildCursor<AnchaVecMap<'static, Guard, AnchaVec<'static, usize>>> = BuildCursor {
                    cur: p + 24,
                    buf: base,
                    _phantom: PhantomData,
                };
                let e1: BuildCursor<u8> = self.pattern.anchize(&s.pattern_trans, context, buf, c1);
                let ghost b1 = buf@;
                let h = align_up(e1.cur, 8);
                let c2: BuildCursor<AnchaHashMap<'static, AnchaVecMap<'static, u8, AnchaVec<'static, usize>>>> =
                    BuildCursor { cur: h, buf: base, _phantom: PhantomData };
                let e2: BuildCursor<u8> = self.explicit.anchize(&s.explicit_trans, context, buf, c2);
                proof {
                    crate::ancha::lemma_from_base_unchanged(b1, buf@, base as int, h as int, e2.cur as int);
                    lemma_unchanged_holds(
                        self.pattern,
                        s.pattern_trans,
                        *context,
                        from_base(b1, base as int),
                        from_base(buf@, base as int),
                        h as int,
                        e2.cur as int,
                        p + 24,
                    );
                    lemma_unchanged_join(b0, b1, buf@, base + p + 24, base + e1.cur, base + h, base + e2.cur, base + p + 24, base + e2.cur);
                }
                (e2.cur, h)
            },
            U8StatePrepared::Dense(d) => {
                let c1: BuildCursor<AnchaArrMap<'static, 256, AnchaVec<'static, usize>>> = BuildCursor {
                    cur: p + 16,
                    buf: base,
                    _phantom: PhantomData,
                };
                let e1: BuildCursor<u8> = self.dense.anchize(&d.trans, context, buf, c1);
                (e1.cur, 0)
            },
        }
    }

    /// Writes the head of a state at `p`.
    fn write_head(&self, buf: &mut Vec<u8>, base: usize, p: usize, is_dense: bool, tags: usize, explicit: usize)
        requires
            base + p + (if is_dense { 16int } else { 24int }) <= old(buf)@.len(),
            old(buf)@.len() <= max_blob(),
        ensures
            final(buf)@.len() == old(buf)@.len(),
            unchanged_outside(old(buf)@, final(buf)@, base + p, base + p + if is_dense { 16int } else { 24int }),
            cell_at::<bool>(final(buf)@, base + p) == is_dense,
            cell_at::<usize>(final(buf)@, base + p + 8) == tags,
            !is_dense ==> cell_at::<usize>(final(buf)@, base + p + 16) == explicit,
    {
        let ghost bc = buf@;
        is_dense.write_cell(buf, base + p);
        let ghost bd = buf@;
        tags.write_cell(buf, base + p + 8);
        let ghost be = buf@;
        if !is_dense {
            explicit.write_cell(buf, base + p + 16);
        }
        proof {
            lemma_write_cell::<bool>(bc, bd, base + p, is_dense);
            lemma_write_cell::<usize>(bd, be, base + p + 8, tags);
            lemma_unchanged_cell::<bool>(bd, be, base + p + 8, base + p + 16, base + p);
            if !is_dense {
                lemma_write_cell::<usize>(be, buf@, base + p + 16, explicit);
                lemma_unchanged_cell::<usize>(be, buf@, base + p + 16, base + p + 24, base + p + 8);
                lemma_unchanged_cell::<bool>(be, buf@, base + p + 16, base + p + 24, base + p);
            }
        }
    }
}

impl<Ctx: GetQptrs> Anchize for U8StateAnchize<Ctx> {
    type Origin = U8StatePrepared;

    type Context = Ctx;

    type Ancha = U8State<'static>;

    open spec fn spec_accepts(&self, origin: U8StatePrepared, context: Ctx) -> bool {
        &&& self.tags.spec_accepts(origin.spec_tags(), context)
        &&& match origin {
            U8StatePrepared::Sparse(s) => {
                &&& self.pattern.spec_accepts(s.pattern_trans, context)
                &&& self.explicit.spec_accepts(s.explicit_trans, context)
            },
            U8StatePrepared::Dense(d) => self.dense.spec_accepts(d.trans, context),
        }
    }

    open spec fn spec_end(&self, origin: U8StatePrepared, pos: int) -> int {
        if origin.spec_tags()@.len() == 0 {
            self.trans_end(origin, pos)
        } else {
            self.tags.spec_end(origin.spec_tags(), self.tags_at(origin, pos))
        }
    }

    open spec fn spec_holds(&self, origin: U8StatePrepared, context: Ctx, bytes: Seq<u8>, pos: int) -> bool {
        let p = st_at(pos);
        let tags = origin.spec_tags();
        &&& self.spec_end(origin, pos) <= bytes.len()
        &&& cell_at::<bool>(bytes, p) == (origin is Dense)
        &&& cell_at::<usize>(bytes, p + 8) == (if tags@.len() == 0 { 0 } else { self.tags_at(origin, pos) })
        &&& match origin {
            U8StatePrepared::Sparse(s) => {
                &&& cell_at::<usize>(bytes, p + 16) == self.explicit_at(origin, pos)
                &&& self.pattern.spec_holds(s.pattern_trans, context, bytes, p + 24)
                &&& self.explicit.spec_holds(s.explicit_trans, context, bytes, self.explicit_at(origin, pos))
            },
            U8StatePrepared::Dense(d) => self.dense.spec_holds(d.trans, context, bytes, p + 16),
        }
        &&& tags@.len() > 0 ==> self.tags.spec_holds(tags, context, bytes, self.tags_at(origin, pos))
    }

    proof fn lemma_end(&self, origin: U8StatePrepared, pos: int) {
        self.lemma_parts(origin, pos);
    }

    #[verifier::spinoff_prover]
    proof fn lemma_align_start(&self, origin: U8StatePrepared, context: Ctx, bytes: Seq<u8>, pos: int) {
        lemma_align_idem(pos, 8);
        let q = spec_align_up(pos, 8);
        assert(st_at(q) == st_at(pos));
        assert(self.explicit_at(origin, q) == self.explicit_at(origin, pos));
        assert(self.trans_end(origin, q) == self.trans_end(origin, pos));
        assert(self.tags_at(origin, q) == self.tags_at(origin, pos));
        assert(U8State::<'static>::spec_align() == 8);
        assert(self.spec_end(origin, q) == self.spec_end(origin, pos));
    }

    proof fn lemma_frame(&self, origin: U8StatePrepared, context: Ctx, b1: Seq<u8>, b2: Seq<u8>, pos: int) {
        let p = st_at(pos);
        let end = self.spec_end(origin, pos);
        let tags = origin.spec_tags();
        let ta = self.tags_at(origin, pos);
        self.lemma_parts(origin, pos);
        lemma_subrange_within(b1, b2, pos, end, p, p + 1);
        lemma_subrange_within(b1, b2, pos, end, p + 8, p + 16);
        assert(cell_at::<bool>(b1, p) == cell_at::<bool>(b2, p));
        assert(cell_at::<usize>(b1, p + 8) == cell_at::<usize>(b2, p + 8));
        match origin {
            U8StatePrepared::Sparse(s) => {
                let h = self.explicit_at(origin, pos);
                let pe = self.pattern.spec_end(s.pattern_trans, p + 24);
                lemma_subrange_within(b1, b2, pos, end, p + 16, p + 24);
                assert(cell_at::<usize>(b1, p + 16) == cell_at::<usize>(b2, p + 16));
                self.pattern.lemma_end(s.pattern_trans, p + 24);
                lemma_subrange_within(b1, b2, pos, end, p + 24, pe);
                self.pattern.lemma_frame(s.pattern_trans, context, b1, b2, p + 24);
                lemma_subrange_within(b1, b2, pos, end, h, self.trans_end(origin, pos));
                self.explicit.lemma_frame(s.explicit_trans, context, b1, b2, h);
            },
            U8StatePrepared::Dense(d) => {
                lemma_subrange_within(b1, b2, pos, end, p + 16, self.trans_end(origin, pos));
                self.dense.lemma_frame(d.trans, context, b1, b2, p + 16);
            },
        }
        if tags@.len() > 0 {
            lemma_subrange_within(b1, b2, pos, end, ta, end);
            self.tags.lemma_frame(tags, context, b1, b2, ta);
        }
    }

    fn reserve(&self, origin: &U8StatePrepared, context: &Ctx, sz: &mut Reserve) {
        let ghost pos = old(sz).0 as int;
        proof {
            self.lemma_parts(*origin, pos);
        }
        sz.add::<U8State<'static>>(0);
        match origin {
            U8StatePrepared::Sparse(s) => {
                sz.0 = sz.0 + 24;
                self.pattern.reserve(&s.pattern_trans, context, sz);
                sz.0 = align_up(sz.0, 8);
                self.explicit.reserve(&s.explicit_trans, context, sz);
            },
            U8StatePrepared::Dense(d) => {
                sz.0 = sz.0 + 16;
                self.dense.reserve(&d.trans, context, sz);
            },
        }
        let tags = match origin {
            U8StatePrepared::Sparse(s) => &s.tags,
            U8StatePrepared::Dense(d) => &d.tags,
        };
        if tags.len() > 0 {
            sz.0 = align_up(sz.0, 8);
            self.tags.reserve(tags, context, sz);
        }
    }

    fn anchize<After>(
        &self,
        origin: &U8StatePrepared,
        context: &Ctx,
        buf: &mut Vec<u8>,
        cur: BuildCursor<U8State<'static>>,
    ) -> (r: BuildCursor<After>) {
        let ghost pos = cur.cur as int;
        let ghost base = cur.buf as int;
        let ghost p = st_at(pos);
        let ghost tg = origin.spec_tags();
        let ghost og = *origin;
        proof {
            self.lemma_parts(*origin, pos);
            lemma_align_idem(pos, 8);
        }
        let cur: BuildCursor<U8State<'static>> = cur.align();
        let (tend, explicit) = self.anchize_trans(origin, context, buf, cur.buf, cur.cur, Ghost(pos));
        let ghost bt = buf@;
        let tags = match origin {
            U8StatePrepared::Sparse(s) => &s.tags,
            U8StatePrepared::Dense(d) => &d.tags,
        };
        let tags_pos: usize;
        let end: usize;
        if tags.len() > 0 {
            let t = align_up(tend, 8);
            let ct: BuildCursor<AnchaVec<'static, usize>> = BuildCursor { cur: t, buf: cur.buf, _phantom: PhantomData };
            let e3: BuildCursor<u8> = self.tags.anchize(tags, context, buf, ct);
            tags_pos = t;
            end = e3.cur;
            proof {
                self.lemma_trans_keep(og, *context, from_base(bt, base), from_base(buf@, base), t as int, end as int, pos);
            }
        } else {
            tags_pos = 0;
            end = tend;
        }
        let is_dense = match origin {
            U8StatePrepared::Sparse(_) => false,
            U8StatePrepared::Dense(_) => true,
        };
        let ghost bc = buf@;
        self.write_head(buf, cur.buf, cur.cur, is_dense, tags_pos, explicit);
        proof {
            let hi = if is_dense { p + 16 } else { p + 24 };
            let f0 = from_base(bc, base);
            let f1 = from_base(buf@, base);
            crate::ancha::lemma_from_base_unchanged(bc, buf@, base, p, hi);
            lemma_cell_from_base::<bool>(buf@, base, p);
            lemma_cell_from_base::<usize>(buf@, base, p + 8);
            if !is_dense {
                lemma_cell_from_base::<usize>(buf@, base, p + 16);
            }
            self.lemma_trans_keep(og, *context, f0, f1, p, hi, pos);
            if tg@.len() > 0 {
                lemma_unchanged_holds(self.tags, tg, *context, f0, f1, p, hi, tags_pos as int);
            }
        }
        BuildCursor { cur: end, buf: cur.buf, _phantom: PhantomData }
    }
}

} // verus!

verus! {

/// The strategy for walking over one target vector.
pub type PtrVecDeanchize = VecDeanchize<StatePointerDeanchize>;

/// Deanchization of a `U8State`: walks over the state and finds the
/// position behind it.
pub struct U8StateDeanchize {
    pub pattern: VecMapAncha<CopyAnchize<Guard, ()>, PtrVecDeanchize>,
    pub explicit: HashMapDeanchize<VecMapAncha<CopyAnchize<u8, ()>, PtrVecDeanchize>>,
    pub dense: ArrMapDeanchize<256, PtrVecDeanchize>,
    pub tags: VecDeanchize<NoopDeanchize<usize>>,
}

impl U8StateDeanchize {
    /// The strategy for the blob anchored at `buf`.
    pub fn new(buf: usize) -> (r: Self)
        ensures
            r.pattern.val_ancha.elem_deancha.shifter.0 == buf,
            r.explicit.alist_deancha.val_ancha.elem_deancha.shifter.0 == buf,
            r.dense.value_deancha.elem_deancha.shifter.0 == buf,
    {
        U8StateDeanchize {
            pattern: VecMapAncha::new(CopyAnchize::new(), VecDeanchize::new(StatePointerDeanchize::new(buf))),
            explicit: HashMapDeanchize::new(
                VecMapAncha::new(CopyAnchize::new(), VecDeanchize::new(StatePointerDeanchize::new(buf))),
            ),
            dense: ArrMapDeanchize::new(VecDeanchize::new(StatePointerDeanchize::new(buf))),
            tags: VecDeanchize::new(NoopDeanchize::new()),
        }
    }

    /// Position behind the transitions of the state at `p`.
    pub open spec fn trans_walk(&self, bytes: Seq<u8>, p: int) -> Option<int> {
        if cell_at::<bool>(bytes, p) {
            self.dense.spec_walk(bytes, p + 16)
        } else {
            match self.pattern.spec_walk(bytes, p + 24) {
                Some(e) => self.explicit.spec_walk(bytes, e),
                None => None,
            }
        }
    }
}

impl Deanchize for U8StateDeanchize {
    type Ancha = U8State<'static>;

    open spec fn spec_walk(&self, bytes: Seq<u8>, pos: int) -> Option<int> {
        let p = st_at(pos);
        if p + 24 > bytes.len() {
            None
        } else {
            match self.trans_walk(bytes, p) {
                Some(e) => if cell_at::<usize>(bytes, p + 8) == 0 {
                    Some(e)
                } else {
                    self.tags.spec_walk(bytes, spec_align_up(e, 8))
                },
                None => None,
            }
        }
    }

    proof fn lemma_walk(&self, bytes: Seq<u8>, pos: int) {
        let p = st_at(pos);
        lemma_align_up(pos, 8);
        if cell_at::<bool>(bytes, p) {
            self.dense.lemma_walk(bytes, p + 16);
        } else {
            self.pattern.lemma_walk(bytes, p + 24);
            self.explicit.lemma_walk(bytes, self.pattern.spec_walk(bytes, p + 24)->0);
        }
        let e = self.trans_walk(bytes, p)->0;
        if cell_at::<usize>(bytes, p + 8) != 0 {
            lemma_align_up(e, 8);
            self.tags.lemma_walk(bytes, spec_align_up(e, 8));
        }
    }

    fn deanchize<After>(&self, buf: &[u8], cur: BuildCursor<U8State<'static>>) -> (r: BuildCursor<After>) {
        let ghost bytes = from_base(buf@, cur.buf as int);
        let ghost pos = cur.cur as int;
        let ghost p = st_at(pos);
        proof {
            lemma_align_up(pos, 8);
            lemma_cell_from_base::<bool>(buf@, cur.buf as int, p);
            lemma_cell_from_base::<usize>(buf@, cur.buf as int, p + 8);
        }
        let cur: BuildCursor<U8State<'static>> = cur.align();
        let is_dense = bool::read_cell(buf, cur.buf + cur.cur);
        let tags = usize::read_cell(buf, cur.buf + cur.cur + 8);
        let e: BuildCursor<u8> = if is_dense {
            let c1: BuildCursor<AnchaArrMap<'static, 256, AnchaVec<'static, usize>>> = BuildCursor {
                cur: cur.cur + 16,
                buf: cur.buf,
                _phantom: PhantomData,
            };
            self.dense.deanchize(buf, c1)
        } else {
            let c1: BuildCursor<AnchaVecMap<'static, Guard, AnchaVec<'static, usize>>> = BuildCursor {
                cur: cur.cur + 24,
                buf: cur.buf,
                _phantom: PhantomData,
            };
            proof {
                self.pattern.lemma_walk(bytes, p + 24);
            }
            let e1: BuildCursor<AnchaHashMap<'static, AnchaVecMap<'static, u8, AnchaVec<'static, usize>>>> =
                self.pattern.deanchize(buf, c1);
            self.explicit.deanchize(buf, e1)
        };
        if tags == 0 {
            BuildCursor { cur: e.cur, buf: e.buf, _phantom: PhantomData }
        } else {
            proof {
                if is_dense {
                    self.dense.lemma_walk(bytes, p + 16);
                } else {
                    self.explicit.lemma_walk(bytes, self.pattern.spec_walk(bytes, p + 24)->0);
                }
            }
            let t: BuildCursor<AnchaVec<'static, usize>> = e.align();
            self.tags.deanchize(buf, t)
        }
    }
}

} // verus!

verus! {

/// The head of a sparse state, as read from the blob.
pub struct U8SparseState {
    pub is_dense: bool,
    /// Position of the tags, 0 where there are none.
    pub tags: usize,
    /// Position of the byte transitions.
    pub explicit_trans: usize,
    /// Position of the guard transitions.
    pub pattern_trans: usize,
}

/// The head of a dense state, as read from the blob.
pub struct U8DenseState {
    pub is_dense: bool,
    /// Position of the tags, 0 where there are none.
    pub tags: usize,
    /// Position of the table of transitions.
    pub trans: usize,
}

/// The vector of indices laid out from `t` on (its header aligned), read
/// back; nothing where it does not fit in the blob.
pub open spec fn ixs_at(bytes: Seq<u8>, t: int) -> Seq<usize> {
    let a = spec_align_up(t, 8);
    let n = cell_at::<usize>(bytes, a) as int;
    if 0 <= t && a + 8 <= bytes.len() && vec_end::<usize>(a, n) <= bytes.len() {
        Seq::new(n as nat, |i: int| cell_at::<usize>(bytes, vec_elem::<usize>(a, i)))
    } else {
        Seq::empty()
    }
}

/// Reads the vector of indices laid out from `t` on.
pub fn read_ixs(blob: &[u8], t: usize) -> (r: Vec<usize>)
    requires
        blob@.len() <= max_blob(),
    ensures
        r@ == ixs_at(blob@, t as int),
{
    let len = blob.len();
    if t > len {
        return Vec::new();
    }
    proof {
        lemma_align_up(t as int, 8);
    }
    let a = align_up(t, 8);
    if !(a < len && 8 <= len - a) {
        return Vec::new();
    }
    let v = AnchaVec::<usize>::from_blob(blob, a);
    proof {
        lemma_align_up(a + 8, 8);
    }
    let start = align_up(a + 8, 8);
    if start > len || (len - start) / 8 < v.len {
        proof {
            if start <= len {
                assert(vec_end::<usize>(a as int, v.len as int) > len) by (nonlinear_arith)
                    requires
                        (len - start) / 8 < v.len,
                        vec_end::<usize>(a as int, v.len as int) == start + v.len * 8,
                ;
            }
        }
        return Vec::new();
    }
    proof {
        assert(vec_end::<usize>(a as int, v.len as int) <= len) by (nonlinear_arith)
            requires
                (len - start) / 8 >= v.len,
                start <= len,
                vec_end::<usize>(a as int, v.len as int) == start + v.len * 8,
        ;
    }
    let r = v.as_ref();
    assert(r@ =~= ixs_at(blob@, t as int));
    r
}

/// A vector of indices laid out from `q` on reads back as the images of its
/// origin.
pub proof fn lemma_ixs_read<E: StaticAnchize<Ancha = usize>>(
    a: VecAnchizeFromVec<E>,
    o: Vec<E::Origin>,
    ctx: E::Context,
    bytes: Seq<u8>,
    q: int,
)
    requires
        0 <= q,
        a.spec_holds(o, ctx, bytes, q),
    ensures
        ixs_at(bytes, q) == o@.map_values(|x: E::Origin| a.elem_ancha.spec_anchize_static(x, ctx)),
{
    let at = spec_align_up(q, 8);
    lemma_align_up(q, 8);
    crate::ancha::vec::lemma_vec_end::<usize>(at, o@.len() as int);
    assert forall|i: int| 0 <= i < o@.len() implies ixs_at(bytes, q)[i] == a.elem_ancha.spec_anchize_static(
        o@[i],
        ctx,
    ) by {
        assert(crate::ancha::vec::vec_holds_elem(a.elem_ancha, o@[i], ctx, bytes, at, i));
    }
    assert(ixs_at(bytes, q) =~= o@.map_values(|x: E::Origin| a.elem_ancha.spec_anchize_static(x, ctx)));
}

/// The tags of an anchized state read back as those of its origin.
pub proof fn lemma_state_tags<Ctx: GetQptrs>(
    anchize: U8StateAnchize<Ctx>,
    origin: U8StatePrepared,
    ctx: Ctx,
    bytes: Seq<u8>,
    pos: int,
)
    requires
        0 <= pos,
        anchize.spec_holds(origin, ctx, bytes, pos),
    ensures
        state_tags(bytes, st_at(pos)) == origin.spec_tags()@,
{
    anchize.lemma_parts(origin, pos);
    let tags = origin.spec_tags();
    if tags@.len() > 0 {
        lemma_ixs_read(anchize.tags, tags, ctx, bytes, anchize.tags_at(origin, pos));
        assert(tags@.map_values(|x: usize| anchize.tags.elem_ancha.spec_anchize_static(x, ctx)) =~= tags@);
    }
}

/// Each byte takes, from an anchized dense state, the positions of the
/// states of its table entry.
pub proof fn lemma_dense_targets<Ctx: GetQptrs>(
    anchize: U8StateAnchize<Ctx>,
    d: U8DenseStatePrepared,
    ctx: Ctx,
    bytes: Seq<u8>,
    pos: int,
    c: u8,
)
    requires
        0 <= pos,
        anchize.spec_holds(U8StatePrepared::Dense(d), ctx, bytes, pos),
    ensures
        state_targets(bytes, st_at(pos), c) == d.trans@[c as int]@.map_values(
            |i: usize| ctx.spec_qptrs()[i as int],
        ),
{
    let origin = U8StatePrepared::Dense(d);
    let p = st_at(pos);
    anchize.lemma_parts(origin, pos);
    lemma_align_up(pos, 8);
    crate::ancha::lemma_align_up_aligned(p + 16, 8);
    crate::ancha::arrmap::lemma_arrmap_bounds(anchize.dense.value_ancha, d.trans@, p + 16, 256);
    crate::ancha::arrmap::lemma_arrmap_get(anchize.dense, d.trans, ctx, bytes, p + 16, c as int);
    let q = cell_at::<usize>(bytes, p + 16 + 8 * c) as int;
    lemma_ixs_read(anchize.dense.value_ancha, d.trans@[c as int], ctx, bytes, q);
    assert(d.trans@[c as int]@.map_values(|x: usize| anchize.dense.value_ancha.elem_ancha.spec_anchize_static(x, ctx))
        =~= d.trans@[c as int]@.map_values(|i: usize| ctx.spec_qptrs()[i as int]));
}

/// The targets of the guard transitions from item `i` on (of `n`) of the
/// vector map at `vm` that byte `c` takes.
pub open spec fn pattern_targets(bytes: Seq<u8>, vm: int, c: u8, i: int, n: int) -> Seq<usize>
    decreases n - i,
{
    if i >= n {
        Seq::empty()
    } else {
        let item = vm_item::<Guard>(vm, i);
        let rest = pattern_targets(bytes, vm, c, i + 1, n);
        if guard_has(cell_at::<Guard>(bytes, item), c) {
            ixs_at(bytes, cell_at::<usize>(bytes, item + vm_voff::<Guard>()) as int) + rest
        } else {
            rest
        }
    }
}

/// The bucket lists of the byte transitions.
pub type U8AList<'a> = AnchaVecMap<'a, u8, AnchaVec<'a, usize>>;

/// The targets that byte `c` takes from the state at `at`, in the order in
/// which the state gives them: for a dense state its table entry; for a
/// sparse state the targets of the guards that hold `c`, then those of its
/// byte transitions.
pub open spec fn state_targets(bytes: Seq<u8>, at: int, c: u8) -> Seq<usize> {
    if cell_at::<bool>(bytes, at) {
        let slot = at + 16 + 8 * c;
        if slot + 8 <= bytes.len() {
            ixs_at(bytes, cell_at::<usize>(bytes, slot) as int)
        } else {
            Seq::empty()
        }
    } else {
        let vm = at + 24;
        let n = cell_at::<usize>(bytes, vm) as int;
        let pattern = if vm + 8 <= bytes.len() && vm_item::<Guard>(vm, n) <= bytes.len() {
            pattern_targets(bytes, vm, c, 0, n)
        } else {
            Seq::empty()
        };
        let explicit = match hm_lookup::<U8AList<'static>>(bytes, cell_at::<usize>(bytes, at + 16) as int, c) {
            Some(v) => ixs_at(bytes, v),
            None => Seq::empty(),
        };
        pattern + explicit
    }
}

/// The tags of the state at `at`.
pub open spec fn state_tags(bytes: Seq<u8>, at: int) -> Seq<usize> {
    if cell_at::<usize>(bytes, at + 8) == 0 {
        Seq::empty()
    } else {
        ixs_at(bytes, cell_at::<usize>(bytes, at + 8) as int)
    }
}

/// The targets of a sparse state, gathered.
pub struct U8SparseStateIterator {
    pub states: Vec<usize>,
    pub ix: usize,
}

/// The targets of a dense state.
pub struct U8DenseStateIterator {
    pub states: Vec<usize>,
    pub ix: usize,
}

/// The targets that a byte takes from a state, one by one.
pub enum U8StateIterator {
    Sparse(U8SparseStateIterator),
    Dense(U8DenseStateIterator),
}

impl U8StateIterator {
    /// The targets still to come.
    pub open spec fn rest(&self) -> Seq<usize> {
        match self {
            U8StateIterator::Sparse(it) => it.states@.skip(it.ix as int),
            U8StateIterator::Dense(it) => it.states@.skip(it.ix as int),
        }
    }

    /// The iterator has not run past its targets.
    pub open spec fn wf(&self) -> bool {
        match self {
            U8StateIterator::Sparse(it) => it.ix <= it.states@.len(),
            U8StateIterator::Dense(it) => it.ix <= it.states@.len(),
        }
    }

    /// The next target, if any.
    pub fn next(&mut self) -> (r: Option<usize>)
        requires
            old(self).wf(),
        ensures
            final(self).wf(),
            old(self).rest().len() == 0 ==> r is None && final(self).rest() == old(self).rest(),
            old(self).rest().len() > 0 ==> r == Some(old(self).rest()[0]) && final(self).rest()
                == old(self).rest().drop_first(),
    {
        match self {
            U8StateIterator::Sparse(it) => {
                if it.ix < it.states.len() {
                    let x = it.states[it.ix];
                    it.ix = it.ix + 1;
                    proof {
                        assert(it.states@.skip(it.ix as int) =~= it.states@.skip(it.ix - 1).drop_first());
                    }
                    Some(x)
                } else {
                    None
                }
            },
            U8StateIterator::Dense(it) => {
                if it.ix < it.states.len() {
                    let x = it.states[it.ix];
                    it.ix = it.ix + 1;
                    proof {
                        assert(it.states@.skip(it.ix as int) =~= it.states@.skip(it.ix - 1).drop_first());
                    }
                    Some(x)
                } else {
                    None
                }
            },
        }
    }
}

impl<'a> U8State<'a> {
    /// The state at `at` of `blob`.
    pub fn from_blob(blob: &'a [u8], at: usize) -> (r: Self)
        ensures
            r.blob@ == blob@,
            r.at == at,
    {
        U8State { blob, at }
    }

    /// Whether the state is dense.
    pub fn is_dense(&self) -> (r: bool)
        requires
            self.at + 24 <= self.blob@.len(),
            self.blob@.len() <= max_blob(),
        ensures
            r == cell_at::<bool>(self.blob@, self.at as int),
    {
        bool::read_cell(self.blob, self.at)
    }

    /// The head of the state, read as that of a sparse state.
    pub fn sparse(&self) -> (r: U8SparseState)
        requires
            self.at + 24 <= self.blob@.len(),
            self.blob@.len() <= max_blob(),
        ensures
            r.is_dense == cell_at::<bool>(self.blob@, self.at as int),
            r.tags == cell_at::<usize>(self.blob@, self.at + 8),
            r.explicit_trans == cell_at::<usize>(self.blob@, self.at + 16),
            r.pattern_trans == self.at + 24,
    {
        U8SparseState {
            is_dense: bool::read_cell(self.blob, self.at),
            tags: usize::read_cell(self.blob, self.at + 8),
            explicit_trans: usize::read_cell(self.blob, self.at + 16),
            pattern_trans: self.at + 24,
        }
    }

    /// The head of the state, read as that of a dense state.
    pub fn dense(&self) -> (r: U8DenseState)
        requires
            self.at + 24 <= self.blob@.len(),
            self.blob@.len() <= max_blob(),
        ensures
            r.is_dense == cell_at::<bool>(self.blob@, self.at as int),
            r.tags == cell_at::<usize>(self.blob@, self.at + 8),
            r.trans == self.at + 16,
    {
        U8DenseState {
            is_dense: bool::read_cell(self.blob, self.at),
            tags: usize::read_cell(self.blob, self.at + 8),
            trans: self.at + 16,
        }
    }

    /// The tags of the state.
    pub fn get_tags(&self) -> (r: Vec<usize>)
        requires
            self.at + 24 <= self.blob@.len(),
            self.blob@.len() <= max_blob(),
        ensures
            r@ == state_tags(self.blob@, self.at as int),
    {
        let t = usize::read_cell(self.blob, self.at + 8);
        if t == 0 {
            Vec::new()
        } else {
            read_ixs(self.blob, t)
        }
    }

    /// The targets that byte `c` takes from the state.
    pub fn iter_matches(&self, c: u8) -> (r: U8StateIterator)
        requires
            self.at + 24 <= self.blob@.len(),
            self.blob@.len() <= max_blob(),
        ensures
            r.wf(),
            r.rest() == state_targets(self.blob@, self.at as int, c),
            (r is Dense) == cell_at::<bool>(self.blob@, self.at as int),
    {
        let len = self.blob.len();
        if bool::read_cell(self.blob, self.at) {
            let slot = self.at + 16 + 8 * (c as usize);
            let states = if slot < len && 8 <= len - slot {
                let t = usize::read_cell(self.blob, slot);
                read_ixs(self.blob, t)
            } else {
                Vec::new()
            };
            proof {
                assert(states@.skip(0) =~= states@);
            }
            U8StateIterator::Dense(U8DenseStateIterator { states, ix: 0 })
        } else {
            let ghost bytes = self.blob@;
            let vm = self.at + 24;
            let mut states: Vec<usize> = Vec::new();
            if vm < len && 8 <= len - vm {
                let m = AnchaVecMap::<Guard, AnchaVec<usize>>::from_blob(self.blob, vm);
                proof {
                    lemma_vm_stride::<Guard>();
                    lemma_vm_item::<Guard>(vm as int, 0, 0);
                }
                let items = align_up(vm + 8, vm_align_exec::<Guard>());
                let stride = vm_stride_exec::<Guard>();
                if items <= len && m.len <= (len - items) / stride {
                    proof {
                        assert(vm_item::<Guard>(vm as int, m.len as int) <= len) by (nonlinear_arith)
                            requires
                                m.len <= ((len - items) as int) / (stride as int),
                                items <= len,
                                stride > 0,
                                vm_item::<Guard>(vm as int, m.len as int) == items + m.len * stride,
                        ;
                    }
                    let mut i: usize = 0;
                    while i < m.len
                        invariant
                            m.wf(),
                            m.blob@ == bytes,
                            m.at == vm,
                            m.len == cell_at::<usize>(bytes, vm as int),
                            bytes.len() <= max_blob(),
                            i <= m.len,
                            states@ + pattern_targets(bytes, vm as int, c, i as int, m.len as int)
                                == pattern_targets(bytes, vm as int, c, 0, m.len as int),
                        decreases m.len - i,
                    {
                        let item = m.get(i);
                        if item.key.contains(c) {
                            let mut ts = read_ixs(m.blob, item.val);
                            let ghost s0 = states@;
                            states.append(&mut ts);
                            proof {
                                assert(states@ + pattern_targets(bytes, vm as int, c, i + 1, m.len as int)
                                    =~= s0 + pattern_targets(bytes, vm as int, c, i as int, m.len as int));
                            }
                        }
                        i = i + 1;
                    }
                    proof {
                        assert(states@ =~= pattern_targets(bytes, vm as int, c, 0, m.len as int));
                    }
                } else {
                    proof {
                        if items <= len {
                            assert(vm_item::<Guard>(vm as int, m.len as int) > len) by (nonlinear_arith)
                                requires
                                    m.len > ((len - items) as int) / (stride as int),
                                    items <= len,
                                    stride > 0,
                                    vm_item::<Guard>(vm as int, m.len as int) == items + m.len * stride,
                            ;
                        } else {
                            assert(vm_item::<Guard>(vm as int, m.len as int) >= items) by (nonlinear_arith)
                                requires
                                    vm_item::<Guard>(vm as int, m.len as int) == items + m.len * stride,
                                    stride > 0,
                            ;
                        }
                    }
                }
            }
            let ghost pat = states@;
            let h = usize::read_cell(self.blob, self.at + 16);
            let map = AnchaHashMap::<U8AList>::from_blob(self.blob, h);
            match map.get(&c) {
                Some(v) => {
                    let mut ts = read_ixs(self.blob, v);
                    states.append(&mut ts);
                },
                None => {},
            }
            proof {
                assert(states@.skip(0) =~= states@);
                assert(states@ =~= state_targets(bytes, self.at as int, c));
            }
            U8StateIterator::Sparse(U8SparseStateIterator { states, ix: 0 })
        }
    }
}

} // verus!

verus! {

/// Deanchization walks exactly over an anchized list of targets.
proof fn lemma_ptr_vec_walks<Ctx: GetQptrs>(a: PtrVecAnchize<Ctx>, d: PtrVecDeanchize, ctx: Ctx, bytes: Seq<u8>)
    ensures
        forall|o: Vec<usize>, p: int|
            0 <= p && #[trigger] a.spec_holds(o, ctx, bytes, p) ==> d.spec_walk(bytes, p) == Some(a.spec_end(o, p)),
{
    assert forall|o: Vec<usize>, p: int| 0 <= p && #[trigger] a.spec_holds(o, ctx, bytes, p) implies d.spec_walk(
        bytes,
        p,
    ) == Some(a.spec_end(o, p)) by {
        crate::ancha::vec::lemma_vec_walk(a, d, o, ctx, bytes, p);
    }
}

/// Deanchization walks exactly over an anchized bucket of byte transitions.
proof fn lemma_alist_walks<Ctx: GetQptrs>(
    a: AListAnchize<Ctx>,
    d: VecMapAncha<CopyAnchize<u8, ()>, PtrVecDeanchize>,
    ctx: Ctx,
    bytes: Seq<u8>,
)
    ensures
        forall|o: Vec<(u8, Vec<usize>)>, p: int|
            0 <= p && #[trigger] a.spec_holds(o, ctx, bytes, p) ==> d.spec_walk(bytes, p) == Some(a.spec_end(o, p)),
{
    lemma_ptr_vec_walks(a.val_ancha, d.val_ancha, ctx, bytes);
    assert forall|o: Vec<(u8, Vec<usize>)>, p: int| 0 <= p && #[trigger] a.spec_holds(o, ctx, bytes, p) implies d.spec_walk(
        bytes,
        p,
    ) == Some(a.spec_end(o, p)) by {
        crate::ancha::vecmap::lemma_vm_walk(a, d, o, ctx, bytes, p);
    }
}

/// Deanchization walks exactly over an anchized byte state.
pub proof fn lemma_u8_state_walk<Ctx: GetQptrs>(
    a: U8StateAnchize<Ctx>,
    d: U8StateDeanchize,
    o: U8StatePrepared,
    ctx: Ctx,
    bytes: Seq<u8>,
    pos: int,
)
    requires
        0 <= pos,
        a.spec_holds(o, ctx, bytes, pos),
    ensures
        d.spec_walk(bytes, pos) == Some(a.spec_end(o, pos)),
{
    let p = st_at(pos);
    a.lemma_parts(o, pos);
    match o {
        U8StatePrepared::Sparse(s) => {
            lemma_ptr_vec_walks(a.pattern.val_ancha, d.pattern.val_ancha, ctx, bytes);
            crate::ancha::vecmap::lemma_vm_walk(a.pattern, d.pattern, s.pattern_trans, ctx, bytes, p + 24);
            let pe = a.pattern.spec_end(s.pattern_trans, p + 24);
            a.pattern.lemma_end(s.pattern_trans, p + 24);
            a.explicit.lemma_align_start(s.explicit_trans, ctx, bytes, pe);
            lemma_alist_walks(a.explicit.alist_ancha, d.explicit.alist_deancha, ctx, bytes);
            crate::ancha::hashmap::lemma_hm_walk(a.explicit, d.explicit, s.explicit_trans, ctx, bytes, pe);
        },
        U8StatePrepared::Dense(dn) => {
            lemma_ptr_vec_walks(a.dense.value_ancha, d.dense.value_deancha, ctx, bytes);
            crate::ancha::arrmap::lemma_arrmap_walk(a.dense, d.dense, dn.trans, ctx, bytes, p + 16);
            crate::ancha::arrmap::lemma_arrmap_bounds(a.dense.value_ancha, dn.trans@, p + 16, 256);
            lemma_align_up(p + 16, 8);
            crate::ancha::lemma_align_up_aligned(p + 16, 8);
        },
    }
    if o.spec_tags()@.len() > 0 {
        crate::ancha::vec::lemma_vec_walk(a.tags, d.tags, o.spec_tags(), ctx, bytes, a.tags_at(o, pos));
    }
}

} // verus!

verus! {

/// The targets that byte `c` takes through the guard transitions of a
/// prepared sparse state, from entry `i` on, each as the position of the
/// state.
pub open spec fn pattern_origin_targets(pt: Seq<(Guard, Vec<usize>)>, c: u8, q: Seq<usize>, i: int) -> Seq<usize>
    decreases pt.len() - i,
{
    if i < 0 || i >= pt.len() {
        Seq::empty()
    } else {
        (if guard_has(pt[i].0, c) {
            pt[i].1@.map_values(|t: usize| q[t as int])
        } else {
            Seq::empty()
        }) + pattern_origin_targets(pt, c, q, i + 1)
    }
}

/// The targets that byte `c` takes through the byte transitions of a
/// prepared sparse state: those of the first item of its bucket whose key is
/// `c`, each as the position of the state.
pub open spec fn explicit_origin_targets(e: Seq<Vec<(u8, Vec<usize>)>>, c: u8, q: Seq<usize>) -> Seq<usize> {
    let bucket = e[hm_key_bucket(c, e.len() as int)]@;
    match vm_first(CopyAnchize::<u8, ()>(PhantomData), bucket, (), c, 0) {
        Some(j) => bucket[j].1@.map_values(|t: usize| q[t as int]),
        None => Seq::empty(),
    }
}

/// Each byte takes, from an anchized sparse state, the positions of the
/// states that its guard transitions lead to, in their order, then those of
/// its byte transitions.
pub proof fn lemma_sparse_targets<Ctx: GetQptrs>(
    anchize: U8StateAnchize<Ctx>,
    s: U8SparseStatePrepared,
    ctx: Ctx,
    bytes: Seq<u8>,
    pos: int,
    c: u8,
)
    requires
        0 <= pos,
        anchize.spec_holds(U8StatePrepared::Sparse(s), ctx, bytes, pos),
        anchize.explicit.spec_accepts(s.explicit_trans, ctx),
    ensures
        state_targets(bytes, st_at(pos), c) == pattern_origin_targets(s.pattern_trans@, c, ctx.spec_qptrs(), 0)
            + explicit_origin_targets(s.explicit_trans@, c, ctx.spec_qptrs()),
{
    let origin = U8StatePrepared::Sparse(s);
    let p = st_at(pos);
    let q = ctx.spec_qptrs();
    anchize.lemma_parts(origin, pos);
    lemma_align_up(pos, 8);
    crate::ancha::lemma_align_up_aligned(p + 24, 8);
    let vm = anchize.pattern;
    let pt = s.pattern_trans@;
    lemma_vm_bounds(&vm, s.pattern_trans, p + 24);
    lemma_pattern_read(anchize, s, ctx, bytes, pos, c, 0);
    let h = anchize.explicit_at(origin, pos);
    crate::ancha::lemma_align_up_aligned(h, 8);
    lemma_explicit_read(anchize, s, ctx, bytes, pos, c);
}

proof fn lemma_pattern_read<Ctx: GetQptrs>(
    anchize: U8StateAnchize<Ctx>,
    s: U8SparseStatePrepared,
    ctx: Ctx,
    bytes: Seq<u8>,
    pos: int,
    c: u8,
    i: int,
)
    requires
        0 <= pos,
        0 <= i <= s.pattern_trans@.len(),
        anchize.spec_holds(U8StatePrepared::Sparse(s), ctx, bytes, pos),
    ensures
        pattern_targets(bytes, st_at(pos) + 24, c, i, s.pattern_trans@.len() as int) == pattern_origin_targets(
            s.pattern_trans@,
            c,
            ctx.spec_qptrs(),
            i,
        ),
    decreases s.pattern_trans@.len() - i,
{
    let p = st_at(pos);
    let vm = anchize.pattern;
    let pt = s.pattern_trans@;
    let n = pt.len() as int;
    if i < n {
        lemma_pattern_read(anchize, s, ctx, bytes, pos, c, i + 1);
        lemma_align_up(pos, 8);
        crate::ancha::lemma_align_up_aligned(p + 24, 8);
        let at = p + 24;
        let vstart = vm_item::<Guard>(at, n);
        let snd = SecondAnchize::<Guard, PtrVecAnchize<Ctx>> { value: &vm.val_ancha, key: None };
        assert(crate::ancha::vecmap::vm_item_holds(vm.key_ancha, vm.val_ancha, pt, ctx, bytes, at, i));
        lemma_vm_bounds(&vm, s.pattern_trans, at);
        crate::ancha::lemma_seq_holds_at(snd, pt, ctx, bytes, vstart, i);
        crate::ancha::lemma_seq_end(snd, pt, vstart, i);
        snd.lemma_align_start(pt[i], ctx, bytes, crate::ancha::seq_end(snd, pt.take(i), vstart));
        let vp = crate::ancha::seq_at(snd, pt, vstart, i);
        lemma_ixs_read(vm.val_ancha, pt[i].1, ctx, bytes, vp);
        assert(pt[i].1@.map_values(|x: usize| vm.val_ancha.elem_ancha.spec_anchize_static(x, ctx))
            =~= pt[i].1@.map_values(|t: usize| ctx.spec_qptrs()[t as int]));
    }
}

proof fn lemma_explicit_read<Ctx: GetQptrs>(
    anchize: U8StateAnchize<Ctx>,
    s: U8SparseStatePrepared,
    ctx: Ctx,
    bytes: Seq<u8>,
    pos: int,
    c: u8,
)
    requires
        0 <= pos,
        anchize.spec_holds(U8StatePrepared::Sparse(s), ctx, bytes, pos),
        anchize.explicit.spec_accepts(s.explicit_trans, ctx),
    ensures
        match hm_lookup::<U8AList<'static>>(
            bytes,
            cell_at::<usize>(bytes, st_at(pos) + 16) as int,
            c,
        ) {
            Some(v) => ixs_at(bytes, v),
            None => Seq::empty(),
        } == explicit_origin_targets(s.explicit_trans@, c, ctx.spec_qptrs()),
{
    let origin = U8StatePrepared::Sparse(s);
    let h = anchize.explicit_at(origin, pos);
    let hm = anchize.explicit;
    let es = s.explicit_trans@;
    let cap = es.len() as int;
    anchize.lemma_parts(origin, pos);
    crate::ancha::lemma_align_up_aligned(h, 8);
    lemma_hm_lookup(hm, s.explicit_trans, ctx, bytes, h, c);
    let i = hm_key_bucket(c, cap);
    let start = hm_start::<U8AList<'static>>(h, cap);
    if !es[i].spec_is_empty() {
        let slot = crate::ancha::hashmap::hm_slot(hm.alist_ancha, es, start, i);
        lemma_align_up(h + 8 + 8 * cap, 8);
        crate::ancha::hashmap::lemma_hm_end_ge(hm.alist_ancha, es.take(i), start);
        lemma_align_up(crate::ancha::hashmap::hm_end(hm.alist_ancha, es.take(i), start), 8);
        crate::ancha::lemma_align_up_aligned(slot, 8);
        lemma_vm_lookup(hm.alist_ancha, es[i], ctx, bytes, slot, c);
        let bucket = es[i]@;
        let ka = hm.alist_ancha.key_ancha;
        assert forall|j: int| 0 <= j <= bucket.len() implies vm_first(ka, bucket, ctx, c, j) == vm_first(
            CopyAnchize::<u8, ()>(PhantomData),
            bucket,
            (),
            c,
            j,
        ) by {
            lemma_vm_first_same(ka, bucket, ctx, c, j);
        }
        if let Some(j) = vm_first(ka, bucket, ctx, c, 0) {
            lemma_vm_first_range(ka, bucket, ctx, c, 0);
            let vstart = vm_item::<u8>(slot, bucket.len() as int);
            let snd = SecondAnchize::<u8, PtrVecAnchize<Ctx>> { value: &hm.alist_ancha.val_ancha, key: None };
            let vp = crate::ancha::seq_at(snd, bucket, vstart, j);
            crate::ancha::lemma_seq_end(snd, bucket, vstart, j);
            lemma_ixs_read(hm.alist_ancha.val_ancha, bucket[j].1, ctx, bytes, vp);
            assert(bucket[j].1@.map_values(
                |x: usize| hm.alist_ancha.val_ancha.elem_ancha.spec_anchize_static(x, ctx),
            ) =~= bucket[j].1@.map_values(|t: usize| ctx.spec_qptrs()[t as int]));
        }
    } else {
        let bucket = es[i]@;
        assert(vm_first(CopyAnchize::<u8, ()>(PhantomData), bucket, (), c, 0) is None);
    }
}

proof fn lemma_vm_first_same<Ctx>(
    ka: CopyAnchize<u8, Ctx>,
    bucket: Seq<(u8, Vec<usize>)>,
    ctx: Ctx,
    c: u8,
    j: int,
)
    requires
        0 <= j,
    ensures
        vm_first(ka, bucket, ctx, c, j) == vm_first(CopyAnchize::<u8, ()>(PhantomData), bucket, (), c, j),
    decreases bucket.len() - j,
{
    if j < bucket.len() {
        lemma_vm_first_same(ka, bucket, ctx, c, j + 1);
    }
}

} // verus!
