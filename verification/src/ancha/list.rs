//! AnchaList: a linked list whose nodes hold their values inline.
//!
//! Layout of a node: `[next: usize][padding][value]`. The link of a node is
//! the position of the next node, or 0 for the last node (no node follows the
//! anchor, so 0 is never the position of a next node). Nodes are aligned for
//! the list and follow one another.
use core::marker::PhantomData;
use vstd::prelude::*;

use super::{
    cell_at, from_base, lemma_align_up, lemma_cell_from_base, lemma_unchanged_cell,
    lemma_unchanged_holds, lemma_write_cell, max_blob, spec_align_up, spec_max,
    unchanged_outside, Anchize, BuildCursor, Cell, Deanchize, Layout, Reserve,
};

verus! {

/// Alignment of the nodes of a list of `X`.
pub open spec fn list_align<X: Layout>() -> nat {
    spec_max(8, X::spec_align())
}

/// A node of a linked list in a blob.
pub struct AnchaList<'a, X> {
    /// The blob that holds the list.
    pub blob: &'a [u8],
    /// Position of the node.
    pub at: usize,
    pub _phantom: PhantomData<X>,
}

/// The fixed-size head of a node is its link, padded to the node's
/// alignment; the value follows the link, aligned for itself.
impl<'a, X: Layout> Layout for AnchaList<'a, X> {
    open spec fn spec_size() -> nat {
        list_align::<X>()
    }

    open spec fn spec_align() -> nat {
        list_align::<X>()
    }

    fn size() -> (r: usize) {
        proof {
            X::lemma_layout();
        }
        if X::align() >= 8 { X::align() } else { 8 }
    }

    fn align() -> (r: usize) {
        proof {
            X::lemma_layout();
        }
        if X::align() >= 8 { X::align() } else { 8 }
    }

    proof fn lemma_layout() {
        X::lemma_layout();
        let a = list_align::<X>() as int;
        assert(a % a == 0) by (nonlinear_arith)
            requires
                a > 0,
        ;
    }
}

/// Position of the value of the node at `at`.
pub open spec fn list_value<X: Layout>(at: int) -> int {
    spec_align_up(at + 8, X::spec_align() as int)
}

impl<'a, X: Layout> AnchaList<'a, X> {
    /// The node at `at` of `blob`.
    pub fn from_blob(blob: &'a [u8], at: usize) -> (r: Self)
        ensures
            r.blob@ == blob@,
            r.at == at,
    {
        AnchaList { blob, at, _phantom: PhantomData }
    }

    /// The link of this node: the position of the next node, or 0 for the last.
    pub fn next(&self) -> (r: usize)
        requires
            self.at + 8 <= self.blob@.len(),
        ensures
            r == cell_at::<usize>(self.blob@, self.at as int),
    {
        usize::read_cell(self.blob, self.at)
    }

    /// Position of the value of this node.
    pub fn value(&self) -> (r: usize)
        requires
            self.at + 8 <= max_blob(),
        ensures
            r == list_value::<X>(self.at as int),
    {
        proof {
            X::lemma_layout();
        }
        super::align_up(self.at + 8, X::align())
    }

    /// Iterator over the positions of the values, from this node on.
    pub fn iter(&self) -> (r: AnchaListIter<'a, X>)
        ensures
            r.blob@ == self.blob@,
            r.current == Some(self.at),
    {
        AnchaListIter { blob: self.blob, current: Some(self.at), _phantom: PhantomData }
    }
}

/// Iterator over the values of a list, by position.
pub struct AnchaListIter<'a, X> {
    pub blob: &'a [u8],
    /// The node to visit next, if any.
    pub current: Option<usize>,
    pub _phantom: PhantomData<X>,
}

impl<'a, X: Layout> AnchaListIter<'a, X> {
    /// The position of the value of the current node; the iterator moves to
    /// the node that the link names, and ends at a link of 0.
    pub fn next(&mut self) -> (r: Option<usize>)
        requires
            old(self).blob@.len() <= max_blob(),
        ensures
            final(self).blob@ == old(self).blob@,
            match old(self).current {
                None => r is None && final(self).current is None,
                Some(c) => if c + 8 <= old(self).blob@.len() {
                    &&& r == Some(list_value::<X>(c as int) as usize)
                    &&& final(self).current == (if cell_at::<usize>(old(self).blob@, c as int) == 0 {
                        None::<usize>
                    } else {
                        Some(cell_at::<usize>(old(self).blob@, c as int))
                    })
                } else {
                    r is None && final(self).current is None
                },
            },
    {
        match self.current {
            None => None,
            Some(c) => {
                if c < self.blob.len() && c + 8 <= self.blob.len() {
                    let node = AnchaList::<X>::from_blob(self.blob, c);
                    let link = node.next();
                    self.current = if link == 0 { None } else { Some(link) };
                    Some(node.value())
                } else {
                    self.current = None;
                    None
                }
            }
        }
    }
}


/// Position behind a list of the origins `os` laid out from `pos` on.
pub open spec fn list_end<E: Anchize>(e: E, os: Seq<E::Origin>, pos: int) -> int
    decreases os.len(),
{
    if os.len() == 0 {
        spec_align_up(pos, list_align::<E::Ancha>() as int)
    } else {
        e.spec_end(
            os.last(),
            spec_align_up(list_end(e, os.drop_last(), pos), list_align::<E::Ancha>() as int) + 8,
        )
    }
}

/// Position of node `i` of a list of the origins `os` laid out from `pos` on.
pub open spec fn list_node<E: Anchize>(e: E, os: Seq<E::Origin>, pos: int, i: int) -> int {
    spec_align_up(list_end(e, os.take(i), pos), list_align::<E::Ancha>() as int)
}

/// The link stored in node `i`.
pub open spec fn list_link<E: Anchize>(e: E, os: Seq<E::Origin>, pos: int, i: int) -> int {
    if i + 1 == os.len() {
        0
    } else {
        list_node(e, os, pos, i + 1)
    }
}

/// Node `i` holds its link and, behind it, its value.
pub open spec fn list_node_holds<E: Anchize>(
    e: E,
    os: Seq<E::Origin>,
    ctx: E::Context,
    bytes: Seq<u8>,
    pos: int,
    i: int,
) -> bool {
    &&& cell_at::<usize>(bytes, list_node(e, os, pos, i)) == list_link(e, os, pos, i)
    &&& e.spec_holds(os[i], ctx, bytes, list_node(e, os, pos, i) + 8)
}

/// The bytes hold a list of the origins `os` from `pos` on.
pub open spec fn list_holds<E: Anchize>(
    e: E,
    os: Seq<E::Origin>,
    ctx: E::Context,
    bytes: Seq<u8>,
    pos: int,
) -> bool {
    &&& list_end(e, os, pos) <= bytes.len()
    &&& forall|i: int| 0 <= i < os.len() ==> #[trigger] list_node_holds(e, os, ctx, bytes, pos, i)
}

pub proof fn lemma_list_end_ge<E: Anchize>(e: E, os: Seq<E::Origin>, pos: int)
    requires
        0 <= pos,
    ensures
        pos <= list_end(e, os, pos),
    decreases os.len(),
{
    E::Ancha::lemma_layout();
    if os.len() == 0 {
        lemma_align_up(pos, list_align::<E::Ancha>() as int);
    } else {
        lemma_list_end_ge(e, os.drop_last(), pos);
        let p = list_end(e, os.drop_last(), pos);
        lemma_align_up(p, list_align::<E::Ancha>() as int);
        e.lemma_end(os.last(), spec_align_up(p, list_align::<E::Ancha>() as int) + 8);
    }
}

/// One node more: the end of the first `k + 1` nodes is the end of the value of node `k`.
pub proof fn lemma_list_step<E: Anchize>(e: E, os: Seq<E::Origin>, pos: int, k: int)
    requires
        0 <= pos,
        0 <= k < os.len(),
    ensures
        list_end(e, os.take(k + 1), pos) == e.spec_end(os[k], list_node(e, os, pos, k) + 8),
        list_end(e, os.take(k), pos) <= list_node(e, os, pos, k),
        list_node(e, os, pos, k) + 8 <= list_end(e, os.take(k + 1), pos),
        list_node(e, os, pos, k) < list_end(e, os.take(k), pos) + 16,
{
    E::Ancha::lemma_layout();
    let t = os.take(k + 1);
    assert(t.drop_last() =~= os.take(k));
    assert(t.last() == os[k]);
    lemma_list_end_ge(e, os.take(k), pos);
    lemma_align_up(list_end(e, os.take(k), pos), list_align::<E::Ancha>() as int);
    e.lemma_end(os[k], list_node(e, os, pos, k) + 8);
}

/// The ends of the prefixes of a list grow with the prefix.
pub proof fn lemma_list_mono<E: Anchize>(e: E, os: Seq<E::Origin>, pos: int, k: int, m: int)
    requires
        0 <= pos,
        0 <= k <= m <= os.len(),
    ensures
        list_end(e, os.take(k), pos) <= list_end(e, os.take(m), pos),
    decreases m - k,
{
    if k < m {
        lemma_list_mono(e, os, pos, k + 1, m);
        lemma_list_step(e, os, pos, k);
    }
}

/// The whole list ends where its last node's value ends.
pub proof fn lemma_list_whole<E: Anchize>(e: E, os: Seq<E::Origin>, pos: int)
    ensures
        list_end(e, os.take(os.len() as int), pos) == list_end(e, os, pos),
        list_end(e, os.take(0), pos) == spec_align_up(pos, list_align::<E::Ancha>() as int),
{
    assert(os.take(os.len() as int) =~= os);
    assert(os.take(0) =~= Seq::<E::Origin>::empty());
}

/// Changing bytes behind the first `i` nodes keeps them.
pub proof fn lemma_list_keep<E: Anchize>(
    e: E,
    os: Seq<E::Origin>,
    ctx: E::Context,
    b1: Seq<u8>,
    b2: Seq<u8>,
    pos: int,
    i: int,
    lo: int,
    hi: int,
)
    requires
        0 <= pos,
        0 <= i <= os.len(),
        unchanged_outside(b1, b2, lo, hi),
        list_end(e, os.take(i), pos) <= lo,
        lo <= b1.len(),
        forall|j: int| 0 <= j < i ==> #[trigger] list_node_holds(e, os, ctx, b1, pos, j),
    ensures
        forall|j: int| 0 <= j < i ==> #[trigger] list_node_holds(e, os, ctx, b2, pos, j),
{
    assert forall|j: int| 0 <= j < i implies #[trigger] list_node_holds(e, os, ctx, b2, pos, j) by {
        assert(list_node_holds(e, os, ctx, b1, pos, j));
        lemma_list_step(e, os, pos, j);
        lemma_list_mono(e, os, pos, j + 1, i);
        let n = list_node(e, os, pos, j);
        lemma_list_end_ge(e, os.take(j), pos);
        lemma_unchanged_cell::<usize>(b1, b2, lo, hi, n);
        lemma_unchanged_holds(e, os[j], ctx, b1, b2, lo, hi, n + 8);
    }
}


/// Anchization of a `Vec` into an `AnchaList`, each element by `elem_ancha`.
pub struct ListAnchizeFromVec<ElemAnchize> {
    pub elem_ancha: ElemAnchize,
}

impl<ElemAnchize> ListAnchizeFromVec<ElemAnchize> {
    pub fn new(elem_ancha: ElemAnchize) -> (r: Self)
        ensures
            r.elem_ancha == elem_ancha,
    {
        ListAnchizeFromVec { elem_ancha }
    }
}

impl<ElemAnchize: Default> Default for ListAnchizeFromVec<ElemAnchize> {
    fn default() -> Self {
        ListAnchizeFromVec { elem_ancha: ElemAnchize::default() }
    }
}

impl<ElemAnchize: Anchize> Anchize for ListAnchizeFromVec<ElemAnchize> {
    type Origin = Vec<ElemAnchize::Origin>;

    type Context = ElemAnchize::Context;

    type Ancha = AnchaList<'static, ElemAnchize::Ancha>;

    open spec fn spec_accepts(&self, origin: Self::Origin, context: Self::Context) -> bool {
        forall|i: int| 0 <= i < origin@.len() ==> self.elem_ancha.spec_accepts(#[trigger] origin@[i], context)
    }

    /// The list ends behind its last value, aligned again for a node.
    open spec fn spec_end(&self, origin: Self::Origin, pos: int) -> int {
        spec_align_up(list_end(self.elem_ancha, origin@, pos), list_align::<ElemAnchize::Ancha>() as int)
    }

    open spec fn spec_holds(
        &self,
        origin: Self::Origin,
        context: Self::Context,
        bytes: Seq<u8>,
        pos: int,
    ) -> bool {
        &&& list_holds(self.elem_ancha, origin@, context, bytes, pos)
        &&& self.spec_end(origin, pos) <= bytes.len()
    }

    proof fn lemma_align_start(
        &self,
        origin: Self::Origin,
        context: Self::Context,
        bytes: Seq<u8>,
        pos: int,
    ) {
        lemma_list_align_start(self.elem_ancha, origin@, pos);
        let a = spec_align_up(pos, list_align::<ElemAnchize::Ancha>() as int);
        assert forall|i: int| 0 <= i < origin@.len() implies list_node(self.elem_ancha, origin@, pos, i)
            == list_node(self.elem_ancha, origin@, a, i) && list_link(self.elem_ancha, origin@, pos, i)
            == list_link(self.elem_ancha, origin@, a, i) by {
            lemma_list_align_start(self.elem_ancha, origin@.take(i), pos);
            lemma_list_align_start(self.elem_ancha, origin@.take(i + 1), pos);
        }
        if list_holds(self.elem_ancha, origin@, context, bytes, pos) {
            assert forall|i: int| 0 <= i < origin@.len() implies #[trigger] list_node_holds(
                self.elem_ancha,
                origin@,
                context,
                bytes,
                a,
                i,
            ) by {
                assert(list_node_holds(self.elem_ancha, origin@, context, bytes, pos, i));
            }
        }
        if list_holds(self.elem_ancha, origin@, context, bytes, a) {
            assert forall|i: int| 0 <= i < origin@.len() implies #[trigger] list_node_holds(
                self.elem_ancha,
                origin@,
                context,
                bytes,
                pos,
                i,
            ) by {
                assert(list_node_holds(self.elem_ancha, origin@, context, bytes, a, i));
            }
        }
    }

    proof fn lemma_end(&self, origin: Self::Origin, pos: int) {
        lemma_list_end_ge(self.elem_ancha, origin@, pos);
        ElemAnchize::Ancha::lemma_layout();
        lemma_align_up(list_end(self.elem_ancha, origin@, pos), list_align::<ElemAnchize::Ancha>() as int);
    }

    proof fn lemma_frame(
        &self,
        origin: Self::Origin,
        context: Self::Context,
        b1: Seq<u8>,
        b2: Seq<u8>,
        pos: int,
    ) {
        let os = origin@;
        let e = self.elem_ancha;
        let end = self.spec_end(origin, pos);
        lemma_list_whole(e, os, pos);
        lemma_list_end_ge(e, os, pos);
        ElemAnchize::Ancha::lemma_layout();
        lemma_align_up(list_end(e, os, pos), list_align::<ElemAnchize::Ancha>() as int);
        assert forall|j: int| 0 <= j < os.len() implies #[trigger] list_node_holds(e, os, context, b2, pos, j) by {
            assert(list_node_holds(e, os, context, b1, pos, j));
            lemma_list_step(e, os, pos, j);
            lemma_list_mono(e, os, pos, j + 1, os.len() as int);
            lemma_list_end_ge(e, os.take(j), pos);
            let n = list_node(e, os, pos, j);
            super::lemma_subrange_within(b1, b2, pos, end, n, n + 8);
            assert(cell_at::<usize>(b1, n) == cell_at::<usize>(b2, n));
            super::lemma_subrange_within(b1, b2, pos, end, n + 8, e.spec_end(os[j], n + 8));
            e.lemma_frame(os[j], context, b1, b2, n + 8);
        }
    }

    fn reserve(&self, origin: &Self::Origin, context: &Self::Context, sz: &mut Reserve) {
        let ghost pos = old(sz).0 as int;
        let ghost os = origin@;
        let ghost e = self.elem_ancha;
        proof {
            ElemAnchize::Ancha::lemma_layout();
            lemma_align_up(pos, list_align::<ElemAnchize::Ancha>() as int);
            lemma_list_whole(e, os, pos);
            lemma_list_mono(e, os, pos, 0, os.len() as int);
            lemma_list_end_ge(e, os, pos);
            lemma_align_up(list_end(e, os, pos), list_align::<ElemAnchize::Ancha>() as int);
        }
        sz.add::<Self::Ancha>(0);
        let n = origin.len();
        let mut i: usize = 0;
        while i < n
            invariant
                n == os.len(),
                os == origin@,
                e == self.elem_ancha,
                0 <= pos,
                0 <= i <= n,
                sz.0 == list_end(e, os.take(i as int), pos),
                list_end(e, os, pos) <= max_blob(),
            decreases n - i,
        {
            proof {
                lemma_list_step(e, os, pos, i as int);
                lemma_list_mono(e, os, pos, i + 1, n as int);
                lemma_list_whole(e, os, pos);
                lemma_list_end_ge(e, os.take(i as int), pos);
                lemma_align_up(sz.0 as int, list_align::<ElemAnchize::Ancha>() as int);
            }
            sz.add::<Self::Ancha>(0);
            proof {
                ElemAnchize::Ancha::lemma_layout();
                super::lemma_align_divides(sz.0 as int, 8, ElemAnchize::Ancha::spec_align());
            }
            sz.add::<usize>(1);
            self.elem_ancha.reserve(&origin[i], context, sz);
            i = i + 1;
        }
        proof {
            lemma_list_whole(e, os, pos);
            lemma_list_end_ge(e, os, pos);
            ElemAnchize::Ancha::lemma_layout();
            lemma_align_up(list_end(e, os, pos), list_align::<ElemAnchize::Ancha>() as int);
        }
        sz.add::<Self::Ancha>(0);
    }

    fn anchize<After>(
        &self,
        origin: &Self::Origin,
        context: &Self::Context,
        buf: &mut Vec<u8>,
        cur: BuildCursor<Self::Ancha>,
    ) -> (r: BuildCursor<After>) {
        let ghost pos = cur.cur as int;
        let ghost base = cur.buf as int;
        let ghost os = origin@;
        let ghost e = self.elem_ancha;
        proof {
            ElemAnchize::Ancha::lemma_layout();
            lemma_list_whole(e, os, pos);
            lemma_list_mono(e, os, pos, 0, os.len() as int);
            lemma_list_end_ge(e, os, pos);
            lemma_align_up(list_end(e, os, pos), list_align::<ElemAnchize::Ancha>() as int);
            lemma_align_up(pos, list_align::<ElemAnchize::Ancha>() as int);
            super::lemma_align_idem(pos, list_align::<ElemAnchize::Ancha>() as int);
        }
        let mut cur: BuildCursor<Self::Ancha> = cur.align();
        let n = origin.len();
        if n == 0 {
            proof {
                super::lemma_align_idem(spec_align_up(pos, list_align::<ElemAnchize::Ancha>() as int), list_align::<ElemAnchize::Ancha>() as int);
            }
            return cur.transmute();
        }
        let mut i: usize = 0;
        while i < n
            invariant
                n == os.len(),
                os == origin@,
                e == self.elem_ancha,
                n > 0,
                0 <= pos,
                0 <= base,
                0 <= i <= n,
                i < n ==> cur.cur == list_node(e, os, pos, i as int),
                i == n ==> cur.cur == list_end(e, os, pos),
                cur.buf == base,
                base + list_end(e, os, pos) <= buf@.len(),
                buf@.len() == old(buf)@.len(),
                old(buf)@.len() <= max_blob(),
                list_end(e, os.take(i as int), pos) <= cur.cur,
                self.spec_accepts(*origin, *context),
                unchanged_outside(old(buf)@, buf@, base + pos, base + cur.cur),
                forall|j: int| 0 <= j < i ==> #[trigger] list_node_holds(e, os, *context, from_base(buf@, base), pos, j),
            decreases n - i,
        {
            let ghost node = cur.cur as int;
            let ghost b0 = buf@;
            proof {
                lemma_list_step(e, os, pos, i as int);
                lemma_list_mono(e, os, pos, i + 1, n as int);
                lemma_list_whole(e, os, pos);
                lemma_list_end_ge(e, os.take(i as int), pos);
                assert(e.spec_accepts(os[i as int], *context));
            }
            let ecur: BuildCursor<ElemAnchize::Ancha> = BuildCursor {
                cur: cur.cur + 8,
                buf: cur.buf,
                _phantom: PhantomData,
            };
            let ghost vend = e.spec_end(os[i as int], node + 8);
            let r: BuildCursor<Self::Ancha> = self.elem_ancha.anchize(&origin[i], context, buf, ecur);
            let ghost b1 = buf@;
            let last = i + 1 == n;
            let next: BuildCursor<Self::Ancha> = if last {
                r.transmute()
            } else {
                r.align()
            };
            let link: usize = if last { 0 } else { next.cur };
            link.write_cell(buf, cur.buf + cur.cur);
            proof {
                let fb0 = from_base(b0, base);
                let fb1 = from_base(b1, base);
                let fb2 = from_base(buf@, base);
                lemma_write_cell::<usize>(b1, buf@, base + node, link);
                lemma_cell_from_base::<usize>(buf@, base, node);
                super::lemma_from_base_unchanged(b0, b1, base, node + 8, vend);
                super::lemma_from_base_unchanged(b1, buf@, base, node, node + 8);
                assert(unchanged_outside(fb0, fb2, node, vend));
                lemma_list_keep(e, os, *context, fb0, fb2, pos, i as int, node, vend);
                lemma_unchanged_holds(e, os[i as int], *context, fb1, fb2, node, node + 8, node + 8);
                if !last {
                    lemma_align_up(vend, list_align::<ElemAnchize::Ancha>() as int);
                    lemma_list_step(e, os, pos, i + 1);
                }
                assert(list_node_holds(e, os, *context, fb2, pos, i as int));
            }
            cur = next;
            i = i + 1;
        }
        proof {
            lemma_list_whole(e, os, pos);
            lemma_list_end_ge(e, os, pos);
            lemma_align_up(list_end(e, os, pos), list_align::<ElemAnchize::Ancha>() as int);
        }
        let end: BuildCursor<Self::Ancha> = cur.align();
        end.transmute()
    }
}

/// Aligning the start of a list changes neither its nodes nor its end.
pub proof fn lemma_list_align_start<E: Anchize>(e: E, os: Seq<E::Origin>, pos: int)
    requires
        0 <= pos,
    ensures
        list_end(e, os, pos) == list_end(e, os, spec_align_up(pos, list_align::<E::Ancha>() as int)),
    decreases os.len(),
{
    E::Ancha::lemma_layout();
    super::lemma_align_idem(pos, list_align::<E::Ancha>() as int);
    if os.len() > 0 {
        lemma_list_align_start(e, os.drop_last(), pos);
    }
}


/// Deanchization of an `AnchaList`, each value by `elem_deancha`.
pub struct ListDeanchize<ElemDeanchize> {
    pub elem_deancha: ElemDeanchize,
}

impl<ElemDeanchize> ListDeanchize<ElemDeanchize> {
    pub fn new(elem_deancha: ElemDeanchize) -> (r: Self)
        ensures
            r.elem_deancha == elem_deancha,
    {
        ListDeanchize { elem_deancha }
    }
}

impl<ElemDeanchize: Default> Default for ListDeanchize<ElemDeanchize> {
    fn default() -> Self {
        ListDeanchize { elem_deancha: ElemDeanchize::default() }
    }
}

/// The position behind the list whose first node is at `pos` (aligned
/// first): the walk goes from node to node by the layout, and stops at the
/// node whose link is 0.
pub open spec fn list_walk<D: Deanchize>(d: D, bytes: Seq<u8>, pos: int) -> Option<int>
    decreases bytes.len() - pos,
{
    let at = spec_align_up(pos, list_align::<D::Ancha>() as int);
    if pos < 0 || at + 8 > bytes.len() {
        None
    } else {
        match d.spec_walk(bytes, at + 8) {
            None => None,
            Some(q) => if cell_at::<usize>(bytes, at) == 0 {
                Some(q)
            } else if pos < q <= bytes.len() {
                list_walk(d, bytes, q)
            } else {
                None
            },
        }
    }
}

impl<ElemDeanchize: Deanchize> Deanchize for ListDeanchize<ElemDeanchize> {
    type Ancha = AnchaList<'static, ElemDeanchize::Ancha>;

    /// The walk ends behind the last value, aligned again for a node.
    open spec fn spec_walk(&self, bytes: Seq<u8>, pos: int) -> Option<int> {
        match list_walk(self.elem_deancha, bytes, pos) {
            Some(q) => if spec_align_up(q, list_align::<ElemDeanchize::Ancha>() as int) <= bytes.len() {
                Some(spec_align_up(q, list_align::<ElemDeanchize::Ancha>() as int))
            } else {
                None
            },
            None => None,
        }
    }

    proof fn lemma_walk(&self, bytes: Seq<u8>, pos: int) {
        lemma_list_walk_bounds(self.elem_deancha, bytes, pos);
        ElemDeanchize::Ancha::lemma_layout();
        lemma_align_up(list_walk(self.elem_deancha, bytes, pos)->0, list_align::<ElemDeanchize::Ancha>() as int);
    }

    fn deanchize<After>(&self, buf: &[u8], cur: BuildCursor<Self::Ancha>) -> (r: BuildCursor<After>) {
        let ghost bytes = from_base(buf@, cur.buf as int);
        let ghost d = self.elem_deancha;
        let ghost goal = list_walk(d, bytes, cur.cur as int);
        proof {
            ElemDeanchize::Ancha::lemma_layout();
        }
        let ghost base = cur.buf;
        let mut c = cur;
        loop
            invariant
                d == self.elem_deancha,
                c.buf == base,
                base == cur.buf,
                goal == list_walk(d, bytes, cur.cur as int),
                bytes == from_base(buf@, c.buf as int),
                c.buf <= buf@.len() <= max_blob(),
                list_walk(d, bytes, c.cur as int) == goal,
                goal is Some,
                self.spec_walk(bytes, cur.cur as int) is Some,
            decreases bytes.len() - c.cur,
        {
            let ghost pos = c.cur as int;
            proof {
                lemma_align_up(pos, list_align::<ElemDeanchize::Ancha>() as int);
            }
            let node: BuildCursor<Self::Ancha> = c.align();
            proof {
                lemma_cell_from_base::<usize>(buf@, c.buf as int, node.cur as int);
            }
            let link = usize::read_cell(buf, node.buf + node.cur);
            let ecur: BuildCursor<ElemDeanchize::Ancha> = BuildCursor {
                cur: node.cur + 8,
                buf: node.buf,
                _phantom: PhantomData,
            };
            let q: BuildCursor<Self::Ancha> = self.elem_deancha.deanchize(buf, ecur);
            if link == 0 {
                proof {
                    lemma_cell_from_base::<usize>(buf@, c.buf as int, node.cur as int);
                    assert(list_walk(d, bytes, c.cur as int) == Some(q.cur as int));
                    d.lemma_walk(bytes, node.cur + 8);
                }
                let end: BuildCursor<Self::Ancha> = q.align();
                proof {
                    assert(goal == Some(q.cur as int));
                    assert(self.spec_walk(bytes, cur.cur as int) == Some(
                        spec_align_up(q.cur as int, list_align::<ElemDeanchize::Ancha>() as int),
                    ));
                    assert(end.cur == spec_align_up(q.cur as int, list_align::<ElemDeanchize::Ancha>() as int));
                }
                return end.transmute();
            }
            c = q;
        }
    }
}

pub proof fn lemma_list_walk_bounds<D: Deanchize>(d: D, bytes: Seq<u8>, pos: int)
    requires
        0 <= pos,
        list_walk(d, bytes, pos) is Some,
    ensures
        pos <= list_walk(d, bytes, pos)->0 <= bytes.len(),
    decreases bytes.len() - pos,
{
    D::Ancha::lemma_layout();
    let at = spec_align_up(pos, list_align::<D::Ancha>() as int);
    lemma_align_up(pos, list_align::<D::Ancha>() as int);
    d.lemma_walk(bytes, at + 8);
    let q = d.spec_walk(bytes, at + 8)->0;
    if cell_at::<usize>(bytes, at) != 0 {
        lemma_list_walk_bounds(d, bytes, q);
    }
}

/// Deanchization walks exactly over an anchized non-empty list, where it
/// walks exactly over each anchized value.
pub proof fn lemma_list_walk<E: Anchize, D: Deanchize<Ancha = E::Ancha>>(
    anchize: ListAnchizeFromVec<E>,
    deanchize: ListDeanchize<D>,
    origin: Vec<E::Origin>,
    context: E::Context,
    bytes: Seq<u8>,
    pos: int,
)
    requires
        0 <= pos,
        origin@.len() > 0,
        anchize.spec_holds(origin, context, bytes, pos),
        forall|o: E::Origin, p: int|
            0 <= p && #[trigger] anchize.elem_ancha.spec_holds(o, context, bytes, p)
                ==> deanchize.elem_deancha.spec_walk(bytes, p) == Some(anchize.elem_ancha.spec_end(o, p)),
    ensures
        deanchize.spec_walk(bytes, pos) == Some(anchize.spec_end(origin, pos)),
{
    let e = anchize.elem_ancha;
    let os = origin@;
    lemma_list_whole(e, os, pos);
    E::Ancha::lemma_layout();
    super::lemma_align_idem(pos, list_align::<E::Ancha>() as int);
    lemma_list_walk_from(anchize, deanchize, origin, context, bytes, pos, 0, pos);
}

proof fn lemma_list_walk_from<E: Anchize, D: Deanchize<Ancha = E::Ancha>>(
    anchize: ListAnchizeFromVec<E>,
    deanchize: ListDeanchize<D>,
    origin: Vec<E::Origin>,
    context: E::Context,
    bytes: Seq<u8>,
    pos: int,
    i: int,
    s: int,
)
    requires
        0 <= pos,
        0 <= i < origin@.len(),
        list_holds(anchize.elem_ancha, origin@, context, bytes, pos),
        forall|o: E::Origin, p: int|
            0 <= p && #[trigger] anchize.elem_ancha.spec_holds(o, context, bytes, p)
                ==> deanchize.elem_deancha.spec_walk(bytes, p) == Some(anchize.elem_ancha.spec_end(o, p)),
        0 <= s,
        spec_align_up(s, list_align::<E::Ancha>() as int) == list_node(anchize.elem_ancha, origin@, pos, i),
    ensures
        list_walk(deanchize.elem_deancha, bytes, s) == Some(list_end(anchize.elem_ancha, origin@, pos)),
    decreases origin@.len() - i,
{
    let e = anchize.elem_ancha;
    let d = deanchize.elem_deancha;
    let os = origin@;
    let n = os.len() as int;
    E::Ancha::lemma_layout();
    lemma_list_step(e, os, pos, i);
    lemma_list_mono(e, os, pos, i + 1, n);
    lemma_list_whole(e, os, pos);
    lemma_list_end_ge(e, os.take(i), pos);
    assert(list_node_holds(e, os, context, bytes, pos, i));
    let node = list_node(e, os, pos, i);
    assert(d.spec_walk(bytes, node + 8) == Some(e.spec_end(os[i], node + 8)));
    lemma_align_up(s, list_align::<E::Ancha>() as int);
    if i + 1 < n {
        let q = list_end(e, os.take(i + 1), pos);
        lemma_list_step(e, os, pos, i + 1);
        lemma_list_walk_from(anchize, deanchize, origin, context, bytes, pos, i + 1, q);
    }
}

} // verus!
