//! AnchaAssocList: a linked list of key-value entries, searched by a key matcher.
use core::marker::PhantomData;
use vstd::prelude::*;

use super::list::{
    list_align, list_value, AnchaList, ListAnchizeFromVec, ListDeanchize,
};
use super::{
    cell_at, max_blob, spec_align_up, Anchize, Assoc, Assocs, BuildCursor, Cell, CellEq, Deanchize, EqMatch,
    Layout, Matches, Reserve,
};

verus! {

/// An associative list: a linked list of entries.
pub struct AnchaAssocList<'a, KV>(pub AnchaList<'a, KV>);

impl<'a, KV: Layout> Layout for AnchaAssocList<'a, KV> {
    open spec fn spec_size() -> nat {
        AnchaList::<'a, KV>::spec_size()
    }

    open spec fn spec_align() -> nat {
        AnchaList::<'a, KV>::spec_align()
    }

    fn size() -> (r: usize) {
        AnchaList::<'a, KV>::size()
    }

    fn align() -> (r: usize) {
        AnchaList::<'a, KV>::align()
    }

    proof fn lemma_layout() {
        AnchaList::<'a, KV>::lemma_layout();
    }
}

/// Optional position as a `usize`.
pub open spec fn opt_usize(o: Option<int>) -> Option<usize> {
    match o {
        Some(p) => Some(p as usize),
        None => None,
    }
}

/// The next node after the node at `cur`: its link, where the link leads
/// forward to a node inside the bytes.
pub open spec fn assoc_next(bytes: Seq<u8>, cur: int) -> Option<int> {
    let link = cell_at::<usize>(bytes, cur) as int;
    if cur < link && link + 8 <= bytes.len() {
        Some(link)
    } else {
        None
    }
}

/// Searching the entries from the node at `cur` on: the key and the value
/// position of the first entry whose key `x` matches, and the node after it.
pub open spec fn assoc_scan<KV: Assoc, X: Matches<KV::Key>>(
    x: X,
    bytes: Seq<u8>,
    cur: int,
) -> Option<(KV::Key, int, Option<int>)>
    decreases bytes.len() - cur,
{
    let v = list_value::<KV>(cur);
    let k = KV::spec_key_at(v);
    if cur < 0 || cur + 8 > bytes.len() || k + KV::Key::spec_size() > bytes.len() {
        None
    } else {
        let key = cell_at::<KV::Key>(bytes, k);
        if x.spec_matches(key) {
            Some((key, KV::spec_val_at(v), assoc_next(bytes, cur)))
        } else {
            match assoc_next(bytes, cur) {
                Some(n) => assoc_scan::<KV, X>(x, bytes, n),
                None => None,
            }
        }
    }
}

impl<'a, KV: Assoc> AnchaAssocList<'a, KV> {
    /// The associative list whose first node is at `at` of `blob`.
    pub fn from_blob(blob: &'a [u8], at: usize) -> (r: Self)
        ensures
            r.0.blob@ == blob@,
            r.0.at == at,
    {
        AnchaAssocList(AnchaList::from_blob(blob, at))
    }

    /// The underlying list.
    pub fn list(&self) -> (r: &AnchaList<'a, KV>)
        ensures
            *r == self.0,
    {
        &self.0
    }

    /// Iterator over the entries whose key `key` matches.
    pub fn iter_matches<'b, X: Matches<KV::Key>>(&self, key: &'b X) -> (r: AssocListIter<'a, 'b, X, KV>)
        ensures
            r.x == key,
            r.blob@ == self.0.blob@,
            r.current == Some(self.0.at),
    {
        AssocListIter { x: key, blob: self.0.blob, current: Some(self.0.at), _phantom: PhantomData }
    }
}

/// Iterator over the entries of an associative list whose key matches.
pub struct AssocListIter<'a, 'b, X, KV> {
    pub x: &'b X,
    pub blob: &'a [u8],
    /// The node to search from, if any.
    pub current: Option<usize>,
    pub _phantom: PhantomData<KV>,
}

impl<'a, 'b, X: Matches<KV::Key>, KV: Assoc> AssocListIter<'a, 'b, X, KV> {
    /// The key and the value position of the next matching entry.
    pub fn next(&mut self) -> (r: Option<(KV::Key, usize)>)
        requires
            old(self).blob@.len() <= max_blob(),
        ensures
            final(self).x == old(self).x,
            final(self).blob@ == old(self).blob@,
            match old(self).current {
                None => r is None && final(self).current is None,
                Some(c) => match assoc_scan::<KV, X>(*old(self).x, old(self).blob@, c as int) {
                    None => r is None && final(self).current is None,
                    Some(found) => {
                        &&& r is Some
                        &&& (r->0).0 == found.0
                        &&& (r->0).1 == found.1
                        &&& final(self).current == opt_usize(found.2)
                    },
                },
            },
    {
        let c0 = match self.current {
            None => {
                return None;
            },
            Some(c) => c,
        };
        let ghost goal = assoc_scan::<KV, X>(*self.x, self.blob@, c0 as int);
        let len = self.blob.len();
        proof {
            KV::lemma_layout();
            KV::Key::lemma_layout();
        }
        let mut cur = c0;
        loop
            invariant
                len == self.blob@.len(),
                len <= max_blob(),
                goal == assoc_scan::<KV, X>(*self.x, self.blob@, c0 as int),
                assoc_scan::<KV, X>(*self.x, self.blob@, cur as int) == goal,
                self.x == old(self).x,
                self.blob == old(self).blob,
                old(self).current == Some(c0),
            decreases len - cur,
        {
            if !(cur < len && cur + 8 <= len) {
                self.current = None;
                return None;
            }
            proof {
                KV::lemma_layout();
                KV::Key::lemma_layout();
                super::lemma_align_up(cur + 8, KV::spec_align() as int);
            }
            let v = super::align_up(cur + 8, KV::align());
            let k = KV::key_at(v);
            if !(k <= len && KV::Key::size() <= len - k) {
                self.current = None;
                return None;
            }
            let key = KV::Key::read_cell(self.blob, k);
            let link = usize::read_cell(self.blob, cur);
            let has_next = cur < link && link < len && 8 <= len - link;
            if self.x.matches(&key) {
                self.current = if has_next {
                    Some(link)
                } else {
                    None
                };
                proof {
                    KV::lemma_assoc(v as int);
                }
                return Some((key, KV::val_at(v)));
            }
            if !has_next {
                self.current = None;
                return None;
            }
            cur = link;
        }
    }
}

impl<'a, KV: Assoc> Assocs for AnchaAssocList<'a, KV> where KV::Key: CellEq {
    type Key = KV::Key;

    open spec fn spec_lookup(key: KV::Key, bytes: Seq<u8>, at: int) -> Option<int> {
        match assoc_scan::<KV, EqMatch<'static, KV::Key>>(
            EqMatch(&key),
            bytes,
            spec_align_up(at, list_align::<KV>() as int),
        ) {
            Some(found) => Some(found.1),
            None => None,
        }
    }

    fn lookup(key: &KV::Key, blob: &[u8], at: usize) -> (r: Option<usize>) {
        proof {
            KV::lemma_layout();
            super::lemma_align_up(at as int, list_align::<KV>() as int);
        }
        if at > blob.len() {
            return None;
        }
        let start = super::align_up(at, <Self as Layout>::align());
        let alist = AnchaAssocList::<KV>::from_blob(blob, start);
        let x = EqMatch(key);
        let mut it = alist.iter_matches(&x);
        match it.next() {
            Some(found) => Some(found.1),
            None => None,
        }
    }
}


/// Anchization of a `Vec` of entries into an `AnchaAssocList`.
pub struct AssocListAnchizeFromVec<ElemAnchize> {
    pub list_ancha: ListAnchizeFromVec<ElemAnchize>,
}

impl<ElemAnchize> AssocListAnchizeFromVec<ElemAnchize> {
    pub fn new(elem_ancha: ElemAnchize) -> (r: Self)
        ensures
            r.list_ancha.elem_ancha == elem_ancha,
    {
        AssocListAnchizeFromVec { list_ancha: ListAnchizeFromVec::new(elem_ancha) }
    }
}

impl<ElemAnchize: Default> Default for AssocListAnchizeFromVec<ElemAnchize> {
    fn default() -> Self {
        AssocListAnchizeFromVec { list_ancha: ListAnchizeFromVec::default() }
    }
}

impl<ElemAnchize: Anchize> Anchize for AssocListAnchizeFromVec<ElemAnchize> {
    type Origin = Vec<ElemAnchize::Origin>;

    type Context = ElemAnchize::Context;

    type Ancha = AnchaAssocList<'static, ElemAnchize::Ancha>;

    open spec fn spec_accepts(&self, origin: Self::Origin, context: Self::Context) -> bool {
        self.list_ancha.spec_accepts(origin, context)
    }

    open spec fn spec_end(&self, origin: Self::Origin, pos: int) -> int {
        self.list_ancha.spec_end(origin, pos)
    }

    open spec fn spec_holds(
        &self,
        origin: Self::Origin,
        context: Self::Context,
        bytes: Seq<u8>,
        pos: int,
    ) -> bool {
        self.list_ancha.spec_holds(origin, context, bytes, pos)
    }

    proof fn lemma_align_start(
        &self,
        origin: Self::Origin,
        context: Self::Context,
        bytes: Seq<u8>,
        pos: int,
    ) {
        self.list_ancha.lemma_align_start(origin, context, bytes, pos);
    }

    proof fn lemma_end(&self, origin: Self::Origin, pos: int) {
        self.list_ancha.lemma_end(origin, pos);
    }

    proof fn lemma_frame(
        &self,
        origin: Self::Origin,
        context: Self::Context,
        b1: Seq<u8>,
        b2: Seq<u8>,
        pos: int,
    ) {
        self.list_ancha.lemma_frame(origin, context, b1, b2, pos);
    }

    fn reserve(&self, origin: &Self::Origin, context: &Self::Context, sz: &mut Reserve) {
        self.list_ancha.reserve(origin, context, sz);
    }

    fn anchize<After>(
        &self,
        origin: &Self::Origin,
        context: &Self::Context,
        buf: &mut Vec<u8>,
        cur: BuildCursor<Self::Ancha>,
    ) -> (r: BuildCursor<After>) {
        self.list_ancha.anchize(origin, context, buf, cur.transmute())
    }
}

/// Deanchization of an `AnchaAssocList`.
pub struct AssocListDeanchize<ElemDeanchize> {
    pub list_deancha: ListDeanchize<ElemDeanchize>,
}

impl<ElemDeanchize> AssocListDeanchize<ElemDeanchize> {
    pub fn new(elem_deancha: ElemDeanchize) -> (r: Self)
        ensures
            r.list_deancha.elem_deancha == elem_deancha,
    {
        AssocListDeanchize { list_deancha: ListDeanchize::new(elem_deancha) }
    }
}

impl<ElemDeanchize: Default> Default for AssocListDeanchize<ElemDeanchize> {
    fn default() -> Self {
        AssocListDeanchize { list_deancha: ListDeanchize::default() }
    }
}

impl<ElemDeanchize: Deanchize> Deanchize for AssocListDeanchize<ElemDeanchize> {
    type Ancha = AnchaAssocList<'static, ElemDeanchize::Ancha>;

    open spec fn spec_walk(&self, bytes: Seq<u8>, pos: int) -> Option<int> {
        self.list_deancha.spec_walk(bytes, pos)
    }

    proof fn lemma_walk(&self, bytes: Seq<u8>, pos: int) {
        self.list_deancha.lemma_walk(bytes, pos);
    }

    fn deanchize<After>(&self, buf: &[u8], cur: BuildCursor<Self::Ancha>) -> (r: BuildCursor<After>) {
        self.list_deancha.deanchize(buf, cur.transmute())
    }
}

/// Deanchization walks exactly over an anchized associative list that has
/// entries, given that it does so over each entry.
pub proof fn lemma_assoc_list_walk<E: Anchize, D: Deanchize<Ancha = E::Ancha>>(
    anchize: AssocListAnchizeFromVec<E>,
    deanchize: AssocListDeanchize<D>,
    origin: Vec<E::Origin>,
    ctx: E::Context,
    bytes: Seq<u8>,
    pos: int,
)
    requires
        0 <= pos,
        origin@.len() > 0,
        anchize.spec_holds(origin, ctx, bytes, pos),
        forall|o: E::Origin, p: int|
            0 <= p && #[trigger] anchize.list_ancha.elem_ancha.spec_holds(o, ctx, bytes, p)
                ==> deanchize.list_deancha.elem_deancha.spec_walk(bytes, p) == Some(
                anchize.list_ancha.elem_ancha.spec_end(o, p),
            ),
    ensures
        deanchize.spec_walk(bytes, pos) == Some(anchize.spec_end(origin, pos)),
{
    super::list::lemma_list_walk(anchize.list_ancha, deanchize.list_deancha, origin, ctx, bytes, pos);
}

} // verus!
