//! The blob vector map: a vector of items, each a key and the position of its
//! value, then the values one after another; the same layout as
//! `AnchaVecMap`. Its values are laid out by a strategy in place of a closure.
use vstd::prelude::*;

use crate::ancha::vecmap::{lemma_vm_item, lemma_vm_stride, vm_align, vm_align_exec, vm_item, vm_stride, vm_stride_exec, vm_voff, AnchaVecMap, AnchaVecMapItem, VecMapAncha};
use crate::ancha::{max_blob, spec_align_up, Anchize, Cell, Matches, Reserve, StaticAnchize};

verus! {

/// A vector map in a blob.
pub type VecMap<'a, K, V> = AnchaVecMap<'a, K, V>;

/// An item of a blob vector map.
pub type VecMapItem<K, V> = AnchaVecMapItem<K, V>;

/// The index of the first item, from `i` on, whose key `x` matches.
pub open spec fn vm_next_match<'a, K: Cell, V, X: Matches<K>>(x: X, m: AnchaVecMap<'a, K, V>, i: int) -> Option<int>
    decreases m.len - i,
{
    if i < 0 || i >= m.len {
        None
    } else if x.spec_matches(m.spec_item(i).0) {
        Some(i)
    } else {
        vm_next_match(x, m, i + 1)
    }
}

impl<'a, K: Cell, V> AnchaVecMap<'a, K, V> {
    /// Reserve `origin` laid out by `strategy`; returns where the map starts.
    pub fn reserve<KA: StaticAnchize<Ancha = K>, VA: Anchize<Ancha = V, Context = KA::Context>>(
        strategy: &VecMapAncha<KA, VA>,
        origin: &Vec<(KA::Origin, VA::Origin)>,
        context: &KA::Context,
        sz: &mut Reserve,
    ) -> (r: usize)
        requires
            strategy.spec_end(*origin, old(sz).0 as int) <= max_blob(),
        ensures
            r == spec_align_up(old(sz).0 as int, 8),
            final(sz).0 == strategy.spec_end(*origin, old(sz).0 as int),
    {
        proof {
            strategy.lemma_end(*origin, sz.0 as int);
        }
        let r = crate::ancha::align_up(sz.0, 8);
        strategy.reserve(origin, context, sz);
        r
    }

    /// Position of item `ix` of the map whose header is at `my_addr`.
    pub fn key_addr(my_addr: usize, ix: usize) -> (r: usize)
        requires
            vm_item::<K>(my_addr as int, ix as int) <= max_blob(),
        ensures
            r == vm_item::<K>(my_addr as int, ix as int),
    {
        proof {
            lemma_vm_item::<K>(my_addr as int, 0, ix as int);
            lemma_vm_stride::<K>();
        }
        crate::ancha::align_up(my_addr + 8, vm_align_exec::<K>()) + ix * vm_stride_exec::<K>()
    }

    /// Iterator over the items whose key `key` matches, in order.
    pub fn iter_matches<'b, X: Matches<K>>(&self, key: &'b X) -> (r: VecMapIter<'a, 'b, X, K, V>)
        ensures
            r.x == key,
            r.map == *self,
            r.i == 0,
    {
        VecMapIter { x: key, map: AnchaVecMap { len: self.len, blob: self.blob, at: self.at, _phantom: self._phantom }, i: 0 }
    }
}

/// The items of a vector map lie one stride apart: a key, padding, and the
/// position of its value.
pub proof fn lemma_key_addr_stride<K: Cell>(my_addr: int, ix: int)
    requires
        0 <= my_addr,
        0 <= ix,
    ensures
        vm_item::<K>(my_addr, ix + 1) - vm_item::<K>(my_addr, ix) == vm_stride::<K>(),
        vm_stride::<K>() == spec_align_up(vm_voff::<K>() + 8, vm_align::<K>() as int),
        K::spec_size() + 8 <= vm_stride::<K>(),
{
    lemma_vm_item::<K>(my_addr, ix, ix + 1);
    lemma_vm_stride::<K>();
}

/// Iterator over the items of a vector map whose key matches.
pub struct VecMapIter<'a, 'b, X, K, V> {
    pub x: &'b X,
    pub map: AnchaVecMap<'a, K, V>,
    /// The next item to look at.
    pub i: usize,
}

impl<'a, 'b, X: Matches<K>, K: Cell, V> VecMapIter<'a, 'b, X, K, V> {
    /// The next matching item.
    pub fn next(&mut self) -> (r: Option<VecMapItem<K, V>>)
        requires
            old(self).map.wf(),
        ensures
            final(self).x == old(self).x,
            final(self).map == old(self).map,
            match vm_next_match(*old(self).x, old(self).map, old(self).i as int) {
                None => r is None && final(self).i == old(self).map.len,
                Some(j) => {
                    &&& r is Some
                    &&& (r->0.key, r->0.val as int) == old(self).map.spec_item(j)
                    &&& final(self).i == j + 1
                },
            },
    {
        let ghost i0 = self.i as int;
        if self.i > self.map.len {
            self.i = self.map.len;
        }
        while self.i < self.map.len
            invariant
                self.x == old(self).x,
                self.map == old(self).map,
                self.map.wf(),
                i0 == old(self).i,
                self.i <= self.map.len,
                vm_next_match(*self.x, self.map, i0) == vm_next_match(*self.x, self.map, self.i as int),
            decreases self.map.len - self.i,
        {
            let ghost ib = self.i as int;
            let item = self.map.get(self.i);
            self.i = self.i + 1;
            if self.x.matches(&item.key) {
                assert(vm_next_match(*self.x, self.map, ib) == Some(ib));
                return Some(item);
            }
        }
        None
    }
}

} // verus!
