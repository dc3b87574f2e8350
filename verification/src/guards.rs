//! Guards: sets of bytes, kept as 256-bit masks.
use vstd::bytes::*;
use vstd::prelude::*;
use vstd::slice::slice_subrange;

use crate::ancha::{splice, write_bytes, Cell, CellEq, Layout, Matches};

verus! {

/// A set of bytes: byte `c` is in the set where bit `c` of the mask is set;
/// the first number holds the bytes below 128, the second the others.
#[derive(Clone, Copy, PartialEq, Eq, Structural, Hash, Debug)]
pub struct Guard(pub u128, pub u128);

/// Bit `d` of `x`.
pub open spec fn bit(x: u128, d: u128) -> bool {
    (x >> d) & 1 == 1
}

/// Whether the guard holds byte `c`.
pub open spec fn guard_has(g: Guard, c: u8) -> bool {
    if c < 128 {
        bit(g.0, c as u128)
    } else {
        bit(g.1, (c - 128) as u128)
    }
}

/// The number of bytes below `n` that the guard holds.
pub open spec fn guard_count(g: Guard, n: nat) -> nat
    decreases n,
{
    if n == 0 {
        0
    } else {
        guard_count(g, (n - 1) as nat) + if guard_has(g, (n - 1) as u8) {
            1nat
        } else {
            0nat
        }
    }
}

pub proof fn lemma_bit_set(x: u128, c: u128, d: u128)
    requires
        c < 128,
        d < 128,
    ensures
        bit(x | (1u128 << c), d) == (d == c || bit(x, d)),
{
    assert(((x | (1u128 << c)) >> d) & 1 == 1 <==> (d == c || (x >> d) & 1 == 1)) by (bit_vector)
        requires
            c < 128,
            d < 128,
    ;
}

pub proof fn lemma_bit_or(x: u128, y: u128, d: u128)
    requires
        d < 128,
    ensures
        bit(x | y, d) == (bit(x, d) || bit(y, d)),
{
    assert(((x | y) >> d) & 1 == 1 <==> ((x >> d) & 1 == 1 || (y >> d) & 1 == 1)) by (bit_vector)
        requires
            d < 128,
    ;
}

pub proof fn lemma_bit_zero(d: u128)
    requires
        d < 128,
    ensures
        !bit(0, d),
{
    assert((0u128 >> d) & 1 != 1) by (bit_vector)
        requires
            d < 128,
    ;
}

impl Guard {
    /// The empty guard.
    pub fn empty() -> (r: Guard)
        ensures
            forall|c: u8| !guard_has(r, c),
    {
        proof {
            assert forall|c: u8| !guard_has(Guard(0, 0), c) by {
                if c < 128 {
                    lemma_bit_zero(c as u128);
                } else {
                    lemma_bit_zero((c - 128) as u128);
                }
            }
        }
        Guard(0, 0)
    }

    /// Whether the guard holds `c`.
    pub fn contains(&self, c: u8) -> (r: bool)
        ensures
            r == guard_has(*self, c),
    {
        if c < 128 {
            (self.0 >> c) & 1 == 1
        } else {
            (self.1 >> (c - 128)) & 1 == 1
        }
    }

    /// Add byte `c`.
    pub fn add(&mut self, c: u8)
        ensures
            forall|d: u8| guard_has(*final(self), d) == (d == c || guard_has(*old(self), d)),
    {
        let g = *self;
        let r = if c < 128 {
            let s: u128 = c as u128;
            Guard(g.0 | (1u128 << s), g.1)
        } else {
            let s: u128 = (c - 128) as u128;
            Guard(g.0, g.1 | (1u128 << s))
        };
        proof {
            assert forall|d: u8| guard_has(r, d) == (d == c || guard_has(g, d)) by {
                if c < 128 && d < 128 {
                    lemma_bit_set(g.0, c as u128, d as u128);
                } else if c >= 128 && d >= 128 {
                    lemma_bit_set(g.1, (c - 128) as u128, (d - 128) as u128);
                }
            }
        }
        *self = r;
    }

    /// Add the bytes from `range.0` to `range.1`, both included.
    pub fn add_range(&mut self, range: (u8, u8))
        ensures
            forall|d: u8|
                guard_has(*final(self), d) == ((range.0 <= d && d <= range.1) || guard_has(*old(self), d)),
    {
        let (a, b) = range;
        let mut c: u16 = a as u16;
        while c <= b as u16
            invariant
                a <= c <= b + 1 || (a > b && c == a),
                forall|d: u8|
                    guard_has(*self, d) == ((a <= d && d < c) || guard_has(*old(self), d)),
            decreases b + 1 - c,
        {
            self.add(c as u8);
            c = c + 1;
        }
    }

    /// The guard of the bytes from `range.0` to `range.1`, both included.
    pub fn from_range(range: (u8, u8)) -> (r: Guard)
        ensures
            forall|d: u8| guard_has(r, d) == (range.0 <= d && d <= range.1),
    {
        let mut g = Guard::empty();
        g.add_range(range);
        g
    }

    /// The guard of the bytes of all the ranges.
    pub fn from_ranges(ranges: Vec<(u8, u8)>) -> (r: Guard)
        ensures
            forall|d: u8|
                guard_has(r, d) == exists|i: int|
                    0 <= i < ranges@.len() && ranges@[i].0 <= d && d <= #[trigger] ranges@[i].1,
    {
        let mut g = Guard::empty();
        let mut i: usize = 0;
        while i < ranges.len()
            invariant
                0 <= i <= ranges@.len(),
                forall|d: u8|
                    guard_has(g, d) == exists|j: int|
                        0 <= j < i && ranges@[j].0 <= d && d <= #[trigger] ranges@[j].1,
            decreases ranges@.len() - i,
        {
            let ghost g0 = g;
            g.add_range(ranges[i]);
            proof {
                assert forall|d: u8| guard_has(g, d) == exists|j: int|
                    0 <= j < i + 1 && ranges@[j].0 <= d && d <= #[trigger] ranges@[j].1 by {
                    if guard_has(g0, d) {
                        let j = choose|j: int| 0 <= j < i && ranges@[j].0 <= d && d <= #[trigger] ranges@[j].1;
                        assert(0 <= j < i + 1 && ranges@[j].0 <= d && d <= ranges@[j].1);
                    }
                    if ranges@[i as int].0 <= d && d <= ranges@[i as int].1 {
                        assert(0 <= i < i + 1 && ranges@[i as int].0 <= d && d <= ranges@[i as int].1);
                    }
                }
            }
            i = i + 1;
        }
        g
    }

    /// Add all the bytes of `other`.
    pub fn union_update(&mut self, other: &Guard)
        ensures
            forall|d: u8| guard_has(*final(self), d) == (guard_has(*old(self), d) || guard_has(*other, d)),
    {
        let ghost g = *self;
        self.0 = self.0 | other.0;
        self.1 = self.1 | other.1;
        proof {
            assert forall|d: u8| guard_has(*self, d) == (guard_has(g, d) || guard_has(*other, d)) by {
                if d < 128 {
                    lemma_bit_or(g.0, other.0, d as u128);
                } else {
                    lemma_bit_or(g.1, other.1, (d - 128) as u128);
                }
            }
        }
    }

    /// The number of bytes that the guard holds.
    pub fn size(&self) -> (r: u32)
        ensures
            r == guard_count(*self, 256),
    {
        let mut n: u32 = 0;
        let mut c: u32 = 0;
        while c < 256
            invariant
                c <= 256,
                n == guard_count(*self, c as nat),
                n <= c,
            decreases 256 - c,
        {
            if self.contains(c as u8) {
                n = n + 1;
            }
            c = c + 1;
        }
        n
    }
}

/// A byte matches the guards that hold it.
impl Matches<Guard> for u8 {
    open spec fn spec_matches(&self, other: Guard) -> bool {
        guard_has(other, *self)
    }

    fn matches(&self, other: &Guard) -> (r: bool) {
        other.contains(*self)
    }
}

impl Layout for Guard {
    open spec fn spec_size() -> nat {
        32
    }

    open spec fn spec_align() -> nat {
        16
    }

    fn size() -> (r: usize) {
        32
    }

    fn align() -> (r: usize) {
        16
    }

    proof fn lemma_layout() {
    }
}

/// A guard is stored as its two numbers, little-endian, low one first.
impl Cell for Guard {
    open spec fn spec_encode(v: Guard) -> Seq<u8> {
        spec_u128_to_le_bytes(v.0) + spec_u128_to_le_bytes(v.1)
    }

    open spec fn spec_decode(bytes: Seq<u8>) -> Guard {
        Guard(
            spec_u128_from_le_bytes(bytes.subrange(0, 16)),
            spec_u128_from_le_bytes(bytes.subrange(16, 32)),
        )
    }

    proof fn lemma_cell(v: Guard) {
        lemma_auto_spec_u128_to_from_le_bytes();
        let e = Self::spec_encode(v);
        assert(e.subrange(0, 16) =~= spec_u128_to_le_bytes(v.0));
        assert(e.subrange(16, 32) =~= spec_u128_to_le_bytes(v.1));
    }

    fn read_cell(buf: &[u8], at: usize) -> (r: Guard) {
        let _len = buf.len();
        let lo = u128_from_le_bytes(slice_subrange(buf, at, at + 16));
        let hi = u128_from_le_bytes(slice_subrange(buf, at + 16, at + 32));
        proof {
            let s = buf@.subrange(at as int, at + 32);
            assert(s.subrange(0, 16) =~= buf@.subrange(at as int, at + 16));
            assert(s.subrange(16, 32) =~= buf@.subrange(at + 16, at + 32));
        }
        Guard(lo, hi)
    }

    fn write_cell(&self, buf: &mut Vec<u8>, at: usize) {
        proof {
            lemma_auto_spec_u128_to_from_le_bytes();
        }
        let ghost b0 = buf@;
        let _n = buf.len();
        let lo = u128_to_le_bytes(self.0);
        write_bytes(buf, at, lo.as_slice());
        let hi = u128_to_le_bytes(self.1);
        write_bytes(buf, at + 16, hi.as_slice());
        proof {
            assert(buf@ =~= splice(b0, at as int, Self::spec_encode(*self)));
        }
    }
}

impl CellEq for Guard {
    fn cell_eq(&self, other: &Guard) -> (r: bool) {
        self.0 == other.0 && self.1 == other.1
    }
}

} // verus!
