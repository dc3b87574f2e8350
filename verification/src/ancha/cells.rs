//! Fixed-size values stored inline in a blob.
use vstd::bytes::*;
use vstd::prelude::*;
use vstd::slice::slice_subrange;

use super::{splice, valid_align, write_bytes, Cell, Layout};

verus! {

impl Layout for u8 {
    open spec fn spec_size() -> nat {
        1
    }

    open spec fn spec_align() -> nat {
        1
    }

    fn size() -> (r: usize) {
        1
    }

    fn align() -> (r: usize) {
        1
    }

    proof fn lemma_layout() {
    }
}

impl Cell for u8 {
    open spec fn spec_encode(v: u8) -> Seq<u8> {
        seq![v]
    }

    open spec fn spec_decode(bytes: Seq<u8>) -> u8 {
        bytes[0]
    }

    proof fn lemma_cell(v: u8) {
    }

    fn read_cell(buf: &[u8], at: usize) -> (r: u8) {
        buf[at]
    }

    fn write_cell(&self, buf: &mut Vec<u8>, at: usize) {
        let ghost old_buf = buf@;
        buf.set(at, *self);
        assert(buf@ =~= splice(old_buf, at as int, seq![*self]));
    }
}

impl Layout for bool {
    open spec fn spec_size() -> nat {
        1
    }

    open spec fn spec_align() -> nat {
        1
    }

    fn size() -> (r: usize) {
        1
    }

    fn align() -> (r: usize) {
        1
    }

    proof fn lemma_layout() {
    }
}

impl Cell for bool {
    open spec fn spec_encode(v: bool) -> Seq<u8> {
        seq![if v { 1u8 } else { 0u8 }]
    }

    open spec fn spec_decode(bytes: Seq<u8>) -> bool {
        bytes[0] != 0
    }

    proof fn lemma_cell(v: bool) {
    }

    fn read_cell(buf: &[u8], at: usize) -> (r: bool) {
        buf[at] != 0
    }

    fn write_cell(&self, buf: &mut Vec<u8>, at: usize) {
        let ghost old_buf = buf@;
        let b: u8 = if *self { 1 } else { 0 };
        buf.set(at, b);
        assert(buf@ =~= splice(old_buf, at as int, Self::spec_encode(*self)));
    }
}

impl Layout for u32 {
    open spec fn spec_size() -> nat {
        4
    }

    open spec fn spec_align() -> nat {
        4
    }

    fn size() -> (r: usize) {
        4
    }

    fn align() -> (r: usize) {
        4
    }

    proof fn lemma_layout() {
    }
}

impl Cell for u32 {
    open spec fn spec_encode(v: u32) -> Seq<u8> {
        spec_u32_to_le_bytes(v)
    }

    open spec fn spec_decode(bytes: Seq<u8>) -> u32 {
        spec_u32_from_le_bytes(bytes)
    }

    proof fn lemma_cell(v: u32) {
        lemma_auto_spec_u32_to_from_le_bytes();
        assert(spec_u32_to_le_bytes(v).len() == 4);
    }

    fn read_cell(buf: &[u8], at: usize) -> (r: u32) {
        let _len = buf.len();
        u32_from_le_bytes(slice_subrange(buf, at, at + 4))
    }

    fn write_cell(&self, buf: &mut Vec<u8>, at: usize) {
        proof {
            lemma_auto_spec_u32_to_from_le_bytes();
            assert(spec_u32_to_le_bytes(*self).len() == 4);
        }
        let bytes = u32_to_le_bytes(*self);
        write_bytes(buf, at, bytes.as_slice());
    }
}

impl Layout for usize {
    open spec fn spec_size() -> nat {
        8
    }

    open spec fn spec_align() -> nat {
        8
    }

    fn size() -> (r: usize) {
        8
    }

    fn align() -> (r: usize) {
        8
    }

    proof fn lemma_layout() {
    }
}

/// A `usize` is stored as eight little-endian bytes.
impl Cell for usize {
    open spec fn spec_encode(v: usize) -> Seq<u8> {
        spec_u64_to_le_bytes(v as u64)
    }

    open spec fn spec_decode(bytes: Seq<u8>) -> usize {
        spec_u64_from_le_bytes(bytes) as usize
    }

    proof fn lemma_cell(v: usize) {
        lemma_auto_spec_u64_to_from_le_bytes();
    }

    fn read_cell(buf: &[u8], at: usize) -> (r: usize) {
        let _len = buf.len();
        let v = u64_from_le_bytes(slice_subrange(buf, at, at + 8));
        #[verifier::truncate]
        (v as usize)
    }

    fn write_cell(&self, buf: &mut Vec<u8>, at: usize) {
        proof {
            lemma_auto_spec_u64_to_from_le_bytes();
        }
        let bytes = u64_to_le_bytes(*self as u64);
        write_bytes(buf, at, bytes.as_slice());
    }
}

impl Layout for () {
    open spec fn spec_size() -> nat {
        0
    }

    open spec fn spec_align() -> nat {
        1
    }

    fn size() -> (r: usize) {
        0
    }

    fn align() -> (r: usize) {
        1
    }

    proof fn lemma_layout() {
    }
}

impl Cell for () {
    open spec fn spec_encode(v: ()) -> Seq<u8> {
        seq![]
    }

    open spec fn spec_decode(bytes: Seq<u8>) -> () {
        ()
    }

    proof fn lemma_cell(v: ()) {
    }

    fn read_cell(buf: &[u8], at: usize) -> (r: ()) {
        ()
    }

    fn write_cell(&self, buf: &mut Vec<u8>, at: usize) {
        assert(buf@ =~= splice(buf@, at as int, seq![]));
    }
}

} // verus!
