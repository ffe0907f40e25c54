//! The plain-data capability: a type opts in by exhibiting a fixed-width
//! byte encoding in which every byte pattern of the right length denotes a
//! value, and equal encodings denote equal values. That assertion is what
//! licenses the generic typed read/write path of the memory abstraction;
//! here it is not taken on faith but proved, once, by each implementing
//! type, through the two proof obligations of the trait.

use vstd::prelude::*;
use vstd::bytes::*;

verus! {

/// A type whose complete state is its raw byte representation: it has a
/// fixed, positive width, every byte pattern of that width is a valid
/// instance, and no two distinct values share an encoding.
pub trait DataInit: Sized {
    /// The width of the encoding, in bytes.
    spec fn byte_len() -> nat;

    /// The encoding itself.
    spec fn as_bytes(self) -> Seq<u8>;

    /// Every value encodes to exactly `byte_len` bytes, and the width is
    /// positive.
    proof fn lemma_encoding_width(self)
        ensures
            self.as_bytes().len() == Self::byte_len(),
            Self::byte_len() > 0,
    ;

    /// The encoding determines the value: no marshaling step can conflate
    /// two distinct values.
    proof fn lemma_encoding_injective(a: Self, b: Self)
        requires
            a.as_bytes() == b.as_bytes(),
        ensures
            a == b,
    ;

    /// The width of the encoding, as a runtime quantity.
    fn size() -> (n: usize)
        ensures
            n == Self::byte_len(),
    ;

    /// Encodes `self`.
    fn to_bytes(&self) -> (b: Vec<u8>)
        ensures
            b@ == self.as_bytes(),
    ;

    /// Decodes any `byte_len`-byte pattern; total, because every pattern
    /// is a valid instance.
    fn from_bytes(b: &[u8]) -> (r: Self)
        requires
            b@.len() == Self::byte_len(),
        ensures
            r.as_bytes() == b@,
    ;
}

impl DataInit for u8 {
    open spec fn byte_len() -> nat {
        1
    }

    open spec fn as_bytes(self) -> Seq<u8> {
        seq![self]
    }

    proof fn lemma_encoding_width(self) {
    }

    proof fn lemma_encoding_injective(a: Self, b: Self) {
        assert(a == a.as_bytes()[0]);
    }

    fn size() -> (n: usize) {
        1
    }

    fn to_bytes(&self) -> (b: Vec<u8>) {
        let mut v: Vec<u8> = Vec::new();
        v.push(*self);
        assert(v@ =~= self.as_bytes());
        v
    }

    fn from_bytes(b: &[u8]) -> (r: Self) {
        let r = *vstd::slice::slice_index_get(b, 0);
        assert(r.as_bytes() =~= b@);
        r
    }
}

impl DataInit for u32 {
    open spec fn byte_len() -> nat {
        4
    }

    open spec fn as_bytes(self) -> Seq<u8> {
        spec_u32_to_le_bytes(self)
    }

    proof fn lemma_encoding_width(self) {
        lemma_auto_spec_u32_to_from_le_bytes();
    }

    proof fn lemma_encoding_injective(a: Self, b: Self) {
        lemma_auto_spec_u32_to_from_le_bytes();
        assert(spec_u32_to_le_bytes(a).len() == 4);
        assert(spec_u32_to_le_bytes(b).len() == 4);
        assert(spec_u32_from_le_bytes(spec_u32_to_le_bytes(a)) == a);
        assert(spec_u32_from_le_bytes(spec_u32_to_le_bytes(b)) == b);
    }

    fn size() -> (n: usize) {
        4
    }

    fn to_bytes(&self) -> (b: Vec<u8>) {
        u32_to_le_bytes(*self)
    }

    fn from_bytes(b: &[u8]) -> (r: Self) {
        let r = u32_from_le_bytes(b);
        proof {
            lemma_auto_spec_u32_to_from_le_bytes();
        }
        r
    }
}

impl DataInit for u64 {
    open spec fn byte_len() -> nat {
        8
    }

    open spec fn as_bytes(self) -> Seq<u8> {
        spec_u64_to_le_bytes(self)
    }

    proof fn lemma_encoding_width(self) {
        lemma_auto_spec_u64_to_from_le_bytes();
    }

    proof fn lemma_encoding_injective(a: Self, b: Self) {
        lemma_auto_spec_u64_to_from_le_bytes();
        assert(spec_u64_to_le_bytes(a).len() == 8);
        assert(spec_u64_to_le_bytes(b).len() == 8);
        assert(spec_u64_from_le_bytes(spec_u64_to_le_bytes(a)) == a);
        assert(spec_u64_from_le_bytes(spec_u64_to_le_bytes(b)) == b);
    }

    fn size() -> (n: usize) {
        8
    }

    fn to_bytes(&self) -> (b: Vec<u8>) {
        u64_to_le_bytes(*self)
    }

    fn from_bytes(b: &[u8]) -> (r: Self) {
        let r = u64_from_le_bytes(b);
        proof {
            lemma_auto_spec_u64_to_from_le_bytes();
        }
        r
    }
}

} // verus!
