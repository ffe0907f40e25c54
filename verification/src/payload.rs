//! Two representative fixed-layout records that exercise the typed
//! read/write path: an 8-byte two-field record and a 96-byte
//! twelve-element record. Both carry verified little-endian encodings and
//! so round-trip exactly through `read_obj` / `write_obj`.

use vstd::prelude::*;
use vstd::bytes::*;
use vstd::slice::slice_subrange;
use crate::data_init::DataInit;

verus! {

/// An 8-byte record of two 32-bit fields.
#[derive(Clone, Copy, Debug, PartialEq, Eq, Structural)]
pub struct SmallRecord {
    pub a: u32,
    pub b: u32,
}

impl DataInit for SmallRecord {
    open spec fn byte_len() -> nat {
        8
    }

    open spec fn as_bytes(self) -> Seq<u8> {
        spec_u32_to_le_bytes(self.a) + spec_u32_to_le_bytes(self.b)
    }

    proof fn lemma_encoding_width(self) {
        lemma_auto_spec_u32_to_from_le_bytes();
        assert(spec_u32_to_le_bytes(self.a).len() == 4);
        assert(spec_u32_to_le_bytes(self.b).len() == 4);
    }

    proof fn lemma_encoding_injective(x: Self, y: Self) {
        lemma_auto_spec_u32_to_from_le_bytes();
        assert(spec_u32_to_le_bytes(x.a).len() == 4);
        assert(spec_u32_to_le_bytes(x.b).len() == 4);
        assert(spec_u32_to_le_bytes(y.a).len() == 4);
        assert(spec_u32_to_le_bytes(y.b).len() == 4);
        assert(spec_u32_to_le_bytes(x.a) =~= x.as_bytes().subrange(0, 4));
        assert(spec_u32_to_le_bytes(x.b) =~= x.as_bytes().subrange(4, 8));
        assert(spec_u32_to_le_bytes(y.a) =~= y.as_bytes().subrange(0, 4));
        assert(spec_u32_to_le_bytes(y.b) =~= y.as_bytes().subrange(4, 8));
        assert(spec_u32_from_le_bytes(spec_u32_to_le_bytes(x.a)) == x.a);
        assert(spec_u32_from_le_bytes(spec_u32_to_le_bytes(x.b)) == x.b);
        assert(spec_u32_from_le_bytes(spec_u32_to_le_bytes(y.a)) == y.a);
        assert(spec_u32_from_le_bytes(spec_u32_to_le_bytes(y.b)) == y.b);
    }

    fn size() -> (n: usize) {
        8
    }

    fn to_bytes(&self) -> (b: Vec<u8>) {
        let mut v = u32_to_le_bytes(self.a);
        let mut w = u32_to_le_bytes(self.b);
        v.append(&mut w);
        v
    }

    fn from_bytes(b: &[u8]) -> (r: Self) {
        let a = u32_from_le_bytes(slice_subrange(b, 0, 4));
        let b2 = u32_from_le_bytes(slice_subrange(b, 4, 8));
        let r = SmallRecord { a, b: b2 };
        proof {
            lemma_auto_spec_u32_to_from_le_bytes();
            assert(spec_u32_to_le_bytes(r.a) == b@.subrange(0, 4));
            assert(spec_u32_to_le_bytes(r.b) == b@.subrange(4, 8));
            assert(r.as_bytes() =~= b@);
        }
        r
    }
}

/// The little-endian encoding of a sequence of 64-bit values, one after
/// the other.
pub open spec fn concat_le_u64(elems: Seq<u64>) -> Seq<u8>
    decreases elems.len(),
{
    if elems.len() <= 0 {
        Seq::empty()
    } else {
        concat_le_u64(elems.drop_last()) + spec_u64_to_le_bytes(elems.last())
    }
}

/// The encoding of `n` values is `8 * n` bytes long.
pub proof fn lemma_concat_le_u64_len(elems: Seq<u64>)
    ensures
        concat_le_u64(elems).len() == 8 * elems.len(),
    decreases elems.len(),
{
    lemma_auto_spec_u64_to_from_le_bytes();
    if elems.len() > 0 {
        lemma_concat_le_u64_len(elems.drop_last());
        assert(spec_u64_to_le_bytes(elems.last()).len() == 8);
    }
}

/// The `i`-th 8-byte block of the encoding is the encoding of the `i`-th
/// value.
pub proof fn lemma_concat_le_u64_index(elems: Seq<u64>, i: int)
    requires
        0 <= i < elems.len(),
    ensures
        concat_le_u64(elems).subrange(8 * i, 8 * i + 8) == spec_u64_to_le_bytes(elems[i]),
    decreases elems.len(),
{
    lemma_auto_spec_u64_to_from_le_bytes();
    lemma_concat_le_u64_len(elems.drop_last());
    assert(spec_u64_to_le_bytes(elems.last()).len() == 8);
    if i == elems.len() - 1 {
        assert(concat_le_u64(elems).subrange(8 * i, 8 * i + 8) =~= spec_u64_to_le_bytes(
            elems.last(),
        ));
    } else {
        lemma_concat_le_u64_index(elems.drop_last(), i);
        assert(concat_le_u64(elems).subrange(8 * i, 8 * i + 8) =~= concat_le_u64(
            elems.drop_last(),
        ).subrange(8 * i, 8 * i + 8));
    }
}

/// A 96-byte record of twelve 64-bit elements.
#[derive(Clone, Copy, Debug, PartialEq)]
#[verifier::ext_equal]
pub struct WideRecord {
    pub elements: [u64; 12],
}

impl DataInit for WideRecord {
    open spec fn byte_len() -> nat {
        96
    }

    open spec fn as_bytes(self) -> Seq<u8> {
        concat_le_u64(self.elements@)
    }

    proof fn lemma_encoding_width(self) {
        lemma_concat_le_u64_len(self.elements@);
    }

    proof fn lemma_encoding_injective(x: Self, y: Self) {
        lemma_auto_spec_u64_to_from_le_bytes();
        assert forall|i: int| 0 <= i < 12 implies x.elements@[i] == y.elements@[i] by {
            lemma_concat_le_u64_index(x.elements@, i);
            lemma_concat_le_u64_index(y.elements@, i);
            let bs = spec_u64_to_le_bytes(x.elements@[i]);
            assert(bs.len() == 8);
            assert(spec_u64_from_le_bytes(spec_u64_to_le_bytes(x.elements@[i]))
                == x.elements@[i]);
            assert(spec_u64_from_le_bytes(spec_u64_to_le_bytes(y.elements@[i]))
                == y.elements@[i]);
        }
        assert(x.elements@ =~= y.elements@);
        assert(x =~= y);
    }

    fn size() -> (n: usize) {
        96
    }

    fn to_bytes(&self) -> (b: Vec<u8>) {
        let mut v: Vec<u8> = Vec::new();
        let mut i: usize = 0;
        while i < 12
            invariant
                0 <= i <= 12,
                v@ == concat_le_u64(self.elements@.take(i as int)),
            decreases 12 - i,
        {
            let mut w = u64_to_le_bytes(self.elements[i]);
            v.append(&mut w);
            proof {
                let t = self.elements@.take(i + 1);
                assert(t.drop_last() =~= self.elements@.take(i as int));
                assert(t.last() == self.elements@[i as int]);
            }
            i += 1;
        }
        proof {
            assert(self.elements@.take(12) =~= self.elements@);
        }
        v
    }

    fn from_bytes(b: &[u8]) -> (r: Self) {
        let mut elements: [u64; 12] = [0u64; 12];
        let mut i: usize = 0;
        while i < 12
            invariant
                0 <= i <= 12,
                b@.len() == 96,
                forall|j: int|
                    0 <= j < i ==> elements@[j] == spec_u64_from_le_bytes(
                        b@.subrange(8 * j, 8 * j + 8),
                    ),
            decreases 12 - i,
        {
            let e = u64_from_le_bytes(slice_subrange(b, 8 * i, 8 * i + 8));
            elements[i] = e;
            i += 1;
        }
        let r = WideRecord { elements };
        proof {
            lemma_auto_spec_u64_to_from_le_bytes();
            lemma_concat_le_u64_len(r.elements@);
            assert forall|k: int| 0 <= k < 96 implies r.as_bytes()[k] == b@[k] by {
                let j = k / 8;
                lemma_concat_le_u64_index(r.elements@, j);
                assert(spec_u64_to_le_bytes(r.elements@[j]) == b@.subrange(8 * j, 8 * j + 8));
                assert(r.as_bytes()[k] == r.as_bytes().subrange(8 * j, 8 * j + 8)[k - 8 * j]);
            }
            assert(r.as_bytes() =~= b@);
        }
        r
    }
}

} // verus!
