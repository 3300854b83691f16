use vstd::prelude::*;

use crate::zero_hash_seq;

verus! {

/// A 256-bit value: a tree key, a node or leaf hash, or an account owner
/// identity.
#[derive(Clone, Copy, Debug, PartialEq, Eq)]
pub struct Hash256 {
    pub bytes: [u8; 32],
}

impl View for Hash256 {
    type V = Seq<u8>;

    open spec fn view(&self) -> Seq<u8> {
        self.bytes@
    }
}

impl Hash256 {
    /// The canonical zero hash, the sparse tree's sentinel for an empty leaf.
    pub fn zero() -> (r: Hash256)
        ensures
            r@ == zero_hash_seq(),
    {
        let bytes = [0u8; 32];
        proof {
            assert(bytes@ =~= zero_hash_seq());
        }
        Hash256 { bytes }
    }

    pub fn new(bytes: [u8; 32]) -> (r: Hash256)
        ensures
            r@ == bytes@,
    {
        Hash256 { bytes }
    }

    pub fn is_zero(&self) -> (r: bool)
        ensures
            r == (self@ == zero_hash_seq()),
    {
        let mut i: usize = 0;
        let mut all_zero: bool = true;
        while i < 32
            invariant
                i <= 32,
                all_zero ==> forall|j: int| 0 <= j < i ==> self@[j] == 0u8,
                !all_zero ==> self@ != zero_hash_seq(),
            decreases 32 - i,
        {
            if self.bytes[i] != 0 {
                proof {
                    assert(self@[i as int] != 0u8);
                    assert(zero_hash_seq()[i as int] == 0u8);
                }
                all_zero = false;
            } else {
                proof {
                    assert(self@[i as int] == 0u8);
                }
            }
            i = i + 1;
        }
        proof {
            if all_zero {
                assert(self@ =~= zero_hash_seq());
            }
        }
        all_zero
    }

    /// Byte-for-byte equality of two hashes.
    pub fn eq_bytes(&self, other: &Hash256) -> (r: bool)
        ensures
            r == (self@ == other@),
    {
        let mut i: usize = 0;
        let mut same: bool = true;
        while i < 32
            invariant
                i <= 32,
                same ==> forall|j: int| 0 <= j < i ==> self@[j] == other@[j],
                !same ==> self@ != other@,
            decreases 32 - i,
        {
            if self.bytes[i] != other.bytes[i] {
                proof {
                    assert(self@[i as int] != other@[i as int]);
                }
                same = false;
            } else {
                proof {
                    assert(self@[i as int] == other@[i as int]);
                }
            }
            i = i + 1;
        }
        proof {
            if same {
                assert(self@ =~= other@);
            }
        }
        same
    }

    /// The hash as a plain byte vector.
    pub fn to_vec(&self) -> (r: Vec<u8>)
        ensures
            r@ == self@,
    {
        let mut v: Vec<u8> = Vec::new();
        let mut i: usize = 0;
        while i < 32
            invariant
                i <= 32,
                v@ =~= self@.take(i as int),
            decreases 32 - i,
        {
            v.push(self.bytes[i]);
            i = i + 1;
        }
        proof {
            assert(v@ =~= self@);
        }
        v
    }
}

/// The digest of the domain-wide keyed hash over the given bytes: blake2b
/// with a 32-byte output, an empty key and the personalization
/// "sparsemerkletree". Every leaf hash and every tree key is one or two
/// applications of this function.
pub uninterp spec fn blake2b_of(data: Seq<u8>) -> Seq<u8>;

/// Relies on blake2b_rs::Blake2b, built with digest length 32, an empty key
/// and the personalization "sparsemerkletree": the digest is a pure function
/// of the input bytes alone, and is exactly 32 bytes long.
#[verifier::external_body]
pub(crate) fn blake2b_256(data: &Vec<u8>) -> (r: Hash256)
    ensures
        r@ == blake2b_of(data@),
{
    let mut hasher = blake2b_rs::Blake2bBuilder::new(32)
        .personal(b"sparsemerkletree")
        .key(&[])
        .build();
    hasher.update(data.as_slice());
    let mut buf = [0u8; 32];
    hasher.finalize(&mut buf);
    Hash256 { bytes: buf }
}

} // verus!
