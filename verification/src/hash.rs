//! The 256-bit digest type and the hash that addresses keys and nodes.

use vstd::prelude::*;
use vstd::std_specs::cmp::PartialEqSpecImpl;

verus! {

/// A 256-bit digest: the identity of a stored node, and the hashed form of a key.
#[derive(Clone, Copy, Debug, Hash)]
pub struct H256(pub [u8; 32]);

impl View for H256 {
    type V = Seq<u8>;

    open spec fn view(&self) -> Seq<u8> {
        self.0@
    }
}

impl PartialEq for H256 {
    fn eq(&self, other: &H256) -> (r: bool) {
        let mut i: usize = 0;
        while i < 32
            invariant
                i <= 32,
                forall|j: int| 0 <= j < i ==> self.0[j] == other.0[j],
            decreases 32 - i,
        {
            if self.0[i] != other.0[i] {
                return false;
            }
            i += 1;
        }
        assert(self@ =~= other@);
        true
    }
}

impl PartialEqSpecImpl for H256 {
    open spec fn obeys_eq_spec() -> bool {
        true
    }

    open spec fn eq_spec(&self, other: &H256) -> bool {
        self@ == other@
    }
}

impl Eq for H256 {}

impl H256 {
    /// The digest whose 32 bytes are all zero.
    pub fn zero() -> (r: H256)
        ensures
            r@ == Seq::new(32, |i: int| 0u8),
    {
        let r = H256([0u8; 32]);
        assert(r@ =~= Seq::new(32, |i: int| 0u8));
        r
    }

    /// The 32 bytes of the digest.
    pub fn as_bytes(&self) -> (r: &[u8; 32])
        ensures
            r@ == self@,
    {
        &self.0
    }

    /// The digest made of the 32 bytes of `bytes`, or `None` where `bytes` has
    /// another length.
    pub fn from_slice(bytes: &[u8]) -> (r: Option<H256>)
        ensures
            bytes@.len() == 32 ==> r is Some && r->0@ == bytes@,
            bytes@.len() != 32 ==> r is None,
    {
        if bytes.len() != 32 {
            return None;
        }
        let mut out = [0u8; 32];
        let mut i: usize = 0;
        while i < 32
            invariant
                i <= 32,
                bytes@.len() == 32,
                forall|j: int| 0 <= j < i ==> out[j] == bytes@[j],
            decreases 32 - i,
        {
            out[i] = bytes[i];
            i += 1;
        }
        let r = H256(out);
        assert(r@ =~= bytes@);
        Some(r)
    }
}

/// The BLAKE2b digest, 32 bytes long and unkeyed, of a byte string.
pub uninterp spec fn digest_of(data: Seq<u8>) -> Seq<u8>;

/// Calls `blake2b_simd::Params::hash` with the hash length set to 32 and every
/// other parameter at its default. The result is a function of the input bytes
/// alone; nothing more is claimed of it than that it is that function's value.
#[verifier::external_body]
pub(crate) fn blake256(data: &[u8]) -> (h: H256)
    ensures
        h@ == digest_of(data@),
{
    let hash = blake2b_simd::Params::new().hash_length(32).hash(data);
    let mut out = [0u8; 32];
    out.copy_from_slice(hash.as_bytes());
    H256(out)
}

/// The bytes of the root of a trie that holds nothing: the digest of the one
/// byte 0x80, which is the written form of the empty byte string.
pub const BLAKE_NULL_RLP_BYTES: [u8; 32] = [
    0x45, 0xb0, 0xcf, 0xc2, 0x20, 0xce, 0xec, 0x5b, 0x7c, 0x1c, 0x62, 0xc4, 0xd4, 0x19, 0x3d, 0x38,
    0xe4, 0xeb, 0xa4, 0x8e, 0x88, 0x15, 0x72, 0x9c, 0xe7, 0x5f, 0x9c, 0x0a, 0xb0, 0xe4, 0xc1, 0xc0,
];

/// The root of a trie that holds nothing, as a sequence of bytes.
pub open spec fn empty_root() -> Seq<u8> {
    BLAKE_NULL_RLP_BYTES@
}

/// The root of a trie that holds nothing.
pub fn blake_null_rlp() -> (r: H256)
    ensures
        r@ == empty_root(),
{
    H256(BLAKE_NULL_RLP_BYTES)
}

} // verus!
