//! The 32-byte digest under which a node is stored, and the function that
//! computes it.
use tiny_keccak::Hasher;
use tiny_keccak::Keccak;
use vstd::prelude::*;

verus! {

/// The number of bytes in a digest.
pub const HASH_LEN: usize = 32;

/// A digest of 32 bytes.
#[derive(Clone, Copy, Debug, PartialEq, Eq, Hash)]
pub struct H256 {
    pub(crate) bytes: [u8; 32],
}

impl View for H256 {
    type V = Seq<u8>;

    closed spec fn view(&self) -> Seq<u8> {
        self.bytes@
    }
}

impl H256 {
    /// A digest has 32 bytes.
    pub broadcast proof fn lemma_len(&self)
        ensures
            #[trigger] self@.len() == 32,
    {
    }

    /// The digest whose bytes are all zero.
    pub fn zero() -> (r: H256)
        ensures
            r@ == Seq::new(32, |i: int| 0u8),
    {
        let r = H256 { bytes: [0u8; 32] };
        assert(r@ =~= Seq::new(32, |i: int| 0u8));
        r
    }

    /// The digest that holds the 32 bytes of `src`.
    pub fn from_slice(src: &[u8]) -> (r: H256)
        requires
            src@.len() == 32,
        ensures
            r@ == src@,
    {
        let mut bytes: [u8; 32] = [0u8; 32];
        let mut i: usize = 0;
        while i < 32
            invariant
                i <= 32,
                src@.len() == 32,
                forall|j: int| 0 <= j < i ==> bytes@[j] == src@[j],
            decreases 32 - i,
        {
            bytes[i] = src[i];
            i += 1;
        }
        let r = H256 { bytes };
        assert(r@ =~= src@);
        r
    }

    /// The digest whose last eight bytes hold `v`, the high byte first, and
    /// whose other bytes are zero.
    pub fn from_low_u64_be(v: u64) -> (r: H256)
        ensures
            forall|i: int| 0 <= i < 24 ==> r@[i] == 0,
            forall|i: int| 24 <= i < 32 ==> r@[i] == ((v >> (8 * (31 - i)) as u64) & 0xff) as u8,
    {
        let mut bytes: [u8; 32] = [0u8; 32];
        let mut i: usize = 24;
        while i < 32
            invariant
                24 <= i <= 32,
                forall|j: int| 0 <= j < 24 ==> bytes@[j] == 0,
                forall|j: int|
                    24 <= j < i ==> bytes@[j] == ((v >> (8 * (31 - j)) as u64) & 0xff) as u8,
            decreases 32 - i,
        {
            let shift: u64 = 8 * (31 - i as u64);
            assert((v >> shift) & 0xff < 256) by (bit_vector);
            bytes[i] = ((v >> shift) & 0xff) as u8;
            i += 1;
        }
        H256 { bytes }
    }

    /// The 32 bytes of the digest.
    pub fn as_bytes(&self) -> (r: &[u8])
        ensures
            r@ == self@,
    {
        self.bytes.as_slice()
    }

    /// Whether the two digests hold the same bytes.
    pub fn equals(&self, other: &H256) -> (r: bool)
        ensures
            r == (self@ == other@),
    {
        let mut i: usize = 0;
        while i < 32
            invariant
                i <= 32,
                forall|j: int| 0 <= j < i ==> self.bytes@[j] == other.bytes@[j],
            decreases 32 - i,
        {
            if self.bytes[i] != other.bytes[i] {
                return false;
            }
            i += 1;
        }
        assert(self@ =~= other@);
        true
    }
}

/// The Keccak-256 digest of a byte string.
pub uninterp spec fn keccak256_of(data: Seq<u8>) -> Seq<u8>;

/// The Keccak-256 digest of `data`, computed by `tiny_keccak::Keccak` with a
/// security level of 256 bits: one `update` with the whole input, then
/// `finalize` into a buffer of 32 bytes. The digest depends on the bytes of
/// the input alone.
#[verifier::external_body]
pub fn keccak256(data: &[u8]) -> (r: H256)
    ensures
        r@ == keccak256_of(data@),
{
    let mut hasher = Keccak::v256();
    let mut result = ethereum_types::H256::zero();
    hasher.update(data);
    hasher.finalize(result.as_mut());
    H256 { bytes: result.0 }
}

} // verus!
