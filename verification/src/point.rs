//! Positions on the chain.

use vstd::prelude::*;

verus! {

/// A 32-byte block digest.
pub type BlockHash = [u8; 32];

/// A position on the chain: a slot together with the digest of the block
/// that occupies it. The slot orders positions; the digest tells forks apart.
#[derive(Clone, Copy, Debug, PartialEq, Eq)]
pub struct ChainPoint {
    pub slot: u64,
    pub hash: BlockHash,
}

/// Byte-wise comparison of two digests.
pub fn hash_eq(a: &BlockHash, b: &BlockHash) -> (same: bool)
    ensures
        same == (*a == *b),
{
    let mut i: usize = 0;
    while i < 32
        invariant
            i <= 32,
            forall|j: int| 0 <= j < i ==> a[j] == b[j],
        decreases 32 - i,
    {
        if a[i] != b[i] {
            return false;
        }
        i += 1;
    }
    assert(*a =~= *b);
    true
}

/// Reads a digest out of a byte string. A digest is exactly 32 bytes long;
/// any other length is not a digest.
pub fn bytes_to_hash(raw: &[u8]) -> (hash: Option<BlockHash>)
    ensures
        hash is Some <==> raw@.len() == 32,
        hash matches Some(h) ==> h@ == raw@,
{
    if raw.len() != 32 {
        return None;
    }
    let mut out: BlockHash = [0u8; 32];
    let mut i: usize = 0;
    while i < 32
        invariant
            i <= 32,
            raw@.len() == 32,
            forall|j: int| 0 <= j < i ==> out@[j] == raw@[j],
        decreases 32 - i,
    {
        out[i] = raw[i];
        i += 1;
    }
    assert(out@ =~= raw@);
    Some(out)
}

/// Copies a digest into a freshly allocated byte string.
pub fn hash_to_bytes(hash: &BlockHash) -> (raw: Vec<u8>)
    ensures
        raw@ == hash@,
{
    let mut raw: Vec<u8> = Vec::new();
    let mut i: usize = 0;
    while i < 32
        invariant
            i <= 32,
            raw@.len() == i,
            forall|j: int| 0 <= j < i ==> raw@[j] == hash@[j],
        decreases 32 - i,
    {
        raw.push(hash[i]);
        i += 1;
    }
    assert(raw@ =~= hash@);
    raw
}

impl ChainPoint {
    /// A point at `slot` whose block has digest `hash`.
    pub fn new(slot: u64, hash: BlockHash) -> (point: ChainPoint)
        ensures
            point == (ChainPoint { slot, hash }),
    {
        ChainPoint { slot, hash }
    }

    /// Whether two points name the same slot and the same block.
    pub fn same(&self, other: &ChainPoint) -> (same: bool)
        ensures
            same == (*self == *other),
    {
        self.slot == other.slot && hash_eq(&self.hash, &other.hash)
    }
}

} // verus!
