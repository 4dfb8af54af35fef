//! The chain store: the stable, canonical part of history, ordered by slot
//! and addressed by block digest.

use std::collections::HashMap;
use vstd::prelude::*;
use crate::error::ChainError;
use crate::point::{hash_eq, BlockHash, ChainPoint};

verus! {

/// A block on the chain, as a mathematical value: where it stands and what
/// it holds.
pub struct Block {
    pub point: ChainPoint,
    pub body: Seq<u8>,
}

/// Slots strictly ascend along `chain`.
pub open spec fn ascending(chain: Seq<Block>) -> bool {
    forall|i: int, j: int|
        0 <= i < j < chain.len() ==> (#[trigger] chain[i]).point.slot < (
        #[trigger] chain[j]).point.slot
}

/// No digest occurs twice in `chain`.
pub open spec fn distinct_hashes(chain: Seq<Block>) -> bool {
    forall|i: int, j: int|
        0 <= i < j < chain.len() ==> (#[trigger] chain[i]).point.hash != (
        #[trigger] chain[j]).point.hash
}

/// The block at position `i` of `chain` has digest `hash`.
pub open spec fn holds_at(chain: Seq<Block>, hash: BlockHash, i: int) -> bool {
    0 <= i < chain.len() && chain[i].point.hash == hash
}

/// The content stored under `hash`, if `chain` has a block with that digest.
pub open spec fn lookup(chain: Seq<Block>, hash: BlockHash) -> Option<Seq<u8>> {
    if exists|i: int| holds_at(chain, hash, i) {
        Some(chain[choose|i: int| holds_at(chain, hash, i)].body)
    } else {
        None
    }
}

/// The points of `chain`, in order.
pub open spec fn points_of(chain: Seq<Block>) -> Seq<ChainPoint> {
    chain.map_values(|b: Block| b.point)
}

/// Where the points of `index` with a slot below `from` end: one past the
/// last of them, or 0 where there is none. On an ascending index this is
/// the number of points below `from`, and the place where a page that
/// starts at `from` begins.
pub open spec fn rank(index: Seq<ChainPoint>, from: u64) -> nat
    decreases index.len(),
{
    if index.len() == 0 {
        0
    } else if index.last().slot < from {
        index.len()
    } else {
        rank(index.drop_last(), from)
    }
}

/// The page of at most `len` points of `index` that starts at the first
/// point whose slot is `from` or later.
pub open spec fn page_of(index: Seq<ChainPoint>, from: u64, len: nat) -> Seq<ChainPoint> {
    let start = rank(index, from) as int;
    let end = if start + len <= index.len() {
        start + len
    } else {
        index.len() as int
    };
    index.subrange(start, end)
}

/// Slots strictly ascend along `index`.
pub open spec fn ascending_points(index: Seq<ChainPoint>) -> bool {
    forall|i: int, j: int|
        0 <= i < j < index.len() ==> (#[trigger] index[i]).slot < (#[trigger] index[j]).slot
}

/// On an ascending index, `rank` splits the points below `from` from the
/// rest: every point before it has a lower slot, every point from it on has
/// slot `from` or higher.
pub proof fn lemma_rank_splits(index: Seq<ChainPoint>, from: u64)
    requires
        ascending_points(index),
    ensures
        rank(index, from) <= index.len(),
        forall|i: int| 0 <= i < rank(index, from) ==> (#[trigger] index[i]).slot < from,
        forall|i: int| rank(index, from) <= i < index.len() ==> (#[trigger] index[i]).slot >= from,
    decreases index.len(),
{
    if index.len() == 0 {
    } else if index.last().slot < from {
        assert forall|i: int| 0 <= i < index.len() implies (#[trigger] index[i]).slot < from by {
            if i < index.len() - 1 {
                assert(index[i].slot < index[index.len() - 1].slot);
            }
        }
    } else {
        let shorter = index.drop_last();
        assert(ascending_points(shorter)) by {
            assert forall|i: int, j: int| 0 <= i < j < shorter.len() implies (
            #[trigger] shorter[i]).slot < (#[trigger] shorter[j]).slot by {
                assert(shorter[i] == index[i] && shorter[j] == index[j]);
            }
        }
        lemma_rank_splits(shorter, from);
        assert forall|i: int| 0 <= i < rank(index, from) implies (#[trigger] index[i]).slot
            < from by {
            assert(shorter[i] == index[i]);
        }
        assert forall|i: int| rank(index, from) <= i < index.len() implies (
        #[trigger] index[i]).slot >= from by {
            if i < index.len() - 1 {
                assert(shorter[i] == index[i]);
            }
        }
    }
}

/// On an ascending index, a position that splits the points below `from`
/// from the rest is the rank of `from`.
pub proof fn lemma_rank_is(index: Seq<ChainPoint>, from: u64, k: int)
    requires
        ascending_points(index),
        0 <= k <= index.len(),
        forall|i: int| 0 <= i < k ==> (#[trigger] index[i]).slot < from,
        forall|i: int| k <= i < index.len() ==> (#[trigger] index[i]).slot >= from,
    ensures
        rank(index, from) == k,
{
    lemma_rank_splits(index, from);
    let r = rank(index, from) as int;
    if r < k {
        assert(index[r].slot >= from);
        assert(index[r].slot < from);
    } else if k < r {
        assert(index[k].slot >= from);
        assert(index[k].slot < from);
    }
}

/// A stored block: its point and its content.
#[derive(Debug, PartialEq, Eq)]
pub struct StoredBlock {
    pub point: ChainPoint,
    pub bytes: Vec<u8>,
}

impl View for StoredBlock {
    type V = Block;

    open spec fn view(&self) -> Block {
        Block { point: self.point, body: self.bytes@ }
    }
}

/// The key under which a digest is filed: its first eight bytes, read as one
/// number.
pub open spec fn digest_key(hash: BlockHash) -> u64 {
    ((((((((hash[0] as int) * 256 + hash[1]) * 256 + hash[2]) * 256 + hash[3]) * 256 + hash[4])
        * 256 + hash[5]) * 256 + hash[6]) * 256 + hash[7]) as u64
}

/// Computes the key under which a digest is filed.
fn key_of(hash: &BlockHash) -> (key: u64)
    ensures
        key == digest_key(*hash),
{
    let a = hash[0] as u64;
    let b = a * 256 + hash[1] as u64;
    let c = b * 256 + hash[2] as u64;
    let d = c * 256 + hash[3] as u64;
    let e = d * 256 + hash[4] as u64;
    let f = e * 256 + hash[5] as u64;
    let g = f * 256 + hash[6] as u64;
    g * 256 + hash[7] as u64
}

/// Whether `bucket` lists position `at`.
pub open spec fn listed(bucket: Seq<usize>, at: int) -> bool {
    exists|j: int| 0 <= j < bucket.len() && #[trigger] bucket[j] == at
}

/// The canonical chain: each slot's block digest, in ascending slot order,
/// and each digest's content.
///
/// A digest's content is written once and never changes. The store holds no
/// two blocks with one digest and no two blocks in one slot. Blocks are
/// found by digest through a hash table, and by slot through bisection.
pub struct ChainStore {
    entries: Vec<StoredBlock>,
    by_digest: HashMap<u64, Vec<usize>>,
}

impl View for ChainStore {
    type V = Seq<Block>;

    /// The stored blocks in ascending slot order.
    closed spec fn view(&self) -> Seq<Block> {
        self.entries@.map_values(|e: StoredBlock| e@)
    }
}

impl ChainStore {
    /// The table of digests files every stored block under the key of its
    /// digest, and files nothing else.
    pub closed spec fn filed(&self) -> bool {
        &&& forall|i: int|
            0 <= i < self.entries@.len() ==> {
                let key = digest_key((#[trigger] self.entries@[i]).point.hash);
                self.by_digest@.contains_key(key) && listed(self.by_digest@[key]@, i)
            }
        &&& forall|key: u64, j: int|
            self.by_digest@.contains_key(key) && 0 <= j < self.by_digest@[key]@.len() ==> {
                let at = #[trigger] self.by_digest@[key]@[j];
                at < self.entries@.len() && digest_key(self.entries@[at as int].point.hash) == key
            }
    }

    /// Slots ascend, no digest occurs twice, and every block is filed.
    pub open spec fn wf(&self) -> bool {
        ascending(self@) && distinct_hashes(self@) && self.filed()
    }

    /// The slot-ordered index: the points of the stored blocks.
    pub open spec fn index(&self) -> Seq<ChainPoint> {
        points_of(self@)
    }

    /// The point of the newest stored block.
    pub open spec fn spec_tip(&self) -> Option<ChainPoint> {
        if self@.len() == 0 {
            None
        } else {
            Some(self@.last().point)
        }
    }

    /// An empty store.
    pub fn new() -> (store: ChainStore)
        ensures
            store.wf(),
            store@ == Seq::<Block>::empty(),
    {
        let store = ChainStore { entries: Vec::new(), by_digest: HashMap::new() };
        assert(store@ =~= Seq::<Block>::empty());
        store
    }

    /// The number of stored blocks.
    pub fn len(&self) -> (n: usize)
        ensures
            n == self@.len(),
    {
        self.entries.len()
    }

    /// The point of the newest stored block.
    #[verifier::when_used_as_spec(spec_tip)]
    pub fn tip(&self) -> (tip: Option<ChainPoint>)
        ensures
            tip == self.spec_tip(),
    {
        let n = self.entries.len();
        if n == 0 {
            None
        } else {
            Some(self.entries[n - 1].point)
        }
    }

    /// The content of the block with digest `hash`; `None` where the store
    /// has no such block. A missing block is no error.
    pub fn get_block(&self, hash: &BlockHash) -> (found: Option<&Vec<u8>>)
        requires
            self.wf(),
        ensures
            found is Some <==> lookup(self@, *hash) is Some,
            found matches Some(bytes) ==> Some(bytes@) == lookup(self@, *hash),
    {
        broadcast use vstd::std_specs::hash::group_hash_axioms;

        let key = key_of(hash);
        match self.by_digest.get(&key) {
            None => {
                proof {
                    assert forall|w: int| !holds_at(self@, *hash, w) by {
                        if 0 <= w < self@.len() {
                            assert(self.entries@[w].point.hash == self@[w].point.hash);
                        }
                    }
                }
                None
            },
            Some(bucket) => {
                let mut j: usize = 0;
                while j < bucket.len()
                    invariant
                        self.wf(),
                        self.by_digest@.contains_key(key),
                        *bucket == self.by_digest@[key],
                        key == digest_key(*hash),
                        j <= bucket.len(),
                        forall|k: int|
                            0 <= k < j ==> !holds_at(self@, *hash, (#[trigger] bucket@[k]) as int),
                    decreases bucket.len() - j,
                {
                    let at = bucket[j];
                    assert(at == self.by_digest@[key]@[j as int]);
                    if hash_eq(&self.entries[at].point.hash, hash) {
                        proof {
                            assert(holds_at(self@, *hash, at as int));
                            let w = choose|w: int| holds_at(self@, *hash, w);
                            if w < at {
                                assert(self@[w].point.hash != self@[at as int].point.hash);
                            } else if w > at {
                                assert(self@[at as int].point.hash != self@[w].point.hash);
                            }
                        }
                        return Some(&self.entries[at].bytes);
                    }
                    j += 1;
                }
                proof {
                    assert forall|w: int| !holds_at(self@, *hash, w) by {
                        if 0 <= w < self@.len() && self@[w].point.hash == *hash {
                            assert(self.entries@[w].point.hash == *hash);
                            assert(listed(bucket@, w));
                            let k = choose|k: int| 0 <= k < bucket@.len() && bucket@[k] == w;
                            assert(!holds_at(self@, *hash, bucket@[k] as int));
                        }
                    }
                }
                None
            },
        }
    }

    /// Stores a block above the current tip.
    ///
    /// Refused with `InconsistentState`, the store left as it was, where the
    /// slot does not lie above the tip's or the digest is already stored:
    /// the index stays in slot order and stored content is never replaced.
    pub fn insert(&mut self, point: ChainPoint, bytes: Vec<u8>) -> (done: Result<(), ChainError>)
        requires
            old(self).wf(),
        ensures
            final(self).wf(),
            done is Ok <==> {
                &&& old(self).spec_tip() matches Some(t) ==> t.slot < point.slot
                &&& lookup(old(self)@, point.hash) is None
            },
            done is Ok ==> final(self)@ == old(self)@.push(Block { point, body: bytes@ }),
            done is Err ==> done == Err::<(), ChainError>(ChainError::InconsistentState)
                && final(self)@ == old(self)@,
    {
        if let Some(t) = self.tip() {
            if t.slot >= point.slot {
                return Err(ChainError::InconsistentState);
            }
        }
        if self.get_block(&point.hash).is_some() {
            return Err(ChainError::InconsistentState);
        }
        let ghost before = self@;
        self.file(&point.hash);
        self.entries.push(StoredBlock { point, bytes });
        proof {
            let block = Block { point, body: bytes@ };
            assert(self@ =~= before.push(block));
            assert(self.filed()) by {
                assert forall|i: int| 0 <= i < self.entries@.len() implies {
                    let key = digest_key((#[trigger] self.entries@[i]).point.hash);
                    self.by_digest@.contains_key(key) && listed(self.by_digest@[key]@, i)
                } by {
                    if i < old(self).entries@.len() {
                        assert(self.entries@[i] == old(self).entries@[i]);
                    }
                }
            }
            assert forall|i: int, j: int| 0 <= i < j < self@.len() implies (
            #[trigger] self@[i]).point.slot < (#[trigger] self@[j]).point.slot by {
                if j == before.len() {
                    if i < before.len() - 1 {
                        assert(before[i].point.slot < before[before.len() - 1].point.slot);
                    }
                }
            }
            assert forall|i: int, j: int| 0 <= i < j < self@.len() implies (
            #[trigger] self@[i]).point.hash != (#[trigger] self@[j]).point.hash by {
                if j == before.len() {
                    assert(!holds_at(before, point.hash, i));
                }
            }
        }
        Ok(())
    }

    /// Files the position that the next block will take under the key of
    /// `hash`.
    fn file(&mut self, hash: &BlockHash)
        requires
            old(self).filed(),
        ensures
            final(self).entries == old(self).entries,
            forall|i: int|
                0 <= i < old(self).entries@.len() ==> {
                    let key = digest_key((#[trigger] old(self).entries@[i]).point.hash);
                    final(self).by_digest@.contains_key(key) && listed(
                        final(self).by_digest@[key]@,
                        i,
                    )
                },
            final(self).by_digest@.contains_key(digest_key(*hash)),
            listed(final(self).by_digest@[digest_key(*hash)]@, old(self).entries@.len() as int),
            forall|key: u64, j: int|
                final(self).by_digest@.contains_key(key)
                    && 0 <= j < final(self).by_digest@[key]@.len() ==> {
                    let at = #[trigger] final(self).by_digest@[key]@[j];
                    if at == old(self).entries@.len() {
                        key == digest_key(*hash)
                    } else {
                        at < old(self).entries@.len() && digest_key(
                            old(self).entries@[at as int].point.hash,
                        ) == key
                    }
                },
    {
        broadcast use vstd::std_specs::hash::group_hash_axioms;

        let key = key_of(hash);
        let at = self.entries.len();
        let ghost before = self.by_digest@;
        let mut bucket = match self.by_digest.remove(&key) {
            Some(bucket) => bucket,
            None => Vec::new(),
        };
        let ghost was = bucket@;
        bucket.push(at);
        let ghost now = bucket@;
        self.by_digest.insert(key, bucket);
        proof {
            assert(now[was.len() as int] == at);
            assert(listed(now, at as int));
            assert forall|i: int| 0 <= i < old(self).entries@.len() implies {
                let k = digest_key((#[trigger] old(self).entries@[i]).point.hash);
                self.by_digest@.contains_key(k) && listed(self.by_digest@[k]@, i)
            } by {
                let k = digest_key(old(self).entries@[i].point.hash);
                if k == key {
                    assert(listed(was, i));
                    let j = choose|j: int| 0 <= j < was.len() && was[j] == i;
                    assert(now[j] == i);
                }
            }
            assert forall|k: u64, j: int|
                self.by_digest@.contains_key(k) && 0 <= j < self.by_digest@[k]@.len() implies {
                let p = #[trigger] self.by_digest@[k]@[j];
                if p == old(self).entries@.len() {
                    k == key
                } else {
                    p < old(self).entries@.len() && digest_key(
                        old(self).entries@[p as int].point.hash,
                    ) == k
                }
            } by {
                if k == key {
                    if j < was.len() {
                        assert(now[j] == was[j]);
                        assert(before.contains_key(key));
                        assert(before[key]@[j] == was[j]);
                    }
                } else {
                    assert(before.contains_key(k));
                    assert(self.by_digest@[k] == before[k]);
                    assert(before[k]@[j] < old(self).entries@.len());
                }
            }
        }
    }

    /// Up to `max_items` points of the index, in ascending slot order,
    /// starting with the first whose slot is `from_slot` or later. Reading
    /// can restart at any slot.
    pub fn read_page(&self, from_slot: u64, max_items: u64) -> (page: Vec<ChainPoint>)
        requires
            self.wf(),
        ensures
            page@ == page_of(self.index(), from_slot, max_items as nat),
    {
        proof {
            lemma_index_ascends(self@);
        }
        let mut start: usize = 0;
        let mut end: usize = self.entries.len();
        while start < end
            invariant
                ascending_points(self.index()),
                start <= end <= self.entries.len(),
                forall|j: int| 0 <= j < start ==> (#[trigger] self.index()[j]).slot < from_slot,
                forall|j: int|
                    end <= j < self.index().len() ==> (#[trigger] self.index()[j]).slot
                        >= from_slot,
            decreases end - start,
        {
            let middle = start + (end - start) / 2;
            if self.entries[middle].point.slot < from_slot {
                assert forall|j: int| 0 <= j < middle + 1 implies (
                #[trigger] self.index()[j]).slot < from_slot by {
                    if j < middle {
                        assert(self.index()[j].slot < self.index()[middle as int].slot);
                    }
                }
                start = middle + 1;
            } else {
                assert forall|j: int| middle <= j < self.index().len() implies (
                #[trigger] self.index()[j]).slot >= from_slot by {
                    if j > middle {
                        assert(self.index()[middle as int].slot < self.index()[j].slot);
                    }
                }
                end = middle;
            }
        }
        proof {
            lemma_rank_is(self.index(), from_slot, start as int);
        }
        let mut page: Vec<ChainPoint> = Vec::new();
        let mut i: usize = start;
        while i < self.entries.len() && (page.len() as u64) < max_items
            invariant
                start <= i <= self.entries.len(),
                page@.len() == i - start,
                page@.len() <= max_items,
                page@ == self.index().subrange(start as int, i as int),
            decreases self.entries.len() - i,
        {
            page.push(self.entries[i].point);
            assert(page@ =~= self.index().subrange(start as int, i + 1));
            i += 1;
        }
        page
    }
}

/// The points of an ascending chain ascend.
pub proof fn lemma_index_ascends(chain: Seq<Block>)
    requires
        ascending(chain),
    ensures
        ascending_points(points_of(chain)),
{
    let index = points_of(chain);
    assert forall|i: int, j: int| 0 <= i < j < index.len() implies (#[trigger] index[i]).slot < (
    #[trigger] index[j]).slot by {
        assert(chain[i].point.slot < chain[j].point.slot);
    }
}

/// A block that goes on top of a chain changes nothing of what the chain
/// holds under the digests it already has: content is written once.
pub proof fn lemma_push_keeps_content(chain: Seq<Block>, block: Block, hash: BlockHash)
    requires
        distinct_hashes(chain.push(block)),
        lookup(chain, hash) is Some,
    ensures
        lookup(chain.push(block), hash) == lookup(chain, hash),
{
    let grown = chain.push(block);
    let first = choose|i: int| holds_at(chain, hash, i);
    assert(grown[first] == chain[first]);
    assert(holds_at(grown, hash, first));
    let found = choose|i: int| holds_at(grown, hash, i);
    if found < first {
        assert(grown[found].point.hash != grown[first].point.hash);
    } else if first < found {
        assert(grown[first].point.hash != grown[found].point.hash);
    }
}

} // verus!
