//! The rollback coordinator: the single writer that turns chain updates into
//! log records and moves blocks into the chain store once they are stable.

use std::collections::VecDeque;
use vstd::prelude::*;
use crate::chain::{ascending, distinct_hashes, holds_at, lookup, Block, ChainStore, StoredBlock};
use crate::error::ChainError;
use crate::event::{clone_bytes, Event, LogEvent};
use crate::point::{hash_eq, BlockHash, ChainPoint};
use crate::replay::{
    applied_at, lemma_orderly_push, lemma_replay_push, lemma_replayed_block_was_applied, orderly,
    replay, replay_tip, tip_of, unwind,
};
use crate::wal::EventLog;

verus! {

/// The rollback-safety depth used where none is configured.
pub const DEFAULT_K_PARAM: u64 = 1000;

/// The configured rollback-safety depth, or the default where there is none.
pub fn k_param_or_default(configured: Option<u64>) -> (k_param: u64)
    ensures
        k_param == match configured {
            Some(k) => k,
            None => DEFAULT_K_PARAM,
        },
{
    match configured {
        Some(k) => k,
        None => DEFAULT_K_PARAM,
    }
}

/// The record at position `at` of `events` applies a block that lies
/// `k_param` slots or more above `block`.
pub open spec fn buried_at(events: Seq<Event>, at: int, block: Block, k_param: u64) -> bool {
    &&& 0 <= at < events.len()
    &&& events[at] matches Event::Apply(above, _)
    &&& block.point.slot + k_param <= above.slot
}

/// `block` has been `k_param` slots or more below the tip: the log has the
/// `Apply` of a block that far above it.
pub open spec fn is_buried(events: Seq<Event>, block: Block, k_param: u64) -> bool {
    exists|at: int| buried_at(events, at, block, k_param)
}

/// Every block of `stable` has been `k_param` slots or more below the tip.
pub open spec fn all_buried(events: Seq<Event>, stable: Seq<Block>, k_param: u64) -> bool {
    forall|i: int| 0 <= i < stable.len() ==> is_buried(events, #[trigger] stable[i], k_param)
}

/// What was buried stays buried when the log grows.
pub proof fn lemma_buried_push(events: Seq<Event>, event: Event, stable: Seq<Block>, k_param: u64)
    requires
        all_buried(events, stable, k_param),
    ensures
        all_buried(events.push(event), stable, k_param),
{
    let grown = events.push(event);
    assert forall|i: int| 0 <= i < stable.len() implies is_buried(
        grown,
        #[trigger] stable[i],
        k_param,
    ) by {
        assert(is_buried(events, stable[i], k_param));
        let at = choose|at: int| buried_at(events, at, stable[i], k_param);
        assert(grown[at] == events[at]);
        assert(buried_at(grown, at, stable[i], k_param));
    }
}

/// A chain update, as it comes from upstream.
#[derive(Debug, PartialEq, Eq)]
pub enum ChainUpdate {
    /// A new block at the point, with its content.
    RollForward(ChainPoint, Vec<u8>),
    /// The chain goes back to the point.
    RollBack(ChainPoint),
}

/// Writes the event log and the chain store.
///
/// The chain is the stable blocks, held by the store, followed by the
/// volatile ones, which only the log knows and which can still be rolled
/// back. A block is stable once the tip has moved `k_param` slots or more
/// past it.
pub struct RollbackCoordinator {
    k_param: u64,
    log: EventLog,
    store: ChainStore,
    volatile: VecDeque<StoredBlock>,
}

impl RollbackCoordinator {
    /// The rollback-safety depth, fixed when the coordinator was made.
    pub closed spec fn spec_k_param(&self) -> u64 {
        self.k_param
    }

    /// The records of the log, oldest first. The log is never pruned, so a
    /// record's position is its sequence number.
    pub closed spec fn events(&self) -> Seq<Event> {
        self.log@
    }

    /// The stable blocks: the content of the chain store.
    pub closed spec fn stable(&self) -> Seq<Block> {
        self.store@
    }

    /// The volatile blocks, oldest first.
    pub closed spec fn volatile(&self) -> Seq<Block> {
        self.volatile@.map_values(|b: StoredBlock| b@)
    }

    /// The whole chain: stable blocks, then volatile ones.
    pub open spec fn chain(&self) -> Seq<Block> {
        self.stable() + self.volatile()
    }

    /// The current tip: the point of the newest block of the chain.
    pub open spec fn spec_tip(&self) -> Option<ChainPoint> {
        tip_of(self.chain())
    }

    /// The log and the store are valid on their own, and the log holds all
    /// of history.
    pub closed spec fn parts_wf(&self) -> bool {
        &&& self.log.wf()
        &&& self.log.spec_first_seq() == 0
        &&& self.store.wf()
    }

    /// The invariant of the coordinator.
    ///
    /// The log is orderly, and replaying it gives exactly the chain. Slots
    /// ascend along the chain and no digest occurs twice. The store holds
    /// only blocks that have been `k_param` slots or more below the tip, and
    /// no volatile block lies that far below the tip now.
    pub open spec fn wf(&self) -> bool {
        &&& self.parts_wf()
        &&& orderly(self.events())
        &&& replay(self.events()) == self.chain()
        &&& ascending(self.chain())
        &&& distinct_hashes(self.chain())
        &&& all_buried(self.events(), self.stable(), self.spec_k_param())
        &&& forall|i: int|
            0 <= i < self.volatile().len() ==> (#[trigger] self.volatile()[i]).point.slot
                + self.spec_k_param() > self.chain().last().point.slot
    }

    /// Whether a block at `point` can go on top of the chain: its slot lies
    /// above the tip's and its digest is new to the chain.
    pub open spec fn accepts(&self, point: ChainPoint) -> bool {
        &&& self.spec_tip() matches Some(t) ==> t.slot < point.slot
        &&& lookup(self.chain(), point.hash) is None
    }

    /// Whether the volatile block at position `i` stands at `target`.
    pub open spec fn volatile_at(&self, i: int, target: ChainPoint) -> bool {
        0 <= i < self.volatile().len() && self.volatile()[i].point == target
    }

    /// Whether `target` is the point of a volatile block.
    pub open spec fn is_volatile(&self, target: ChainPoint) -> bool {
        exists|i: int| self.volatile_at(i, target)
    }

    /// The position of `target` among the volatile blocks.
    pub open spec fn volatile_index(&self, target: ChainPoint) -> int
        recommends
            self.is_volatile(target),
    {
        choose|i: int| self.volatile_at(i, target)
    }

    /// What rolling a block forward does, from `self` to `after`.
    ///
    /// It succeeds exactly where the chain accepts the block and the log
    /// has a sequence number left. Then the log has one more record, the
    /// `Apply` of the block, whose sequence number is handed back; the chain
    /// has one more block; and the blocks that moved into the store are
    /// those that lie `k_param` slots or more below the new tip. A failure
    /// changes nothing.
    pub open spec fn forward_outcome(
        self,
        after: Self,
        point: ChainPoint,
        body: Seq<u8>,
        done: Result<u64, ChainError>,
    ) -> bool {
        &&& done is Ok <==> self.accepts(point) && self.events().len() < u64::MAX
        &&& match done {
            Ok(seq) => {
                &&& seq == self.events().len()
                &&& after.events() == self.events().push(Event::Apply(point, body))
                &&& after.chain() == self.chain().push(Block { point, body })
                &&& self.stable().len() <= after.stable().len()
                &&& forall|i: int|
                    self.stable().len() <= i < after.stable().len() ==> (
                    #[trigger] after.stable()[i]).point.slot + self.spec_k_param() <= point.slot
            },
            Err(e) => {
                &&& e == if self.accepts(point) {
                    ChainError::StorageFailure
                } else {
                    ChainError::InconsistentState
                }
                &&& after.events() == self.events()
                &&& after.stable() == self.stable()
                &&& after.volatile() == self.volatile()
            },
        }
    }

    /// What rolling back to `target` does, from `self` to `after`.
    ///
    /// It succeeds exactly where `target` is volatile and the log has
    /// sequence numbers left for all records of the rollback. Then the
    /// volatile blocks above `target` are gone; the log has an `Undo` for
    /// each of them, newest block first, and after these a `Mark` of
    /// `target`, whose sequence number is handed back; and the tip is
    /// `target`. The store stays as it is in any case. A failure changes
    /// nothing.
    pub open spec fn back_outcome(
        self,
        after: Self,
        target: ChainPoint,
        done: Result<u64, ChainError>,
    ) -> bool {
        &&& after.stable() == self.stable()
        &&& done is Ok <==> self.is_volatile(target) && self.events().len()
            + self.volatile().len() - self.volatile_index(target) <= u64::MAX
        &&& match done {
            Ok(seq) => {
                let keep = self.volatile_index(target) + 1;
                &&& after.volatile() == self.volatile().take(keep)
                &&& after.events() == self.events() + unwind(self.volatile(), keep).push(
                    Event::Mark(target),
                )
                &&& seq == after.events().len() - 1
                &&& after.spec_tip() == Some(target)
            },
            Err(e) => {
                &&& e == if self.is_volatile(target) {
                    ChainError::StorageFailure
                } else {
                    ChainError::NotFound
                }
                &&& after.events() == self.events()
                &&& after.volatile() == self.volatile()
            },
        }
    }

    /// A coordinator over a fresh log and an empty store.
    pub fn new(k_param: u64) -> (coordinator: RollbackCoordinator)
        ensures
            coordinator.wf(),
            coordinator.spec_k_param() == k_param,
            coordinator.events() == seq![Event::Origin],
            coordinator.stable() == Seq::<Block>::empty(),
            coordinator.volatile() == Seq::<Block>::empty(),
    {
        let coordinator = RollbackCoordinator {
            k_param,
            log: EventLog::new(),
            store: ChainStore::new(),
            volatile: VecDeque::new(),
        };
        proof {
            assert(coordinator.volatile() =~= Seq::<Block>::empty());
            assert(coordinator.chain() =~= Seq::<Block>::empty());
            lemma_replay_push(Seq::<Event>::empty(), Event::Origin);
            lemma_orderly_push(Seq::<Event>::empty(), Event::Origin);
            assert(Seq::<Event>::empty().push(Event::Origin) =~= seq![Event::Origin]);
        }
        coordinator
    }

    /// The rollback-safety depth, fixed when the coordinator was made.
    #[verifier::when_used_as_spec(spec_k_param)]
    pub fn k_param(&self) -> (k: u64)
        ensures
            k == self.spec_k_param(),
    {
        self.k_param
    }

    /// The event log, for readers.
    pub fn log(&self) -> (log: &EventLog)
        requires
            self.wf(),
        ensures
            log.wf(),
            log.spec_first_seq() == 0,
            log@ == self.events(),
    {
        &self.log
    }

    /// The chain store, for readers.
    pub fn store(&self) -> (store: &ChainStore)
        requires
            self.wf(),
        ensures
            store.wf(),
            store@ == self.stable(),
    {
        &self.store
    }

    /// The current tip.
    #[verifier::when_used_as_spec(spec_tip)]
    pub fn tip(&self) -> (tip: Option<ChainPoint>)
        ensures
            tip == self.spec_tip(),
    {
        let n = self.volatile.len();
        if n > 0 {
            assert(self.chain().last() == self.volatile()[n - 1]);
            Some(self.volatile[n - 1].point)
        } else {
            assert(self.chain() =~= self.stable());
            self.store.tip()
        }
    }

    /// The number of volatile blocks.
    pub fn volatile_len(&self) -> (n: usize)
        ensures
            n == self.volatile().len(),
    {
        self.volatile.len()
    }

    fn knows_hash(&self, hash: &BlockHash) -> (known: bool)
        requires
            self.wf(),
        ensures
            known == (lookup(self.chain(), *hash) is Some),
    {
        let ghost stable_len = self.stable().len() as int;
        if self.store.get_block(hash).is_some() {
            proof {
                let w = choose|w: int| holds_at(self.stable(), *hash, w);
                assert(holds_at(self.chain(), *hash, w));
            }
            return true;
        }
        let mut i: usize = 0;
        while i < self.volatile.len()
            invariant
                i <= self.volatile.len(),
                stable_len == self.stable().len(),
                forall|j: int| 0 <= j < stable_len ==> !holds_at(self.stable(), *hash, j),
                forall|j: int| 0 <= j < i ==> !holds_at(self.volatile(), *hash, j),
            decreases self.volatile.len() - i,
        {
            if hash_eq(&self.volatile[i].point.hash, hash) {
                assert(holds_at(self.chain(), *hash, stable_len + i));
                return true;
            }
            i += 1;
        }
        proof {
            assert forall|w: int| !holds_at(self.chain(), *hash, w) by {
                if 0 <= w < stable_len {
                    assert(!holds_at(self.stable(), *hash, w));
                } else if stable_len <= w < self.chain().len() {
                    assert(!holds_at(self.volatile(), *hash, w - stable_len));
                }
            }
        }
        false
    }

    /// Puts a block on top of the chain and returns the sequence number of
    /// its `Apply` record.
    ///
    /// The record is appended to the log; then every volatile block that now
    /// lies `k_param` slots or more below the new tip moves into the chain
    /// store, oldest first.
    ///
    /// A block that the chain does not accept is refused with
    /// `InconsistentState`. Where the log has no sequence number left the
    /// call fails with `StorageFailure`. A failed call changes nothing.
    pub fn roll_forward(&mut self, point: ChainPoint, bytes: Vec<u8>) -> (done: Result<
        u64,
        ChainError,
    >)
        requires
            old(self).wf(),
        ensures
            final(self).wf(),
            final(self).spec_k_param() == old(self).spec_k_param(),
            old(self).forward_outcome(*final(self), point, bytes@, done),
    {
        if let Some(t) = self.tip() {
            if t.slot >= point.slot {
                return Err(ChainError::InconsistentState);
            }
        }
        if self.knows_hash(&point.hash) {
            return Err(ChainError::InconsistentState);
        }
        let seq = self.log.next_seq();
        if seq == u64::MAX {
            return Err(ChainError::StorageFailure);
        }
        let ghost block = Block { point, body: bytes@ };
        let ghost grown = old(self).chain().push(block);
        let ghost stable_before = old(self).stable().len();
        let _ = self.log.append(LogEvent::Apply(point, clone_bytes(&bytes)));
        self.volatile.push_back(StoredBlock { point, bytes });
        proof {
            lemma_replay_push(old(self).events(), Event::Apply(point, bytes@));
            lemma_orderly_push(old(self).events(), Event::Apply(point, bytes@));
            lemma_buried_push(
                old(self).events(),
                Event::Apply(point, bytes@),
                old(self).stable(),
                old(self).spec_k_param(),
            );
            assert(self.volatile() =~= old(self).volatile().push(block));
            assert(self.chain() =~= grown);
            assert forall|i: int, j: int| 0 <= i < j < grown.len() implies (
            #[trigger] grown[i]).point.slot < (#[trigger] grown[j]).point.slot by {
                if j == grown.len() - 1 {
                    let last = old(self).chain().len() - 1;
                    if i < last {
                        assert(old(self).chain()[i].point.slot < old(self).chain()[last].point.slot);
                    }
                }
            }
            assert forall|i: int, j: int| 0 <= i < j < grown.len() implies (
            #[trigger] grown[i]).point.hash != (#[trigger] grown[j]).point.hash by {
                if j == grown.len() - 1 {
                    assert(!holds_at(old(self).chain(), point.hash, i));
                }
            }
        }
        proof {
            let at = self.stable().len() as int;
            assert(grown[at] == self.volatile()[0]);
            if at < grown.len() - 1 {
                assert(grown[at].point.slot < grown[grown.len() - 1].point.slot);
            }
        }
        while self.volatile.len() > 0 && point.slot - self.volatile[0].point.slot >= self.k_param
            invariant
                self.parts_wf(),
                self.spec_k_param() == old(self).spec_k_param(),
                self.events() == old(self).events().push(Event::Apply(point, bytes@)),
                self.chain() == grown,
                grown.len() > 0,
                grown.last().point == point,
                ascending(grown),
                distinct_hashes(grown),
                stable_before <= self.stable().len(),
                forall|i: int|
                    stable_before <= i < self.stable().len() ==> (
                    #[trigger] self.stable()[i]).point.slot + self.spec_k_param() <= point.slot,
                self.volatile.len() > 0 ==> self.volatile@[0].point.slot <= point.slot,
                orderly(self.events()),
                all_buried(self.events(), self.stable(), self.spec_k_param()),
            decreases self.volatile.len(),
        {
            let ghost stable_now = self.stable();
            let ghost volatile_now = self.volatile();
            let ghost at = stable_now.len() as int;
            assert(grown[at] == volatile_now[0]);
            let moved = self.volatile.pop_front().unwrap();
            proof {
                assert(moved@ == grown[at]);
                if at > 0 {
                    assert(grown[at - 1] == stable_now[at - 1]);
                    assert(grown[at - 1].point.slot < grown[at].point.slot);
                }
                assert forall|w: int| !holds_at(stable_now, moved.point.hash, w) by {
                    if 0 <= w < at {
                        assert(grown[w] == stable_now[w]);
                        assert(grown[w].point.hash != grown[at].point.hash);
                    }
                }
            }
            let _ = self.store.insert(moved.point, moved.bytes);
            proof {
                assert(self.stable() == stable_now.push(grown[at]));
                let applied = old(self).events().len() as int;
                assert(buried_at(self.events(), applied, grown[at], self.spec_k_param()));
                assert forall|i: int| 0 <= i < self.stable().len() implies is_buried(
                    self.events(),
                    #[trigger] self.stable()[i],
                    self.spec_k_param(),
                ) by {
                    if i < at {
                        assert(self.stable()[i] == stable_now[i]);
                        assert(is_buried(self.events(), stable_now[i], self.spec_k_param()));
                    }
                }
                assert(self.volatile() =~= volatile_now.subrange(1, volatile_now.len() as int));
                assert(self.chain() =~= grown);
                if self.volatile.len() > 0 {
                    assert(grown[at + 1] == self.volatile()[0]);
                    if at + 1 < grown.len() - 1 {
                        assert(grown[at + 1].point.slot < grown[grown.len() - 1].point.slot);
                    }
                }
            }
        }
        proof {
            assert forall|i: int| 0 <= i < self.volatile().len() implies (
            #[trigger] self.volatile()[i]).point.slot + self.spec_k_param()
                > self.chain().last().point.slot by {
                let at = self.stable().len() as int;
                assert(grown[at] == self.volatile()[0]);
                assert(grown[at + i] == self.volatile()[i]);
                if i > 0 {
                    assert(grown[at].point.slot < grown[at + i].point.slot);
                }
            }
        }
        Ok(seq)
    }

    /// Takes one chain update: a new block is rolled forward, a rollback is
    /// rolled back.
    pub fn handle(&mut self, update: ChainUpdate) -> (done: Result<u64, ChainError>)
        requires
            old(self).wf(),
        ensures
            final(self).wf(),
            final(self).spec_k_param() == old(self).spec_k_param(),
            match update {
                ChainUpdate::RollForward(point, bytes) => old(self).forward_outcome(
                    *final(self),
                    point,
                    bytes@,
                    done,
                ),
                ChainUpdate::RollBack(target) => old(self).back_outcome(
                    *final(self),
                    target,
                    done,
                ),
            },
    {
        match update {
            ChainUpdate::RollForward(point, bytes) => self.roll_forward(point, bytes),
            ChainUpdate::RollBack(target) => self.roll_back(target),
        }
    }

    /// Rolls the chain back to `target` and returns the sequence number of
    /// the `Mark` record that ends the rollback.
    ///
    /// For every volatile block above `target` an `Undo` record is appended,
    /// newest block first, and then a `Mark` of `target`. A rollback to the
    /// current tip appends the `Mark` alone. The chain store is never
    /// touched.
    ///
    /// A `target` that is not the point of a volatile block cannot be rolled
    /// back to: `NotFound`. Where the log has too few sequence numbers left
    /// for the whole rollback the call fails with `StorageFailure`. A failed
    /// call changes nothing.
    pub fn roll_back(&mut self, target: ChainPoint) -> (done: Result<u64, ChainError>)
        requires
            old(self).wf(),
        ensures
            final(self).wf(),
            final(self).spec_k_param() == old(self).spec_k_param(),
            old(self).back_outcome(*final(self), target, done),
    {
        let n = self.volatile.len();
        let mut i: usize = 0;
        while i < n && !self.volatile[i].point.same(&target)
            invariant
                n == self.volatile.len(),
                i <= n,
                forall|j: int| 0 <= j < i ==> !self.volatile_at(j, target),
            decreases n - i,
        {
            i += 1;
        }
        if i == n {
            return Err(ChainError::NotFound);
        }
        proof {
            assert(self.volatile_at(i as int, target));
            let w = self.volatile_index(target);
            let at = self.stable().len() as int;
            if w != i {
                assert(self.chain()[at + w] == self.volatile()[w]);
                assert(self.chain()[at + i] == self.volatile()[i as int]);
                if w < i {
                    assert(self.chain()[at + w].point.slot < self.chain()[at + i].point.slot);
                } else {
                    assert(self.chain()[at + i].point.slot < self.chain()[at + w].point.slot);
                }
            }
        }
        let records: usize = n - i;
        let next = self.log.next_seq();
        if u64::MAX - next < records as u64 {
            return Err(ChainError::StorageFailure);
        }
        let ghost held = old(self).volatile();
        let ghost keep = i as int + 1;
        assert(unwind(held, n as int) =~= Seq::<Event>::empty());
        assert(self.events() + unwind(held, n as int) =~= self.events());
        assert(held.take(n as int) =~= held);
        while self.volatile.len() > i + 1
            invariant
                self.parts_wf(),
                self.spec_k_param() == old(self).spec_k_param(),
                self.stable() == old(self).stable(),
                n == held.len(),
                i < n,
                keep == i + 1,
                keep <= self.volatile.len() <= n,
                self.volatile() == held.take(self.volatile.len() as int),
                self.events() == old(self).events() + unwind(held, self.volatile.len() as int),
                replay(self.events()) == self.chain(),
                orderly(self.events()),
                all_buried(self.events(), self.stable(), self.spec_k_param()),
                old(self).events().len() + n - i <= u64::MAX,
            decreases self.volatile.len(),
        {
            let ghost len_now = self.volatile.len() as int;
            let ghost events_now = self.events();
            let ghost chain_now = self.chain();
            assert(self.volatile()[len_now - 1] == held[len_now - 1]);
            let undone = self.volatile.pop_back().unwrap();
            let ghost undo = Event::Undo(undone.point, undone.bytes@);
            proof {
                assert(undone@ == held[len_now - 1]);
                assert(chain_now.last() == held[len_now - 1]);
                lemma_replay_push(events_now, undo);
                lemma_orderly_push(events_now, undo);
                lemma_buried_push(events_now, undo, self.stable(), self.spec_k_param());
                assert(unwind(held, len_now).len() == n - len_now);
            }
            let _ = self.log.append(LogEvent::Undo(undone.point, undone.bytes));
            proof {
                assert(self.volatile() =~= held.take(len_now - 1));
                assert(self.chain() =~= chain_now.drop_last());
                assert(unwind(held, len_now).push(undo) =~= unwind(held, len_now - 1));
                assert(self.events() =~= old(self).events() + unwind(held, len_now - 1));
            }
        }
        proof {
            assert(self.volatile()[i as int] == held[i as int]);
            assert(self.chain().last() == held[i as int]);
            lemma_replay_push(self.events(), Event::Mark(target));
            lemma_orderly_push(self.events(), Event::Mark(target));
            lemma_buried_push(
                self.events(),
                Event::Mark(target),
                self.stable(),
                self.spec_k_param(),
            );
            assert(unwind(held, keep).len() == n - keep);
        }
        let ghost events_now = self.events();
        let _ = self.log.append(LogEvent::Mark(target));
        proof {
            assert(self.events() =~= old(self).events() + unwind(held, keep).push(
                Event::Mark(target),
            ));
            let at = self.stable().len() as int;
            let before = old(self).chain();
            assert(self.chain() =~= before.take(at + keep));
            assert forall|a: int, b: int| 0 <= a < b < self.chain().len() implies (
            #[trigger] self.chain()[a]).point.slot < (#[trigger] self.chain()[b]).point.slot by {
                assert(before[a].point.slot < before[b].point.slot);
            }
            assert forall|a: int, b: int| 0 <= a < b < self.chain().len() implies (
            #[trigger] self.chain()[a]).point.hash != (#[trigger] self.chain()[b]).point.hash by {
                assert(before[a].point.hash != before[b].point.hash);
            }
            assert(self.chain().last() == held[i as int]);
            assert forall|j: int| 0 <= j < self.volatile().len() implies (
            #[trigger] self.volatile()[j]).point.slot + self.spec_k_param()
                > self.chain().last().point.slot by {
                assert(self.volatile()[j] == held[j]);
                assert(held[j].point.slot + old(self).spec_k_param() > before.last().point.slot);
                assert(before[at + i] == held[i as int]);
                if at + i < before.len() - 1 {
                    assert(before[at + i].point.slot < before[before.len() - 1].point.slot);
                }
            }
        }
        Ok(next + (records as u64) - 1)
    }
}

/// Replaying the log from its first record arrives at the very tip that the
/// coordinator tracks, whatever blocks were applied and rolled back.
pub proof fn lemma_replay_reconstructs_tip(coordinator: &RollbackCoordinator)
    requires
        coordinator.wf(),
    ensures
        replay_tip(coordinator.events()) == coordinator.spec_tip(),
{
}

/// What the chain store holds for a stable block is, byte for byte, what
/// the `Apply` record of that block wrote.
pub proof fn lemma_stable_content_round_trips(coordinator: &RollbackCoordinator, i: int)
    requires
        coordinator.wf(),
        0 <= i < coordinator.stable().len(),
    ensures
        lookup(coordinator.stable(), coordinator.stable()[i].point.hash) == Some(
            coordinator.stable()[i].body,
        ),
        exists|at: int| applied_at(coordinator.events(), at, coordinator.stable()[i]),
{
    let stable = coordinator.stable();
    let chain = coordinator.chain();
    let hash = stable[i].point.hash;
    assert(holds_at(stable, hash, i));
    let found = choose|w: int| holds_at(stable, hash, w);
    assert(chain[i] == stable[i] && chain[found] == stable[found]);
    if found < i {
        assert(chain[found].point.hash != chain[i].point.hash);
    } else if i < found {
        assert(chain[i].point.hash != chain[found].point.hash);
    }
    lemma_replayed_block_was_applied(coordinator.events(), i);
}

/// A point that has moved into the chain store is not volatile any more, so
/// a rollback to it is refused with `NotFound` and changes nothing.
pub proof fn lemma_stable_point_is_not_volatile(coordinator: &RollbackCoordinator, i: int)
    requires
        coordinator.wf(),
        0 <= i < coordinator.stable().len(),
    ensures
        !coordinator.is_volatile(coordinator.stable()[i].point),
{
    let target = coordinator.stable()[i].point;
    let chain = coordinator.chain();
    let at = coordinator.stable().len() as int;
    assert forall|j: int| !coordinator.volatile_at(j, target) by {
        if 0 <= j < coordinator.volatile().len() {
            assert(chain[i] == coordinator.stable()[i]);
            assert(chain[at + j] == coordinator.volatile()[j]);
            assert(chain[i].point.slot < chain[at + j].point.slot);
        }
    }
}

} // verus!
