//! The event log: an append-only record of chain mutations, addressed by
//! sequence number.

use vstd::prelude::*;
use crate::error::ChainError;
use crate::event::{Event, LogEvent};
use crate::point::ChainPoint;

verus! {

/// A sequence number together with the record stored under it.
#[derive(Debug, PartialEq, Eq)]
pub struct LogEntry {
    pub seq: u64,
    pub event: LogEvent,
}

/// Whether `event` establishes one of `points`.
pub open spec fn establishes_any(event: Event, points: Seq<ChainPoint>) -> bool {
    exists|i: int| 0 <= i < points.len() && event.establishes(#[trigger] points[i])
}

/// An append-only log of chain events.
///
/// Every record gets the sequence number that follows its predecessor's; a
/// number is never given twice. The log starts with `Origin` under number 0.
/// Records are never changed. Nothing is dropped unless the log is pruned;
/// pruning drops a prefix of the log and leaves the numbers of the records
/// that stay as they were.
pub struct EventLog {
    first: u64,
    entries: Vec<LogEvent>,
}

impl View for EventLog {
    type V = Seq<Event>;

    /// The retained records, oldest first.
    closed spec fn view(&self) -> Seq<Event> {
        self.entries@.map_values(|e: LogEvent| e@)
    }
}

impl EventLog {
    /// The sequence number of the oldest retained record.
    pub closed spec fn spec_first_seq(&self) -> u64 {
        self.first
    }

    /// The sequence number the next appended record will get.
    pub open spec fn spec_next_seq(&self) -> int {
        self.spec_first_seq() + self@.len()
    }

    /// The numbers never run past what a `u64` holds.
    pub open spec fn wf(&self) -> bool {
        self.spec_next_seq() <= u64::MAX
    }

    /// Whether a record is retained under `seq`.
    pub open spec fn retains(&self, seq: int) -> bool {
        self.spec_first_seq() <= seq < self.spec_next_seq()
    }

    /// The record retained under `seq`.
    pub open spec fn at(&self, seq: int) -> Event
        recommends
            self.retains(seq),
    {
        self@[seq - self.spec_first_seq()]
    }

    /// The retained records numbered `seq` and up, oldest first.
    pub open spec fn suffix_from(&self, seq: int) -> Seq<Event>
        recommends
            self.spec_first_seq() <= seq,
    {
        if seq >= self.spec_next_seq() {
            Seq::empty()
        } else {
            self@.skip(seq - self.spec_first_seq())
        }
    }

    /// Whether `seq` is the highest sequence number whose retained record
    /// establishes one of `points`.
    pub open spec fn is_highest_establishing(&self, seq: int, points: Seq<ChainPoint>) -> bool {
        &&& self.retains(seq)
        &&& establishes_any(self.at(seq), points)
        &&& forall|later: int|
            seq < later < self.spec_next_seq() ==> !establishes_any(
                #[trigger] self.at(later),
                points,
            )
    }

    /// The highest sequence number whose retained record establishes one of
    /// `points`; `None` where no retained record establishes any of them.
    pub open spec fn spec_find_sequence(&self, points: Seq<ChainPoint>) -> Option<u64> {
        if exists|seq: int| self.is_highest_establishing(seq, points) {
            Some((choose|seq: int| self.is_highest_establishing(seq, points)) as u64)
        } else {
            None
        }
    }

    /// A fresh log: `Origin` under number 0 and nothing else.
    pub fn new() -> (log: EventLog)
        ensures
            log.wf(),
            log.spec_first_seq() == 0,
            log@ == seq![Event::Origin],
    {
        let mut entries: Vec<LogEvent> = Vec::new();
        entries.push(LogEvent::Origin);
        let log = EventLog { first: 0, entries };
        assert(log@ =~= seq![Event::Origin]);
        log
    }

    /// A log that holds `entries`, the first of them under `first_seq`: a
    /// log as it was left, with what was pruned from it gone. `None` where
    /// the sequence numbers would run past what a `u64` holds.
    pub fn restore(first_seq: u64, entries: Vec<LogEvent>) -> (log: Option<EventLog>)
        ensures
            log is Some <==> first_seq + entries@.len() <= u64::MAX,
            log matches Some(l) ==> {
                &&& l.wf()
                &&& l.spec_first_seq() == first_seq
                &&& l@ == entries@.map_values(|e: LogEvent| e@)
            },
    {
        if entries.len() as u64 > u64::MAX - first_seq {
            return None;
        }
        Some(EventLog { first: first_seq, entries })
    }

    /// The sequence number of the oldest retained record.
    #[verifier::when_used_as_spec(spec_first_seq)]
    pub fn first_seq(&self) -> (seq: u64)
        ensures
            seq == self.spec_first_seq(),
    {
        self.first
    }

    /// The sequence number the next appended record will get.
    pub fn next_seq(&self) -> (seq: u64)
        requires
            self.wf(),
        ensures
            seq == self.spec_next_seq(),
    {
        self.first + (self.entries.len() as u64)
    }

    /// The number of retained records.
    pub fn len(&self) -> (n: usize)
        ensures
            n == self@.len(),
    {
        self.entries.len()
    }

    /// Appends a record and returns the sequence number it was given.
    ///
    /// Fails with `StorageFailure`, leaving the log as it was, only when the
    /// sequence numbers are used up.
    pub fn append(&mut self, event: LogEvent) -> (seq: Result<u64, ChainError>)
        requires
            old(self).wf(),
        ensures
            final(self).wf(),
            final(self).spec_first_seq() == old(self).spec_first_seq(),
            old(self).spec_next_seq() < u64::MAX ==> seq == Ok::<u64, ChainError>(
                old(self).spec_next_seq() as u64,
            ) && final(self)@ == old(self)@.push(event@),
            old(self).spec_next_seq() == u64::MAX ==> seq == Err::<u64, ChainError>(
                ChainError::StorageFailure,
            ) && final(self)@ == old(self)@,
    {
        let next = self.next_seq();
        if next == u64::MAX {
            return Err(ChainError::StorageFailure);
        }
        self.entries.push(event);
        assert(self@ =~= old(self)@.push(event@));
        Ok(next)
    }

    /// The record stored under `seq`.
    ///
    /// A number below the oldest retained one was pruned: `NotFound`. A
    /// number that has not been given out yet is no error: `None`.
    pub fn get(&self, seq: u64) -> (found: Result<Option<&LogEvent>, ChainError>)
        requires
            self.wf(),
        ensures
            seq < self.spec_first_seq() <==> found == Err::<Option<&LogEvent>, ChainError>(
                ChainError::NotFound,
            ),
            seq >= self.spec_next_seq() <==> found == Ok::<Option<&LogEvent>, ChainError>(None),
            self.retains(seq as int) <==> found matches Ok(Some(_)),
            found matches Ok(Some(e)) ==> e@ == self.at(seq as int),
    {
        if seq < self.first {
            return Err(ChainError::NotFound);
        }
        let offset = seq - self.first;
        if offset >= self.entries.len() as u64 {
            return Ok(None);
        }
        Ok(Some(&self.entries[offset as usize]))
    }

    /// Up to `max_items` records, starting with the one numbered `seq`, in
    /// ascending order of sequence number and without gaps.
    ///
    /// Reading can restart at any number that was ever given out. A number
    /// below the oldest retained one was pruned: `NotFound`. Numbers not
    /// given out yet yield nothing.
    pub fn read_from(&self, seq: u64, max_items: usize) -> (page: Result<Vec<LogEntry>, ChainError>)
        requires
            self.wf(),
        ensures
            seq < self.spec_first_seq() <==> page == Err::<Vec<LogEntry>, ChainError>(
                ChainError::NotFound,
            ),
            seq >= self.spec_first_seq() <==> page is Ok,
            page matches Ok(entries) ==> {
                &&& entries@.len() == if self.suffix_from(seq as int).len() <= max_items {
                    self.suffix_from(seq as int).len()
                } else {
                    max_items as nat
                }
                &&& forall|i: int|
                    0 <= i < entries@.len() ==> (#[trigger] entries@[i]).seq == seq + i
                        && entries@[i].event@ == self.at(seq + i)
            },
    {
        if seq < self.first {
            return Err(ChainError::NotFound);
        }
        let mut out: Vec<LogEntry> = Vec::new();
        let offset = seq - self.first;
        if offset >= self.entries.len() as u64 {
            return Ok(out);
        }
        let start = offset as usize;
        let mut i: usize = start;
        while i < self.entries.len() && out.len() < max_items
            invariant
                self.wf(),
                seq >= self.first,
                start == seq - self.first,
                start <= i <= self.entries.len(),
                out@.len() == i - start,
                out@.len() <= max_items,
                forall|j: int|
                    0 <= j < out@.len() ==> (#[trigger] out@[j]).seq == seq + j && out@[j].event@
                        == self.at(seq + j),
            decreases self.entries.len() - i,
        {
            let entry = LogEntry { seq: self.first + (i as u64), event: self.entries[i].clone() };
            out.push(entry);
            i += 1;
        }
        Ok(out)
    }

    /// The highest sequence number whose retained record establishes one of
    /// `points`, or `None` where no retained record establishes any of them.
    pub fn find_sequence(&self, points: &[ChainPoint]) -> (found: Option<u64>)
        requires
            self.wf(),
        ensures
            found == self.spec_find_sequence(points@),
            found matches Some(seq) ==> self.is_highest_establishing(seq as int, points@),
            found is None ==> forall|any: int|
                self.retains(any) ==> !establishes_any(#[trigger] self.at(any), points@),
    {
        let mut i: usize = self.entries.len();
        while i > 0
            invariant
                self.wf(),
                i <= self.entries.len(),
                forall|later: int|
                    self.first + i <= later < self.spec_next_seq() ==> !establishes_any(
                        #[trigger] self.at(later),
                        points@,
                    ),
            decreases i,
        {
            i -= 1;
            if Self::establishes_one_of(&self.entries[i], points) {
                let seq = self.first + (i as u64);
                proof {
                    assert(self.is_highest_establishing(seq as int, points@));
                    let other = choose|s: int| self.is_highest_establishing(s, points@);
                    if other < seq {
                        assert(!establishes_any(self.at(seq as int), points@));
                    } else if other > seq {
                        assert(!establishes_any(self.at(other), points@));
                    }
                }
                return Some(seq);
            }
        }
        proof {
            assert forall|s: int| !self.is_highest_establishing(s, points@) by {
                if self.retains(s) {
                    assert(!establishes_any(self.at(s), points@));
                }
            }
        }
        None
    }

    fn establishes_one_of(event: &LogEvent, points: &[ChainPoint]) -> (yes: bool)
        ensures
            yes == establishes_any(event@, points@),
    {
        let mut k: usize = 0;
        while k < points.len()
            invariant
                k <= points.len(),
                forall|j: int| 0 <= j < k ==> !event@.establishes(#[trigger] points@[j]),
            decreases points.len() - k,
        {
            if event.establishes(&points[k]) {
                return true;
            }
            k += 1;
        }
        false
    }

    /// Drops every record numbered below `seq`. The records that stay keep
    /// their numbers, and so does the next one to be appended. A `seq`
    /// beyond the end of the log empties it.
    pub fn prune_before(&mut self, seq: u64)
        requires
            old(self).wf(),
        ensures
            final(self).wf(),
            final(self).spec_next_seq() == old(self).spec_next_seq(),
            final(self).spec_first_seq() == if seq <= old(self).spec_first_seq() {
                old(self).spec_first_seq() as int
            } else if seq >= old(self).spec_next_seq() {
                old(self).spec_next_seq()
            } else {
                seq as int
            },
            final(self)@ == old(self).suffix_from(final(self).spec_first_seq() as int),
    {
        if seq <= self.first {
            assert(self@.skip(0) =~= self@);
            return;
        }
        let len = self.entries.len();
        let drop: usize = if seq - self.first >= len as u64 {
            len
        } else {
            (seq - self.first) as usize
        };
        let kept = self.entries.split_off(drop);
        self.entries = kept;
        self.first = self.first + (drop as u64);
        assert(self@ =~= old(self)@.skip(drop as int));
    }
}

} // verus!
