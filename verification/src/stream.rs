//! The resumable stream: one consumer's cursor over the event log.

use vstd::prelude::*;
use crate::error::ChainError;
use crate::event::Event;
use crate::wal::{EventLog, LogEntry};

verus! {

/// Where a cursor is in its life.
#[derive(Clone, Copy, Debug, PartialEq, Eq, Structural)]
pub enum StreamState {
    /// Reading records that were already written when it last looked.
    Replaying,
    /// Caught up with the log; waiting for the next append.
    Tailing,
    /// Done: the consumer left, or the stream failed.
    Closed,
}

/// A cursor over the event log.
///
/// It remembers the sequence number of the last record it handed out and
/// hands out the one that follows, so a consumer sees the log's records in
/// the log's order, each once and none left out.
#[derive(Clone, Copy, Debug, PartialEq, Eq)]
pub struct RollStream {
    /// The sequence number of the last record handed out, or of the record
    /// to resume after. `None`: nothing yet; start with the oldest retained
    /// record.
    pub last_seen: Option<u64>,
    pub state: StreamState,
    /// How many written records a tailing cursor may have before it without
    /// being cut off. `None`: as many as there are.
    pub buffer: Option<u64>,
}

/// What one poll of a cursor gave.
#[derive(Debug, PartialEq, Eq)]
pub enum StreamStep {
    /// The next record.
    Event(LogEntry),
    /// The cursor is at the end of the log; poll again after an append.
    Pending,
    /// The cursor is closed.
    Closed,
    /// The stream failed and is now closed.
    Failed(ChainError),
}

impl RollStream {
    /// A cursor that resumes after the record numbered `after`, or starts
    /// with the oldest retained record where `after` is `None`.
    pub open spec fn spec_start(after: Option<u64>) -> RollStream {
        RollStream { last_seen: after, state: StreamState::Replaying, buffer: None }
    }

    /// The same cursor with room for `capacity` records.
    pub open spec fn spec_bounded(self, capacity: u64) -> RollStream {
        RollStream { buffer: Some(capacity), ..self }
    }

    /// The number of written records that the cursor has not handed out.
    pub open spec fn backlog(self, log: &EventLog) -> int {
        if self.cursor(log) < log.spec_next_seq() {
            log.spec_next_seq() - self.cursor(log)
        } else {
            0
        }
    }

    /// Whether the cursor has fallen behind: it is tailing, and more records
    /// were written since it last looked than its buffer has room for.
    pub open spec fn lags(self, log: &EventLog) -> bool {
        &&& self.state == StreamState::Tailing
        &&& self.buffer matches Some(capacity)
        &&& self.backlog(log) > capacity
    }

    /// The sequence number of the record the cursor hands out next.
    pub open spec fn cursor(self, log: &EventLog) -> int {
        match self.last_seen {
            None => log.spec_first_seq() as int,
            Some(seen) => seen + 1,
        }
    }

    /// The record a poll hands out: the one under the cursor, if the cursor
    /// is open and the log retains that record.
    pub open spec fn yields(self, log: &EventLog) -> Option<Event> {
        if self.state != StreamState::Closed && log.retains(self.cursor(log)) && !self.lags(log) {
            Some(log.at(self.cursor(log)))
        } else {
            None
        }
    }

    /// The cursor after a poll.
    ///
    /// A closed cursor stays as it is. A cursor whose next record was pruned
    /// closes, and so does one that lags. A cursor at the end of the log is
    /// tailing and keeps its place. Otherwise it moves one record on and
    /// keeps its state.
    pub open spec fn after_poll(self, log: &EventLog) -> RollStream {
        if self.state == StreamState::Closed {
            self
        } else if self.cursor(log) < log.spec_first_seq() || self.lags(log) {
            RollStream { state: StreamState::Closed, ..self }
        } else if self.cursor(log) >= log.spec_next_seq() {
            RollStream { state: StreamState::Tailing, ..self }
        } else {
            RollStream { last_seen: Some(self.cursor(log) as u64), ..self }
        }
    }

    /// The records that the first `polls` polls hand out, up to the first
    /// poll that hands out none.
    pub open spec fn observe(self, log: &EventLog, polls: nat) -> Seq<Event>
        decreases polls,
    {
        if polls == 0 {
            Seq::empty()
        } else {
            match self.yields(log) {
                Some(event) => seq![event] + self.after_poll(log).observe(
                    log,
                    (polls - 1) as nat,
                ),
                None => Seq::empty(),
            }
        }
    }

    /// A cursor that resumes after the record numbered `after`, or starts
    /// with the oldest retained record where `after` is `None`.
    #[verifier::when_used_as_spec(spec_start)]
    pub fn start(after: Option<u64>) -> (stream: RollStream)
        ensures
            stream == Self::spec_start(after),
    {
        RollStream { last_seen: after, state: StreamState::Replaying, buffer: None }
    }

    /// The same cursor with room for `capacity` records: once it tails the
    /// log, it is cut off as soon as more than `capacity` records wait for
    /// it.
    #[verifier::when_used_as_spec(spec_bounded)]
    pub fn bounded(self, capacity: u64) -> (stream: RollStream)
        ensures
            stream == self.spec_bounded(capacity),
    {
        RollStream { last_seen: self.last_seen, state: self.state, buffer: Some(capacity) }
    }

    /// Hands out the next record, if there is one.
    ///
    /// At the end of the log the cursor turns to tailing and the poll is
    /// pending: the cursor keeps its place, and a poll after the next append
    /// hands out the appended record. A cursor whose next record was pruned
    /// fails with `NotFound` and closes. A cursor that lags fails with
    /// `Lagged` and closes: it is cut off, and no record is passed over in
    /// silence.
    pub fn poll(&mut self, log: &EventLog) -> (step: StreamStep)
        requires
            log.wf(),
        ensures
            *final(self) == old(self).after_poll(log),
            match step {
                StreamStep::Event(entry) => {
                    &&& old(self).yields(log) == Some(entry.event@)
                    &&& entry.seq == old(self).cursor(log)
                },
                StreamStep::Pending => {
                    &&& old(self).state != StreamState::Closed
                    &&& old(self).cursor(log) >= log.spec_next_seq()
                    &&& old(self).cursor(log) >= log.spec_first_seq()
                },
                StreamStep::Closed => old(self).state == StreamState::Closed,
                StreamStep::Failed(e) => {
                    &&& old(self).state != StreamState::Closed
                    &&& e == if old(self).cursor(log) < log.spec_first_seq() {
                        ChainError::NotFound
                    } else {
                        ChainError::Lagged
                    }
                    &&& old(self).cursor(log) < log.spec_first_seq() || old(self).lags(log)
                },
            },
    {
        if let StreamState::Closed = self.state {
            return StreamStep::Closed;
        }
        let next: u64 = match self.last_seen {
            None => log.first_seq(),
            Some(seen) => {
                if seen == u64::MAX {
                    self.state = StreamState::Tailing;
                    return StreamStep::Pending;
                }
                seen + 1
            },
        };
        match log.get(next) {
            Err(_) => {
                self.state = StreamState::Closed;
                StreamStep::Failed(ChainError::NotFound)
            },
            Ok(None) => {
                self.state = StreamState::Tailing;
                StreamStep::Pending
            },
            Ok(Some(event)) => {
                if self.is_behind(log, next) {
                    self.state = StreamState::Closed;
                    return StreamStep::Failed(ChainError::Lagged);
                }
                self.last_seen = Some(next);
                StreamStep::Event(LogEntry { seq: next, event: event.clone() })
            },
        }
    }

    fn is_behind(&self, log: &EventLog, next: u64) -> (behind: bool)
        requires
            log.wf(),
            next == self.cursor(log),
            log.retains(next as int),
        ensures
            behind == self.lags(log),
    {
        match (self.state, self.buffer) {
            (StreamState::Tailing, Some(capacity)) => log.next_seq() - next > capacity,
            _ => false,
        }
    }

    /// Closes the cursor. A closed cursor hands out nothing more.
    pub fn close(&mut self)
        ensures
            *final(self) == (RollStream { state: StreamState::Closed, ..*old(self) }),
    {
        self.state = StreamState::Closed;
    }
}

/// A cursor that resumes after sequence number `after` hands out exactly the
/// records that the log holds after `after`, in the log's order: none before
/// `after + 1`, none twice, none left out.
pub proof fn lemma_resume_yields_suffix(log: &EventLog, after: u64, polls: nat)
    requires
        log.wf(),
        log.spec_first_seq() <= after + 1,
    ensures
        RollStream::spec_start(Some(after)).observe(log, polls) == if polls
            <= log.suffix_from(after + 1).len() {
            log.suffix_from(after + 1).take(polls as int)
        } else {
            log.suffix_from(after + 1)
        },
{
    lemma_observe_from(RollStream::spec_start(Some(after)), log, polls);
}

/// A cursor that starts with no position hands out the whole retained log,
/// oldest record first.
pub proof fn lemma_start_yields_log(log: &EventLog, polls: nat)
    requires
        log.wf(),
    ensures
        RollStream::spec_start(None).observe(log, polls) == if polls <= log@.len() {
            log@.take(polls as int)
        } else {
            log@
        },
{
    lemma_observe_from(RollStream::spec_start(None), log, polls);
    assert(log.suffix_from(log.spec_first_seq() as int) =~= log@);
}

/// A replaying cursor whose next record is not pruned hands out the rest of
/// the log from its position on.
pub proof fn lemma_observe_from(stream: RollStream, log: &EventLog, polls: nat)
    requires
        log.wf(),
        stream.state == StreamState::Replaying,
        log.spec_first_seq() <= stream.cursor(log),
    ensures
        stream.observe(log, polls) == if polls <= log.suffix_from(stream.cursor(log)).len() {
            log.suffix_from(stream.cursor(log)).take(polls as int)
        } else {
            log.suffix_from(stream.cursor(log))
        },
    decreases polls,
{
    let at = stream.cursor(log);
    let rest = log.suffix_from(at);
    if polls == 0 {
        assert(rest.take(0) =~= Seq::<Event>::empty());
    } else if at >= log.spec_next_seq() {
        assert(rest =~= Seq::<Event>::empty());
        assert(rest.take(0) =~= rest);
    } else {
        let moved = stream.after_poll(log);
        lemma_observe_from(moved, log, (polls - 1) as nat);
        let tail = log.suffix_from(at + 1);
        assert(rest =~= seq![log.at(at)] + tail);
        if polls <= rest.len() {
            assert(rest.take(polls as int) =~= seq![log.at(at)] + tail.take(polls - 1));
        }
    }
}

} // verus!
