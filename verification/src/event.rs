//! Records of the event log.

use vstd::prelude::*;
use crate::point::ChainPoint;

verus! {

/// One record of the event log.
///
/// A rollback never removes an `Apply`; it is written down as an `Undo` of
/// the same block, which keeps the block's content so that a consumer can
/// reverse its effects without fetching it again.
#[derive(Debug, PartialEq, Eq)]
pub enum LogEvent {
    /// The start of history.
    Origin,
    /// A block was added at the point; the bytes are its content.
    Apply(ChainPoint, Vec<u8>),
    /// The block applied at the point was rolled back.
    Undo(ChainPoint, Vec<u8>),
    /// The chain was reset to the point; no content.
    Mark(ChainPoint),
}

/// The mathematical value of a [`LogEvent`].
pub enum Event {
    Origin,
    Apply(ChainPoint, Seq<u8>),
    Undo(ChainPoint, Seq<u8>),
    Mark(ChainPoint),
}

impl Event {
    /// The point an event speaks of; `Origin` speaks of none.
    pub open spec fn point(self) -> Option<ChainPoint> {
        match self {
            Event::Origin => None,
            Event::Apply(p, _) => Some(p),
            Event::Undo(p, _) => Some(p),
            Event::Mark(p) => Some(p),
        }
    }

    /// The block content an event carries, if any.
    pub open spec fn body(self) -> Option<Seq<u8>> {
        match self {
            Event::Apply(_, b) => Some(b),
            Event::Undo(_, b) => Some(b),
            _ => None,
        }
    }

    /// Whether the event leaves the chain tip exactly at `p`: it applies the
    /// block at `p`, or resets the chain to `p`.
    pub open spec fn establishes(self, p: ChainPoint) -> bool {
        match self {
            Event::Apply(q, _) => q == p,
            Event::Mark(q) => q == p,
            _ => false,
        }
    }
}

impl View for LogEvent {
    type V = Event;

    open spec fn view(&self) -> Event {
        match self {
            LogEvent::Origin => Event::Origin,
            LogEvent::Apply(p, b) => Event::Apply(*p, b@),
            LogEvent::Undo(p, b) => Event::Undo(*p, b@),
            LogEvent::Mark(p) => Event::Mark(*p),
        }
    }
}

/// Copies a byte string.
pub fn clone_bytes(bytes: &Vec<u8>) -> (copy: Vec<u8>)
    ensures
        copy@ == bytes@,
{
    let mut copy: Vec<u8> = Vec::with_capacity(bytes.len());
    let mut i: usize = 0;
    while i < bytes.len()
        invariant
            i <= bytes.len(),
            copy@ == bytes@.take(i as int),
        decreases bytes.len() - i,
    {
        copy.push(bytes[i]);
        assert(bytes@.take(i as int).push(bytes@[i as int]) =~= bytes@.take(i + 1));
        i += 1;
    }
    assert(bytes@.take(bytes@.len() as int) =~= bytes@);
    copy
}

impl Clone for LogEvent {
    fn clone(&self) -> (copy: LogEvent)
        ensures
            copy@ == self@,
    {
        match self {
            LogEvent::Origin => LogEvent::Origin,
            LogEvent::Apply(p, b) => LogEvent::Apply(*p, clone_bytes(b)),
            LogEvent::Undo(p, b) => LogEvent::Undo(*p, clone_bytes(b)),
            LogEvent::Mark(p) => LogEvent::Mark(*p),
        }
    }
}

impl LogEvent {
    /// The point the record speaks of; `Origin` speaks of none.
    pub fn point(&self) -> (point: Option<ChainPoint>)
        ensures
            point == self@.point(),
    {
        match self {
            LogEvent::Origin => None,
            LogEvent::Apply(p, _) => Some(*p),
            LogEvent::Undo(p, _) => Some(*p),
            LogEvent::Mark(p) => Some(*p),
        }
    }

    /// The block content the record carries, if any.
    pub fn body(&self) -> (body: Option<&Vec<u8>>)
        ensures
            body is Some <==> self@.body() is Some,
            body matches Some(b) ==> Some(b@) == self@.body(),
    {
        match self {
            LogEvent::Apply(_, b) => Some(b),
            LogEvent::Undo(_, b) => Some(b),
            _ => None,
        }
    }

    /// Whether the record is the start of history.
    pub fn is_origin(&self) -> (yes: bool)
        ensures
            yes == (self@ is Origin),
    {
        matches!(self, LogEvent::Origin)
    }

    /// Whether the record applies a block.
    pub fn is_apply(&self) -> (yes: bool)
        ensures
            yes == (self@ is Apply),
    {
        matches!(self, LogEvent::Apply(_, _))
    }

    /// Whether the record undoes a block.
    pub fn is_undo(&self) -> (yes: bool)
        ensures
            yes == (self@ is Undo),
    {
        matches!(self, LogEvent::Undo(_, _))
    }

    /// Whether the record resets the chain to a point.
    pub fn is_mark(&self) -> (yes: bool)
        ensures
            yes == (self@ is Mark),
    {
        matches!(self, LogEvent::Mark(_))
    }

    /// Whether the record leaves the chain tip exactly at `p`.
    pub fn establishes(&self, p: &ChainPoint) -> (yes: bool)
        ensures
            yes == self@.establishes(*p),
    {
        match self {
            LogEvent::Apply(q, _) => q.same(p),
            LogEvent::Mark(q) => q.same(p),
            _ => false,
        }
    }
}

} // verus!
