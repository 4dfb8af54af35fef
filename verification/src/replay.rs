//! What a log says: the chain that results from replaying its records.

use vstd::prelude::*;
use crate::chain::{points_of, Block};
use crate::event::{Event, LogEvent};
use crate::point::ChainPoint;
use crate::wal::EventLog;

verus! {

/// The chain after one more record: `Origin` starts from nothing, `Apply`
/// puts a block on top, `Undo` takes the top block off, and `Mark` leaves
/// the chain as it is.
pub open spec fn replay_step(chain: Seq<Block>, event: Event) -> Seq<Block> {
    match event {
        Event::Origin => Seq::empty(),
        Event::Apply(point, body) => chain.push(Block { point, body }),
        Event::Undo(_, _) => if chain.len() > 0 {
            chain.drop_last()
        } else {
            chain
        },
        Event::Mark(_) => chain,
    }
}

/// The chain that results from replaying `events` in order, oldest block
/// first.
pub open spec fn replay(events: Seq<Event>) -> Seq<Block>
    decreases events.len(),
{
    if events.len() == 0 {
        Seq::empty()
    } else {
        replay_step(replay(events.drop_last()), events.last())
    }
}

/// The point of the newest block of `chain`.
pub open spec fn tip_of(chain: Seq<Block>) -> Option<ChainPoint> {
    if chain.len() == 0 {
        None
    } else {
        Some(chain.last().point)
    }
}

/// The chain tip that replaying `events` arrives at.
pub open spec fn replay_tip(events: Seq<Event>) -> Option<ChainPoint> {
    tip_of(replay(events))
}

/// The `Undo` records that take the blocks of `chain` from position `keep`
/// on off again, newest block first.
pub open spec fn unwind(chain: Seq<Block>, keep: int) -> Seq<Event> {
    Seq::new(
        (chain.len() - keep) as nat,
        |j: int| Event::Undo(chain[chain.len() - 1 - j].point, chain[chain.len() - 1 - j].body),
    )
}

/// Replaying one more record is one more step.
pub proof fn lemma_replay_push(events: Seq<Event>, event: Event)
    ensures
        replay(events.push(event)) == replay_step(replay(events), event),
{
    assert(events.push(event).drop_last() =~= events);
}

/// The record at position `at` of `events` is the `Apply` that wrote `block`.
pub open spec fn applied_at(events: Seq<Event>, at: int, block: Block) -> bool {
    0 <= at < events.len() && events[at] == Event::Apply(block.point, block.body)
}

/// Every block of the replayed chain was written by an `Apply` record of the
/// log, with exactly the content that the chain holds for it.
pub proof fn lemma_replayed_block_was_applied(events: Seq<Event>, i: int)
    requires
        0 <= i < replay(events).len(),
    ensures
        exists|at: int| applied_at(events, at, replay(events)[i]),
    decreases events.len(),
{
    if events.len() > 0 {
        let earlier = events.drop_last();
        let before = replay(earlier);
        let block = replay(events)[i];
        if events.last() is Apply && i == before.len() {
            assert(applied_at(events, events.len() - 1, block));
        } else {
            assert(events.last() !is Origin);
            assert(block == before[i]);
            lemma_replayed_block_was_applied(earlier, i);
            let at = choose|at: int| applied_at(earlier, at, before[i]);
            assert(earlier[at] == events[at]);
            assert(applied_at(events, at, block));
        }
    }
}

/// Whether `event` may be written after a log whose replay gave `chain`.
///
/// `Origin` stands only where there is no chain yet. A block is applied only
/// above the tip. Only the block at the tip is undone, with the content it
/// was applied with. Only the tip is marked. So no block is ever replaced in
/// silence: before another block can take its slot, it is undone.
pub open spec fn follows(chain: Seq<Block>, event: Event) -> bool {
    match event {
        Event::Origin => chain.len() == 0,
        Event::Apply(point, _) => chain.len() > 0 ==> chain.last().point.slot < point.slot,
        Event::Undo(point, body) => chain.len() > 0 && chain.last() == (Block { point, body }),
        Event::Mark(point) => tip_of(chain) == Some(point),
    }
}

/// Whether every record of `events` may be written after the records before
/// it.
pub open spec fn orderly(events: Seq<Event>) -> bool
    decreases events.len(),
{
    events.len() > 0 ==> orderly(events.drop_last()) && follows(
        replay(events.drop_last()),
        events.last(),
    )
}

/// An orderly log stays orderly when a record is appended that may follow
/// it.
pub proof fn lemma_orderly_push(events: Seq<Event>, event: Event)
    requires
        orderly(events),
        follows(replay(events), event),
    ensures
        orderly(events.push(event)),
{
    assert(events.push(event).drop_last() =~= events);
}

/// Every beginning of an orderly log is orderly.
pub proof fn lemma_orderly_prefix(events: Seq<Event>, len: int)
    requires
        orderly(events),
        0 <= len <= events.len(),
    ensures
        orderly(events.take(len)),
    decreases events.len(),
{
    if len == events.len() {
        assert(events.take(len) =~= events);
    } else {
        lemma_orderly_prefix(events.drop_last(), len);
        assert(events.drop_last().take(len) =~= events.take(len));
    }
}

/// In an orderly log, a record that establishes a point leaves the chain
/// tip at that point: replaying the log up to and including the record
/// arrives there.
pub proof fn lemma_established_point_is_tip(events: Seq<Event>, at: int, point: ChainPoint)
    requires
        orderly(events),
        0 <= at < events.len(),
        events[at].establishes(point),
    ensures
        replay_tip(events.take(at + 1)) == Some(point),
{
    let upto = events.take(at + 1);
    lemma_orderly_prefix(events, at + 1);
    assert(upto.last() == events[at]);
}

/// Replays the retained records of `log`, oldest first, and gives the chain
/// tip that the replay arrives at.
pub fn replayed_tip(log: &EventLog) -> (tip: Option<ChainPoint>)
    requires
        log.wf(),
    ensures
        tip == replay_tip(log@),
{
    let first = log.first_seq();
    let next = log.next_seq();
    let mut chain: Vec<ChainPoint> = Vec::new();
    let mut seq: u64 = first;
    assert(log@.take(0) =~= Seq::<Event>::empty());
    while seq < next
        invariant
            log.wf(),
            first == log.spec_first_seq(),
            next == log.spec_next_seq(),
            first <= seq <= next,
            chain@ == points_of(replay(log@.take(seq - first))),
        decreases next - seq,
    {
        let ghost done = log@.take(seq - first);
        let ghost before = replay(done);
        proof {
            let upto = log@.take(seq - first + 1);
            assert(upto.drop_last() =~= done);
            assert(upto.last() == log.at(seq as int));
        }
        match log.get(seq) {
            Ok(Some(event)) => {
                match event {
                    LogEvent::Origin => {
                        chain.clear();
                        assert(chain@ =~= points_of(Seq::<Block>::empty()));
                    },
                    LogEvent::Apply(point, body) => {
                        chain.push(*point);
                        assert(chain@ =~= points_of(
                            before.push(Block { point: *point, body: body@ }),
                        ));
                    },
                    LogEvent::Undo(_, _) => {
                        let _ = chain.pop();
                        proof {
                            if before.len() > 0 {
                                assert(chain@ =~= points_of(before.drop_last()));
                            }
                        }
                    },
                    LogEvent::Mark(_) => {},
                }
            },
            _ => {},
        }
        seq += 1;
    }
    assert(log@.take(log@.len() as int) =~= log@);
    let n = chain.len();
    if n == 0 {
        None
    } else {
        Some(chain[n - 1])
    }
}

} // verus!
