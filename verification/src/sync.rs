//! The synchronisation protocol: fetching blocks by digest, dumping history
//! page by page, and following the tip from a negotiated intersection.

use vstd::prelude::*;
use crate::chain::{
    ascending, ascending_points, holds_at, lemma_index_ascends, lemma_rank_is, lemma_rank_splits,
    lookup, page_of, points_of, rank, Block, ChainStore,
};
use crate::error::ChainError;
use crate::event::{clone_bytes, Event, LogEvent};
use crate::point::ChainPoint;
use crate::stream::{RollStream, StreamState, StreamStep};
use crate::wal::EventLog;

verus! {

/// What a follower of the tip is told to do.
#[derive(Debug, PartialEq, Eq)]
pub enum TipAction {
    /// Apply this block; the bytes are its content.
    Apply(Vec<u8>),
    /// Undo this block; its content comes along, so nothing has to be
    /// fetched to reverse it.
    Undo(Vec<u8>),
    /// Reset to this point.
    Reset(ChainPoint),
}

/// The mathematical value of a [`TipAction`].
pub enum Action {
    Apply(Seq<u8>),
    Undo(Seq<u8>),
    Reset(ChainPoint),
}

impl View for TipAction {
    type V = Action;

    open spec fn view(&self) -> Action {
        match self {
            TipAction::Apply(b) => Action::Apply(b@),
            TipAction::Undo(b) => Action::Undo(b@),
            TipAction::Reset(p) => Action::Reset(*p),
        }
    }
}

/// The action that a log record stands for. `Origin` stands for none: a
/// follower never hears of it.
pub open spec fn tip_action_of(event: Event) -> Option<Action> {
    match event {
        Event::Apply(_, body) => Some(Action::Apply(body)),
        Event::Undo(_, body) => Some(Action::Undo(body)),
        Event::Mark(point) => Some(Action::Reset(point)),
        Event::Origin => None,
    }
}

/// Turns a log record into the action a follower is told.
pub fn roll_to_tip_response(log: LogEvent) -> (action: Option<TipAction>)
    ensures
        action is Some <==> tip_action_of(log@) is Some,
        action matches Some(a) ==> Some(a@) == tip_action_of(log@),
{
    match log {
        LogEvent::Apply(_, block) => Some(TipAction::Apply(block)),
        LogEvent::Undo(_, block) => Some(TipAction::Undo(block)),
        LogEvent::Mark(point) => Some(TipAction::Reset(point)),
        LogEvent::Origin => None,
    }
}

/// The values of a list of byte strings.
pub open spec fn bodies(blocks: Seq<Vec<u8>>) -> Seq<Seq<u8>> {
    blocks.map_values(|b: Vec<u8>| b@)
}

/// The values of a list of lookup results.
pub open spec fn answers(found: Seq<Option<Vec<u8>>>) -> Seq<Option<Seq<u8>>> {
    found.map_values(
        |f: Option<Vec<u8>>|
            match f {
                Some(b) => Some(b@),
                None => None,
            },
    )
}

/// The blocks that were found, in the order they were asked for; what was
/// not found is left out.
pub open spec fn present(found: Seq<Option<Seq<u8>>>) -> Seq<Seq<u8>>
    decreases found.len(),
{
    if found.len() == 0 {
        Seq::empty()
    } else {
        match found.last() {
            Some(body) => present(found.drop_last()).push(body),
            None => present(found.drop_last()),
        }
    }
}

/// What a store with content `chain` answers when asked for each of `refs`
/// in turn.
pub open spec fn lookups(chain: Seq<Block>, refs: Seq<ChainPoint>) -> Seq<Option<Seq<u8>>> {
    refs.map_values(|r: ChainPoint| lookup(chain, r.hash))
}

/// Keeps the blocks that were found and drops the misses. The answer to a
/// fetch is what the store has of what was asked for, not one entry per
/// request.
pub fn found_blocks(found: &Vec<Option<Vec<u8>>>) -> (blocks: Vec<Vec<u8>>)
    ensures
        bodies(blocks@) == present(answers(found@)),
{
    let mut blocks: Vec<Vec<u8>> = Vec::new();
    let mut i: usize = 0;
    assert(answers(found@).take(0) =~= Seq::<Option<Seq<u8>>>::empty());
    while i < found.len()
        invariant
            i <= found.len(),
            bodies(blocks@) == present(answers(found@).take(i as int)),
        decreases found.len() - i,
    {
        let ghost before = bodies(blocks@);
        proof {
            let upto = answers(found@).take(i + 1);
            assert(upto.drop_last() =~= answers(found@).take(i as int));
            assert(upto.last() == answers(found@)[i as int]);
        }
        match &found[i] {
            Some(body) => {
                blocks.push(clone_bytes(body));
                assert(bodies(blocks@) =~= before.push(body@));
            },
            None => {},
        }
        i += 1;
    }
    assert(answers(found@).take(found@.len() as int) =~= answers(found@));
    blocks
}

/// All lookups must have found their block: a page of history names only
/// blocks of the store, so a miss means that index and content disagree.
/// Then the whole page fails with `InconsistentState`; a page is never
/// handed out short.
pub fn resolve_page(found: &Vec<Option<Vec<u8>>>) -> (blocks: Result<Vec<Vec<u8>>, ChainError>)
    ensures
        blocks is Ok <==> forall|i: int| 0 <= i < found@.len() ==> (#[trigger] found@[i]) is Some,
        blocks matches Ok(b) ==> b@.len() == found@.len() && forall|i: int|
            0 <= i < found@.len() ==> Some((#[trigger] b@[i])@) == answers(found@)[i],
        blocks matches Err(e) ==> e == ChainError::InconsistentState,
{
    let mut blocks: Vec<Vec<u8>> = Vec::new();
    let mut i: usize = 0;
    while i < found.len()
        invariant
            i <= found.len(),
            blocks@.len() == i,
            forall|j: int| 0 <= j < i ==> (#[trigger] found@[j]) is Some,
            forall|j: int| 0 <= j < i ==> Some((#[trigger] blocks@[j])@) == answers(found@)[j],
        decreases found.len() - i,
    {
        match &found[i] {
            Some(body) => {
                blocks.push(clone_bytes(body));
            },
            None => {
                return Err(ChainError::InconsistentState);
            },
        }
        i += 1;
    }
    Ok(blocks)
}

/// The slot at which a page starts: the token's slot, or slot 0 where there
/// is no token.
pub open spec fn start_slot(token: Option<ChainPoint>) -> u64 {
    match token {
        Some(t) => t.slot,
        None => 0,
    }
}

/// The points that are read for a page: one more than the page may hold.
pub open spec fn page_read(index: Seq<ChainPoint>, token: Option<ChainPoint>, max_items: nat) -> Seq<
    ChainPoint,
> {
    page_of(index, start_slot(token), max_items + 1)
}

/// The points of the page of history that starts at `token`. Where the read
/// gave the one point more that was asked for, that point is withheld.
pub open spec fn history_items(
    index: Seq<ChainPoint>,
    token: Option<ChainPoint>,
    max_items: nat,
) -> Seq<ChainPoint> {
    let read = page_read(index, token, max_items);
    if read.len() == max_items + 1 {
        read.drop_last()
    } else {
        read
    }
}

/// The token for the page after the one that starts at `token`: the point
/// that was withheld, or `None` where this page is the last.
pub open spec fn history_next(
    index: Seq<ChainPoint>,
    token: Option<ChainPoint>,
    max_items: nat,
) -> Option<ChainPoint> {
    let read = page_read(index, token, max_items);
    if read.len() == max_items + 1 {
        Some(read.last())
    } else {
        None
    }
}

/// Where to read for a page, and how much: from the slot of the token, or
/// from slot 0 without a token, one point more than the page may hold. Of a
/// token only the slot counts.
pub fn page_window(start_slot: Option<u64>, max_items: u32) -> (window: (u64, u64))
    ensures
        window.0 == match start_slot {
            Some(slot) => slot,
            None => 0,
        },
        window.1 == max_items + 1,
{
    let from = match start_slot {
        Some(slot) => slot,
        None => 0,
    };
    (from, max_items as u64 + 1)
}

/// Splits what was read for a page into the page and the token for the next
/// one. Where the read gave one point more than the page may hold, there
/// is a next page: the last point is withheld and becomes its token.
/// Otherwise this page is the last.
pub fn split_page(read: Vec<ChainPoint>, max_items: u32) -> (page: (Vec<ChainPoint>, Option<ChainPoint>))
    ensures
        read@.len() == max_items + 1 ==> page.0@ == read@.drop_last() && page.1 == Some(
            read@.last(),
        ),
        read@.len() != max_items + 1 ==> page.0@ == read@ && page.1 == None::<ChainPoint>,
{
    let mut items = read;
    if items.len() as u64 == max_items as u64 + 1 {
        let last = items.pop();
        (items, last)
    } else {
        (items, None)
    }
}

/// One page of history.
#[derive(Debug, PartialEq, Eq)]
pub struct HistoryPage {
    /// The content of the page's blocks, in ascending slot order.
    pub block: Vec<Vec<u8>>,
    /// Where the next page starts; `None` after the last page.
    pub next_token: Option<ChainPoint>,
}

/// The sequence number at which following starts: the answer of the log for
/// the first of `candidates` that it has an answer for. Candidates are
/// tried in the order given; `None` where the log has an answer for none.
pub open spec fn intersect(log: &EventLog, candidates: Seq<ChainPoint>) -> Option<u64>
    decreases candidates.len(),
{
    if candidates.len() == 0 {
        None
    } else {
        match log.spec_find_sequence(seq![candidates.first()]) {
            Some(seq) => Some(seq),
            None => intersect(log, candidates.drop_first()),
        }
    }
}

/// What the negotiation of an intersection wants next.
#[derive(Debug, PartialEq, Eq)]
pub enum NegotiationStep {
    /// Ask the log for the sequence number of this candidate.
    Ask(ChainPoint),
    /// The negotiation is over: stream with this cursor.
    Start(RollStream),
    /// The negotiation is over: it failed.
    Fail(ChainError),
}

/// The negotiation of the point at which a follower starts.
///
/// The follower's candidates are tried one by one, in the order given. The
/// negotiation says which candidate to look up; whoever holds the log looks
/// it up and hands back the answer.
pub struct Negotiation {
    candidates: Vec<ChainPoint>,
    asked: usize,
}

impl Negotiation {
    /// The candidates that have no answer yet; the first is the one that is
    /// being asked for.
    pub closed spec fn pending(&self) -> Seq<ChainPoint> {
        if self.asked <= self.candidates@.len() {
            self.candidates@.skip(self.asked as int)
        } else {
            Seq::empty()
        }
    }

    /// Starts a negotiation over `candidates`. With no candidate there is
    /// nothing to negotiate: the follower gets the whole retained log.
    pub fn begin(candidates: Vec<ChainPoint>) -> (started: (Negotiation, NegotiationStep))
        ensures
            candidates@.len() == 0 ==> started.1 == NegotiationStep::Start(
                RollStream::spec_start(None),
            ) && started.0.pending().len() == 0,
            candidates@.len() > 0 ==> started.1 == NegotiationStep::Ask(candidates@[0])
                && started.0.pending() == candidates@,
    {
        if candidates.len() == 0 {
            let negotiation = Negotiation { candidates, asked: 0 };
            (negotiation, NegotiationStep::Start(RollStream::start(None)))
        } else {
            let first = candidates[0];
            let negotiation = Negotiation { candidates, asked: 0 };
            assert(negotiation.pending() =~= candidates@);
            (negotiation, NegotiationStep::Ask(first))
        }
    }

    /// Takes the log's answer for the candidate that was asked for.
    ///
    /// A sequence number ends the negotiation: the follower streams what
    /// comes after it. No sequence number moves on to the next candidate;
    /// after the last one the negotiation fails with `NotFound`. A failure
    /// of the lookup ends the negotiation with that failure. An answer to a
    /// negotiation that is already over fails with `NotFound`.
    pub fn answer(&mut self, found: Result<Option<u64>, ChainError>) -> (step: NegotiationStep)
        ensures
            step == match found {
                Err(e) => NegotiationStep::Fail(e),
                Ok(Some(seq)) => if old(self).pending().len() > 0 {
                    NegotiationStep::Start(RollStream::spec_start(Some(seq)))
                } else {
                    NegotiationStep::Fail(ChainError::NotFound)
                },
                Ok(None) => if old(self).pending().len() > 1 {
                    NegotiationStep::Ask(old(self).pending()[1])
                } else {
                    NegotiationStep::Fail(ChainError::NotFound)
                },
            },
            final(self).pending() == if found == Ok::<Option<u64>, ChainError>(None) && old(
                self,
            ).pending().len() > 1 {
                old(self).pending().drop_first()
            } else {
                Seq::empty()
            },
    {
        let total = self.candidates.len();
        match found {
            Err(e) => {
                self.asked = total;
                assert(self.pending() =~= Seq::<ChainPoint>::empty());
                NegotiationStep::Fail(e)
            },
            Ok(Some(seq)) => {
                let open = self.asked < total;
                self.asked = total;
                assert(self.pending() =~= Seq::<ChainPoint>::empty());
                if open {
                    NegotiationStep::Start(RollStream::start(Some(seq)))
                } else {
                    NegotiationStep::Fail(ChainError::NotFound)
                }
            },
            Ok(None) => {
                if self.asked < total && self.asked + 1 < total {
                    self.asked = self.asked + 1;
                    assert(self.pending() =~= old(self).pending().drop_first());
                    NegotiationStep::Ask(self.candidates[self.asked])
                } else {
                    self.asked = total;
                    assert(self.pending() =~= Seq::<ChainPoint>::empty());
                    NegotiationStep::Fail(ChainError::NotFound)
                }
            },
        }
    }
}

/// What one poll of a follower's stream gave.
#[derive(Debug, PartialEq, Eq)]
pub enum TipStep {
    /// The next action.
    Action(TipAction),
    /// The follower is at the end of the log; poll again after an append.
    Pending,
    /// The stream is closed.
    Closed,
    /// The stream failed and is now closed.
    Failed(ChainError),
}

/// Whether all records numbered `from` up to, not including, `to` are
/// `Origin` records, of which a follower hears nothing.
pub open spec fn only_origin(log: &EventLog, from: int, to: int) -> bool {
    forall|seq: int| from <= seq < to ==> (#[trigger] log.at(seq)) is Origin
}

fn copy_points(points: &[ChainPoint]) -> (copy: Vec<ChainPoint>)
    ensures
        copy@ == points@,
{
    let mut copy: Vec<ChainPoint> = Vec::new();
    let mut i: usize = 0;
    while i < points.len()
        invariant
            i <= points.len(),
            copy@ == points@.take(i as int),
        decreases points.len() - i,
    {
        copy.push(points[i]);
        assert(points@.take(i as int).push(points@[i as int]) =~= points@.take(i + 1));
        i += 1;
    }
    assert(points@.take(points@.len() as int) =~= points@);
    copy
}

/// The protocol over an event log and a chain store. It only reads them.
pub struct ChainSyncServiceImpl<'a> {
    pub wal: &'a EventLog,
    pub chain: &'a ChainStore,
}

impl<'a> ChainSyncServiceImpl<'a> {
    /// The log and the store are valid.
    pub open spec fn wf(&self) -> bool {
        self.wal.wf() && self.chain.wf()
    }

    /// The protocol over `wal` and `chain`.
    pub fn new(wal: &'a EventLog, chain: &'a ChainStore) -> (service: Self)
        ensures
            service.wal == wal,
            service.chain == chain,
    {
        Self { wal, chain }
    }

    /// The content of the blocks that `refs` name by digest, as far as the
    /// store has them, in the order of `refs`. Digests that the store does
    /// not have are left out without a word.
    pub fn fetch_block(&self, refs: &[ChainPoint]) -> (blocks: Vec<Vec<u8>>)
        requires
            self.wf(),
        ensures
            bodies(blocks@) == present(lookups(self.chain@, refs@)),
    {
        let found = self.look_up(refs);
        assert(answers(found@) =~= lookups(self.chain@, refs@));
        found_blocks(&found)
    }

    fn look_up(&self, refs: &[ChainPoint]) -> (found: Vec<Option<Vec<u8>>>)
        requires
            self.wf(),
        ensures
            found@.len() == refs@.len(),
            forall|i: int|
                0 <= i < refs@.len() ==> answers(found@)[i] == lookup(
                    self.chain@,
                    (#[trigger] refs@[i]).hash,
                ),
    {
        let mut found: Vec<Option<Vec<u8>>> = Vec::new();
        let mut i: usize = 0;
        while i < refs.len()
            invariant
                self.wf(),
                i <= refs.len(),
                found@.len() == i,
                forall|j: int|
                    0 <= j < i ==> answers(found@)[j] == lookup(
                        self.chain@,
                        (#[trigger] refs@[j]).hash,
                    ),
            decreases refs.len() - i,
        {
            let ghost before = found@;
            let answer = match self.chain.get_block(&refs[i].hash) {
                Some(body) => Some(clone_bytes(body)),
                None => None,
            };
            found.push(answer);
            proof {
                assert forall|j: int| 0 <= j < i + 1 implies answers(found@)[j] == lookup(
                    self.chain@,
                    (#[trigger] refs@[j]).hash,
                ) by {
                    if j < i {
                        assert(found@[j] == before[j]);
                        assert(answers(before)[j] == lookup(self.chain@, refs@[j].hash));
                    }
                }
            }
            i += 1;
        }
        found
    }

    /// One page of history: the content of at most `max_items` blocks in
    /// ascending slot order, starting at the token's slot or, without a
    /// token, at the beginning; and the token for the next page, if there
    /// is one.
    ///
    /// One point more than the page may hold is read from the index. If it
    /// is there, it is withheld and becomes the next token. On a valid
    /// store every block of the index has its content, so the page never
    /// fails.
    pub fn dump_history(&self, start_token: Option<ChainPoint>, max_items: u32) -> (page: Result<
        HistoryPage,
        ChainError,
    >)
        requires
            self.wf(),
        ensures
            page is Ok,
            page matches Ok(p) ==> {
                let items = history_items(self.chain.index(), start_token, max_items as nat);
                &&& p.next_token == history_next(self.chain.index(), start_token, max_items as nat)
                &&& p.block@.len() == items.len()
                &&& forall|i: int|
                    0 <= i < items.len() ==> lookup(self.chain@, items[i].hash) == Some(
                        (#[trigger] p.block@[i])@,
                    )
            },
    {
        let from_slot = match start_token {
            Some(token) => Some(token.slot),
            None => None,
        };
        let (from, len) = page_window(from_slot, max_items);
        let read = self.chain.read_page(from, len);
        let (items, next_token) = split_page(read, max_items);
        let found = self.look_up(items.as_slice());
        proof {
            assert(answers(found@) =~= lookups(self.chain@, items@));
            assert forall|i: int| 0 <= i < found@.len() implies (#[trigger] found@[i]) is Some by {
                lemma_page_points_are_stored(self.chain@, from, len as nat, i);
                assert(answers(found@)[i] == lookup(self.chain@, items@[i].hash));
            }
        }
        match resolve_page(&found) {
            Ok(block) => Ok(HistoryPage { block, next_token }),
            Err(e) => Err(e),
        }
    }

    /// Finds where a follower starts and hands out its cursor.
    ///
    /// Without candidates the follower gets the whole retained log from its
    /// first record on. Otherwise the candidates are tried in the order
    /// given, and the follower resumes after the sequence number of the
    /// first candidate that the log has an answer for. If it has an answer
    /// for none, the call fails with `NotFound`.
    pub fn follow_tip(&self, candidates: &[ChainPoint]) -> (stream: Result<RollStream, ChainError>)
        requires
            self.wf(),
        ensures
            candidates@.len() == 0 ==> stream == Ok::<RollStream, ChainError>(
                RollStream::spec_start(None),
            ),
            candidates@.len() > 0 ==> stream == match intersect(self.wal, candidates@) {
                Some(seq) => Ok::<RollStream, ChainError>(RollStream::spec_start(Some(seq))),
                None => Err::<RollStream, ChainError>(ChainError::NotFound),
            },
    {
        let (mut negotiation, first) = Negotiation::begin(copy_points(candidates));
        let mut step = first;
        loop
            invariant
                self.wf(),
                match step {
                    NegotiationStep::Ask(p) => {
                        &&& candidates@.len() > 0
                        &&& negotiation.pending().len() > 0
                        &&& p == negotiation.pending()[0]
                        &&& intersect(self.wal, candidates@) == intersect(
                            self.wal,
                            negotiation.pending(),
                        )
                    },
                    NegotiationStep::Start(s) => if candidates@.len() == 0 {
                        s == RollStream::spec_start(None)
                    } else {
                        exists|seq: u64|
                            intersect(self.wal, candidates@) == Some(seq) && s
                                == RollStream::spec_start(Some(seq))
                    },
                    NegotiationStep::Fail(e) => {
                        &&& candidates@.len() > 0
                        &&& e == ChainError::NotFound
                        &&& intersect(self.wal, candidates@) is None
                    },
                },
            decreases
                    (match step {
                        NegotiationStep::Ask(_) => negotiation.pending().len() + 1,
                        _ => 0nat,
                    }),
        {
            match step {
                NegotiationStep::Ask(point) => {
                    let ghost waiting = negotiation.pending();
                    let asked = [point];
                    assert(asked@ =~= seq![waiting.first()]);
                    let found = self.wal.find_sequence(asked.as_slice());
                    step = negotiation.answer(Ok(found));
                    proof {
                        if found is None {
                            if waiting.len() > 1 {
                                assert(waiting.drop_first()[0] == waiting[1]);
                            } else {
                                assert(waiting.drop_first() =~= Seq::<ChainPoint>::empty());
                            }
                        }
                    }
                },
                NegotiationStep::Start(stream) => {
                    return Ok(stream);
                },
                NegotiationStep::Fail(e) => {
                    return Err(e);
                },
            }
        }
    }

    /// Hands out the next action for a follower.
    ///
    /// The follower's cursor moves over the log, record by record. `Origin`
    /// records are passed over in silence; the first other record is handed
    /// out as an action. At the end of the log the poll is pending.
    pub fn next_action(&self, stream: &mut RollStream) -> (step: TipStep)
        requires
            self.wf(),
        ensures
            match step {
                TipStep::Action(action) => exists|seq: int|
                    {
                        &&& old(stream).state != StreamState::Closed
                        &&& self.wal.spec_first_seq() <= old(stream).cursor(self.wal) <= seq
                        &&& #[trigger] self.wal.retains(seq)
                        &&& only_origin(self.wal, old(stream).cursor(self.wal), seq)
                        &&& tip_action_of(self.wal.at(seq)) == Some(action@)
                        &&& !old(stream).lags(self.wal)
                        &&& *final(stream) == (RollStream {
                            last_seen: Some(seq as u64),
                            ..*old(stream)
                        })
                    },
                TipStep::Pending => {
                    &&& old(stream).state != StreamState::Closed
                    &&& self.wal.spec_first_seq() <= old(stream).cursor(self.wal)
                    &&& only_origin(
                        self.wal,
                        old(stream).cursor(self.wal),
                        self.wal.spec_next_seq(),
                    )
                    &&& !old(stream).lags(self.wal)
                    &&& final(stream).state == StreamState::Tailing
                    &&& final(stream).buffer == old(stream).buffer
                    &&& final(stream).cursor(self.wal) == if old(stream).cursor(self.wal)
                        >= self.wal.spec_next_seq() {
                        old(stream).cursor(self.wal)
                    } else {
                        self.wal.spec_next_seq()
                    }
                },
                TipStep::Closed => {
                    &&& old(stream).state == StreamState::Closed
                    &&& *final(stream) == *old(stream)
                },
                TipStep::Failed(e) => {
                    &&& old(stream).state != StreamState::Closed
                    &&& e == if old(stream).cursor(self.wal) < self.wal.spec_first_seq() {
                        ChainError::NotFound
                    } else {
                        ChainError::Lagged
                    }
                    &&& old(stream).cursor(self.wal) < self.wal.spec_first_seq() || old(
                        stream,
                    ).lags(self.wal)
                    &&& *final(stream) == (RollStream {
                        state: StreamState::Closed,
                        ..*old(stream)
                    })
                },
            },
    {
        let ghost begin = stream.cursor(self.wal);
        let mut moved = false;
        loop
            invariant
                self.wf(),
                !moved ==> *stream == *old(stream),
                moved ==> {
                    &&& old(stream).state != StreamState::Closed
                    &&& !old(stream).lags(self.wal)
                    &&& !stream.lags(self.wal)
                    &&& stream.state == old(stream).state
                    &&& stream.buffer == old(stream).buffer
                    &&& self.wal.spec_first_seq() <= begin < stream.cursor(self.wal)
                        <= self.wal.spec_next_seq()
                    &&& only_origin(self.wal, begin, stream.cursor(self.wal))
                },
                begin == old(stream).cursor(self.wal),
            decreases
                    (if moved {
                        0int
                    } else {
                        1int
                    }) + if stream.cursor(self.wal) <= self.wal.spec_next_seq() {
                        self.wal.spec_next_seq() - stream.cursor(self.wal)
                    } else {
                        0int
                    },
        {
            let ghost at = stream.cursor(self.wal);
            let ghost state = stream.state;
            match stream.poll(self.wal) {
                StreamStep::Event(entry) => {
                    moved = true;
                    match roll_to_tip_response(entry.event) {
                        Some(action) => {
                            assert(self.wal.retains(at));
                            return TipStep::Action(action);
                        },
                        None => {
                            assert(self.wal.at(at) is Origin);
                        },
                    }
                },
                StreamStep::Pending => {
                    return TipStep::Pending;
                },
                StreamStep::Closed => {
                    return TipStep::Closed;
                },
                StreamStep::Failed(e) => {
                    return TipStep::Failed(e);
                },
            }
        }
    }
}

/// Every point of a page read from a valid store names a block of the
/// store.
proof fn lemma_page_points_are_stored(chain: Seq<Block>, from: u64, len: nat, i: int)
    requires
        ascending(chain),
        0 <= i < page_of(points_of(chain), from, len).len(),
    ensures
        lookup(chain, page_of(points_of(chain), from, len)[i].hash) is Some,
{
    let index = points_of(chain);
    lemma_index_ascends(chain);
    lemma_rank_splits(index, from);
    let at = rank(index, from) + i;
    assert(holds_at(chain, index[at].hash, at));
}

/// The points of the pages that are had by asking for the page at `token`
/// and then, `pages - 1` times at most, for the page at the token that the
/// page before gave, until a page gives no token.
pub open spec fn follow_pages(
    index: Seq<ChainPoint>,
    token: Option<ChainPoint>,
    max_items: nat,
    pages: nat,
) -> Seq<ChainPoint>
    decreases pages,
{
    if pages == 0 {
        Seq::empty()
    } else {
        match history_next(index, token, max_items) {
            None => history_items(index, token, max_items),
            Some(next) => history_items(index, token, max_items) + follow_pages(
                index,
                Some(next),
                max_items,
                (pages - 1) as nat,
            ),
        }
    }
}

/// The pages of a store that does not change, taken one after the other
/// from the first until a page gives no token, hold the whole index in slot
/// order: every point once, none left out. More pages than the index has
/// points are never needed.
pub proof fn lemma_pages_cover_history(index: Seq<ChainPoint>, max_items: nat, pages: nat)
    requires
        ascending_points(index),
        max_items >= 1,
        pages > index.len(),
    ensures
        follow_pages(index, None, max_items, pages) == index,
{
    lemma_rank_is(index, 0, 0);
    lemma_pages_from(index, None, 0, max_items, pages);
    assert(index.skip(0) =~= index);
}

/// The pages from a token on hold the index from the token's point on.
proof fn lemma_pages_from(
    index: Seq<ChainPoint>,
    token: Option<ChainPoint>,
    at: int,
    max_items: nat,
    pages: nat,
)
    requires
        ascending_points(index),
        max_items >= 1,
        0 <= at <= index.len(),
        rank(index, start_slot(token)) == at,
        pages > index.len() - at,
    ensures
        follow_pages(index, token, max_items, pages) == index.skip(at),
    decreases pages,
{
    let read = page_read(index, token, max_items);
    if at + max_items + 1 <= index.len() {
        let next = index[at + max_items];
        assert(read.last() == next);
        assert(history_next(index, token, max_items) == Some(next));
        assert forall|i: int| 0 <= i < at + max_items implies (#[trigger] index[i]).slot
            < next.slot by {
            assert(index[i].slot < index[at + max_items].slot);
        }
        assert forall|i: int| at + max_items <= i < index.len() implies (
        #[trigger] index[i]).slot >= next.slot by {
            if i > at + max_items {
                assert(index[at + max_items].slot < index[i].slot);
            }
        }
        lemma_rank_is(index, next.slot, at + max_items);
        lemma_pages_from(index, Some(next), at + max_items, max_items, (pages - 1) as nat);
        assert(history_items(index, token, max_items) =~= index.subrange(at, at + max_items));
        assert(index.subrange(at, at + max_items) + index.skip(at + max_items) =~= index.skip(
            at,
        ));
    } else {
        assert(read =~= index.skip(at));
        assert(history_next(index, token, max_items) is None);
    }
}

/// Candidates that the log has no answer for are passed over: the follower
/// starts at the answer for the first candidate that has one.
pub proof fn lemma_first_reachable_candidate_wins(
    log: &EventLog,
    candidates: Seq<ChainPoint>,
    first: int,
)
    requires
        0 <= first < candidates.len(),
        forall|j: int|
            0 <= j < first ==> log.spec_find_sequence(seq![#[trigger] candidates[j]]) is None,
        log.spec_find_sequence(seq![candidates[first]]) is Some,
    ensures
        intersect(log, candidates) == log.spec_find_sequence(seq![candidates[first]]),
    decreases first,
{
    if first > 0 {
        let rest = candidates.drop_first();
        assert(candidates.first() == candidates[0]);
        assert forall|j: int| 0 <= j < first - 1 implies log.spec_find_sequence(
            seq![#[trigger] rest[j]],
        ) is None by {
            assert(rest[j] == candidates[j + 1]);
        }
        assert(rest[first - 1] == candidates[first]);
        lemma_first_reachable_candidate_wins(log, rest, first - 1);
    }
}

} // verus!
