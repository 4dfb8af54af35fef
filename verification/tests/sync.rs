use dolos::chain::ChainStore;
use dolos::error::ChainError;
use dolos::event::LogEvent;
use dolos::point::ChainPoint;
use dolos::stream::{RollStream, StreamState};
use dolos::sync::{
    found_blocks, page_window, resolve_page, roll_to_tip_response, split_page,
    ChainSyncServiceImpl, Negotiation, NegotiationStep, TipAction, TipStep,
};
use dolos::wal::EventLog;

fn point(slot: u64, tag: u8) -> ChainPoint {
    ChainPoint::new(slot, [tag; 32])
}

fn body(tag: u8) -> Vec<u8> {
    vec![tag; 3]
}

fn store(slots: std::ops::RangeInclusive<u64>) -> ChainStore {
    let mut chain = ChainStore::new();
    for slot in slots {
        chain.insert(point(slot, slot as u8), body(slot as u8)).unwrap();
    }
    chain
}

fn forked_log() -> EventLog {
    // 0 Origin, 1 Apply a, 2 Apply b, 3 Undo b, 4 Mark a, 5 Apply c
    let mut log = EventLog::new();
    log.append(LogEvent::Apply(point(10, 0xA), body(0xA))).unwrap();
    log.append(LogEvent::Apply(point(11, 0xB), body(0xB))).unwrap();
    log.append(LogEvent::Undo(point(11, 0xB), body(0xB))).unwrap();
    log.append(LogEvent::Mark(point(10, 0xA))).unwrap();
    log.append(LogEvent::Apply(point(11, 0xC), body(0xC))).unwrap();
    log
}

fn hear_all(service: &ChainSyncServiceImpl, stream: &mut RollStream) -> Vec<TipAction> {
    let mut heard = Vec::new();
    loop {
        match service.next_action(stream) {
            TipStep::Action(action) => heard.push(action),
            TipStep::Pending => return heard,
            other => panic!("unexpected step {:?}", other),
        }
    }
}

#[test]
fn every_record_but_origin_is_an_action() {
    let p = point(3, 3);
    assert_eq!(
        roll_to_tip_response(LogEvent::Apply(p, vec![1, 2])),
        Some(TipAction::Apply(vec![1, 2]))
    );
    assert_eq!(
        roll_to_tip_response(LogEvent::Undo(p, vec![1, 2])),
        Some(TipAction::Undo(vec![1, 2]))
    );
    assert_eq!(roll_to_tip_response(LogEvent::Mark(p)), Some(TipAction::Reset(p)));
    assert_eq!(roll_to_tip_response(LogEvent::Origin), None);
}

#[test]
fn found_blocks_leaves_out_the_misses() {
    let found = vec![None, Some(vec![1u8]), None, Some(vec![2u8, 2]), Some(vec![]), None];
    assert_eq!(found_blocks(&found), vec![vec![1u8], vec![2, 2], vec![]]);
    assert_eq!(found_blocks(&vec![None, None]), Vec::<Vec<u8>>::new());
    assert_eq!(found_blocks(&vec![]), Vec::<Vec<u8>>::new());
}

#[test]
fn resolve_page_fails_whole_on_one_miss() {
    let complete = vec![Some(vec![1u8]), Some(vec![2u8, 2])];
    assert_eq!(resolve_page(&complete), Ok(vec![vec![1u8], vec![2, 2]]));
    assert_eq!(resolve_page(&vec![]), Ok(vec![]));
    let short = vec![Some(vec![1u8]), None, Some(vec![3u8])];
    assert_eq!(resolve_page(&short), Err(ChainError::InconsistentState));
    assert_eq!(resolve_page(&vec![None]), Err(ChainError::InconsistentState));
}

#[test]
fn a_page_is_read_with_one_extra() {
    assert_eq!(page_window(None, 2), (0, 3));
    assert_eq!(page_window(Some(77), 10), (77, 11));
    assert_eq!(page_window(None, 0), (0, 1));
    assert_eq!(page_window(Some(u64::MAX), u32::MAX), (u64::MAX, 4_294_967_296));
}

#[test]
fn the_extra_point_becomes_the_token() {
    let read = vec![point(1, 1), point(2, 2), point(3, 3)];
    assert_eq!(split_page(read.clone(), 2), (vec![point(1, 1), point(2, 2)], Some(point(3, 3))));
    assert_eq!(split_page(read.clone(), 3), (read.clone(), None));
    assert_eq!(split_page(read.clone(), 1), (read.clone(), None));
    assert_eq!(split_page(vec![], 2), (vec![], None));
    assert_eq!(split_page(vec![point(1, 1)], 0), (vec![], Some(point(1, 1))));
}

#[test]
fn fetch_block_gives_what_the_store_has() {
    let chain = store(1..=4);
    let log = EventLog::new();
    let service = ChainSyncServiceImpl::new(&log, &chain);
    let refs = [point(3, 3), point(9, 9), point(1, 1), point(3, 3)];
    assert_eq!(service.fetch_block(&refs), vec![body(3), body(1), body(3)]);
    assert_eq!(service.fetch_block(&[point(9, 9)]), Vec::<Vec<u8>>::new());
    assert_eq!(service.fetch_block(&[]), Vec::<Vec<u8>>::new());
}

#[test]
fn fetch_block_goes_by_the_digest_alone() {
    let chain = store(1..=4);
    let log = EventLog::new();
    let service = ChainSyncServiceImpl::new(&log, &chain);
    assert_eq!(service.fetch_block(&[point(999, 2)]), vec![body(2)]);
}

#[test]
fn all_pages_together_are_the_whole_history() {
    let chain = store(1..=10);
    let log = EventLog::new();
    let service = ChainSyncServiceImpl::new(&log, &chain);
    let whole: Vec<Vec<u8>> = (1..=10u8).map(body).collect();
    for max_items in [1u32, 2, 3, 4, 9, 10, 11, 1000] {
        let mut blocks = Vec::new();
        let mut token = None;
        let mut pages = 0;
        loop {
            let page = service.dump_history(token, max_items).unwrap();
            assert!(page.block.len() <= max_items as usize);
            blocks.extend(page.block);
            pages += 1;
            token = page.next_token;
            if token.is_none() {
                break;
            }
        }
        assert_eq!(blocks, whole);
        assert!(pages <= 11);
    }
}

#[test]
fn asking_for_a_page_twice_gives_it_twice() {
    let chain = store(1..=10);
    let log = EventLog::new();
    let service = ChainSyncServiceImpl::new(&log, &chain);
    let token = Some(point(4, 4));
    let once = service.dump_history(token, 3).unwrap();
    let twice = service.dump_history(token, 3).unwrap();
    assert_eq!(once, twice);
    assert_eq!(once.block, vec![body(4), body(5), body(6)]);
    assert_eq!(once.next_token, Some(point(7, 7)));
}

#[test]
fn the_last_page_may_be_full() {
    let chain = store(1..=4);
    let log = EventLog::new();
    let service = ChainSyncServiceImpl::new(&log, &chain);
    let page = service.dump_history(Some(point(3, 3)), 2).unwrap();
    assert_eq!(page.block, vec![body(3), body(4)]);
    assert_eq!(page.next_token, None);
}

#[test]
fn a_page_of_no_items_points_at_where_it_stands() {
    let chain = store(1..=3);
    let log = EventLog::new();
    let service = ChainSyncServiceImpl::new(&log, &chain);
    let page = service.dump_history(None, 0).unwrap();
    assert_eq!(page.block, Vec::<Vec<u8>>::new());
    assert_eq!(page.next_token, Some(point(1, 1)));
    let again = service.dump_history(page.next_token, 0).unwrap();
    assert_eq!(again.next_token, Some(point(1, 1)));
}

#[test]
fn history_of_an_empty_store_is_one_empty_page() {
    let chain = ChainStore::new();
    let log = EventLog::new();
    let service = ChainSyncServiceImpl::new(&log, &chain);
    let page = service.dump_history(None, 5).unwrap();
    assert_eq!(page.block, Vec::<Vec<u8>>::new());
    assert_eq!(page.next_token, None);
}

#[test]
fn a_token_between_slots_starts_at_the_next_block() {
    let mut chain = ChainStore::new();
    for slot in [10u64, 20, 30] {
        chain.insert(point(slot, slot as u8), body(slot as u8)).unwrap();
    }
    let log = EventLog::new();
    let service = ChainSyncServiceImpl::new(&log, &chain);
    let page = service.dump_history(Some(point(15, 0)), 5).unwrap();
    assert_eq!(page.block, vec![body(20), body(30)]);
    assert_eq!(page.next_token, None);
    let beyond = service.dump_history(Some(point(31, 0)), 5).unwrap();
    assert_eq!(beyond.block, Vec::<Vec<u8>>::new());
    assert_eq!(beyond.next_token, None);
}

#[test]
fn negotiation_without_candidates_starts_from_the_beginning() {
    let (_, step) = Negotiation::begin(vec![]);
    assert_eq!(step, NegotiationStep::Start(RollStream::start(None)));
}

#[test]
fn negotiation_asks_in_order_until_one_is_found() {
    let candidates = vec![point(1, 1), point(2, 2), point(3, 3)];
    let (mut negotiation, step) = Negotiation::begin(candidates);
    assert_eq!(step, NegotiationStep::Ask(point(1, 1)));
    assert_eq!(negotiation.answer(Ok(None)), NegotiationStep::Ask(point(2, 2)));
    assert_eq!(
        negotiation.answer(Ok(Some(42))),
        NegotiationStep::Start(RollStream::start(Some(42)))
    );
    // the negotiation is over
    assert_eq!(negotiation.answer(Ok(Some(43))), NegotiationStep::Fail(ChainError::NotFound));
    assert_eq!(negotiation.answer(Ok(None)), NegotiationStep::Fail(ChainError::NotFound));
}

#[test]
fn negotiation_fails_with_not_found_after_the_last_candidate() {
    let (mut negotiation, step) = Negotiation::begin(vec![point(1, 1), point(2, 2)]);
    assert_eq!(step, NegotiationStep::Ask(point(1, 1)));
    assert_eq!(negotiation.answer(Ok(None)), NegotiationStep::Ask(point(2, 2)));
    assert_eq!(negotiation.answer(Ok(None)), NegotiationStep::Fail(ChainError::NotFound));
}

#[test]
fn negotiation_hands_on_a_failed_lookup() {
    let (mut negotiation, _) = Negotiation::begin(vec![point(1, 1), point(2, 2)]);
    assert_eq!(
        negotiation.answer(Err(ChainError::StorageFailure)),
        NegotiationStep::Fail(ChainError::StorageFailure)
    );
    assert_eq!(negotiation.answer(Ok(None)), NegotiationStep::Fail(ChainError::NotFound));
}

#[test]
fn follow_tip_takes_the_reachable_candidate() {
    let log = forked_log();
    let chain = ChainStore::new();
    let service = ChainSyncServiceImpl::new(&log, &chain);

    let unreachable = point(99, 0x99);
    let reachable = point(11, 0xB);
    let mut stream = service.follow_tip(&[unreachable, reachable]).unwrap();
    assert_eq!(stream, RollStream::start(Some(2)));
    assert_eq!(
        hear_all(&service, &mut stream),
        vec![
            TipAction::Undo(body(0xB)),
            TipAction::Reset(point(10, 0xA)),
            TipAction::Apply(body(0xC)),
        ]
    );
}

#[test]
fn follow_tip_takes_the_first_of_several_reachable_candidates() {
    let log = forked_log();
    let chain = ChainStore::new();
    let service = ChainSyncServiceImpl::new(&log, &chain);
    // c is under 5, b under 2: the order of the candidates decides
    assert_eq!(
        service.follow_tip(&[point(11, 0xB), point(11, 0xC)]),
        Ok(RollStream::start(Some(2)))
    );
    assert_eq!(
        service.follow_tip(&[point(11, 0xC), point(11, 0xB)]),
        Ok(RollStream::start(Some(5)))
    );
    assert_eq!(service.follow_tip(&[point(10, 0xA)]), Ok(RollStream::start(Some(4))));
}

#[test]
fn follow_tip_without_an_intersection_is_not_found() {
    let log = forked_log();
    let chain = store(1..=3);
    let service = ChainSyncServiceImpl::new(&log, &chain);
    assert_eq!(
        service.follow_tip(&[point(99, 0x99), point(10, 0xB)]),
        Err(ChainError::NotFound)
    );
    // a point of the store alone is no point of the log
    assert_eq!(service.follow_tip(&[point(2, 2)]), Err(ChainError::NotFound));
}

#[test]
fn follow_tip_without_candidates_hears_everything_after_origin() {
    let log = forked_log();
    let chain = ChainStore::new();
    let service = ChainSyncServiceImpl::new(&log, &chain);
    let mut stream = service.follow_tip(&[]).unwrap();
    assert_eq!(stream, RollStream::start(None));
    assert_eq!(service.next_action(&mut stream), TipStep::Action(TipAction::Apply(body(0xA))));
    assert_eq!(stream.last_seen, Some(1));
}

#[test]
fn a_follower_of_an_empty_chain_hears_nothing_of_origin() {
    let mut log = EventLog::new();
    let chain = ChainStore::new();
    let mut stream = {
        let service = ChainSyncServiceImpl::new(&log, &chain);
        let mut stream = service.follow_tip(&[]).unwrap();
        assert_eq!(service.next_action(&mut stream), TipStep::Pending);
        assert_eq!(stream.state, StreamState::Tailing);
        assert_eq!(stream.last_seen, Some(0));
        stream
    };
    log.append(LogEvent::Apply(point(1, 1), body(1))).unwrap();
    let service = ChainSyncServiceImpl::new(&log, &chain);
    assert_eq!(service.next_action(&mut stream), TipStep::Action(TipAction::Apply(body(1))));
    assert_eq!(service.next_action(&mut stream), TipStep::Pending);
}

#[test]
fn a_closed_follower_stays_closed() {
    let log = forked_log();
    let chain = ChainStore::new();
    let service = ChainSyncServiceImpl::new(&log, &chain);
    let mut stream = service.follow_tip(&[]).unwrap();
    stream.close();
    assert_eq!(service.next_action(&mut stream), TipStep::Closed);
}

#[test]
fn a_follower_whose_position_was_pruned_fails_with_not_found() {
    let mut log = forked_log();
    log.prune_before(3);
    let chain = ChainStore::new();
    let service = ChainSyncServiceImpl::new(&log, &chain);
    let mut stream = RollStream::start(Some(0));
    assert_eq!(service.next_action(&mut stream), TipStep::Failed(ChainError::NotFound));
    assert_eq!(stream.state, StreamState::Closed);
}

#[test]
fn a_follower_that_lags_is_cut_off() {
    let mut log = EventLog::new();
    let chain = ChainStore::new();
    let mut stream = RollStream::start(None).bounded(2);
    {
        let service = ChainSyncServiceImpl::new(&log, &chain);
        assert_eq!(service.next_action(&mut stream), TipStep::Pending);
    }
    for slot in 1..=3u64 {
        log.append(LogEvent::Apply(point(slot, slot as u8), body(slot as u8))).unwrap();
    }
    let service = ChainSyncServiceImpl::new(&log, &chain);
    assert_eq!(service.next_action(&mut stream), TipStep::Failed(ChainError::Lagged));
    assert_eq!(service.next_action(&mut stream), TipStep::Closed);
}
