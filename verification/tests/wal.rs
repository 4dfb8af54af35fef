use dolos::error::ChainError;
use dolos::event::LogEvent;
use dolos::point::ChainPoint;
use dolos::wal::{EventLog, LogEntry};

fn point(slot: u64, tag: u8) -> ChainPoint {
    ChainPoint::new(slot, [tag; 32])
}

fn apply(slot: u64, tag: u8) -> LogEvent {
    LogEvent::Apply(point(slot, tag), vec![tag])
}

fn undo(slot: u64, tag: u8) -> LogEvent {
    LogEvent::Undo(point(slot, tag), vec![tag])
}

fn sample() -> EventLog {
    // 0 Origin, 1 Apply a, 2 Apply b, 3 Undo b, 4 Mark a, 5 Apply c
    let mut log = EventLog::new();
    log.append(apply(10, 0xA)).unwrap();
    log.append(apply(11, 0xB)).unwrap();
    log.append(undo(11, 0xB)).unwrap();
    log.append(LogEvent::Mark(point(10, 0xA))).unwrap();
    log.append(apply(11, 0xC)).unwrap();
    log
}

#[test]
fn a_new_log_holds_origin_under_zero() {
    let log = EventLog::new();
    assert_eq!(log.len(), 1);
    assert_eq!(log.first_seq(), 0);
    assert_eq!(log.next_seq(), 1);
    assert_eq!(log.get(0), Ok(Some(&LogEvent::Origin)));
}

#[test]
fn append_hands_out_consecutive_numbers() {
    let mut log = EventLog::new();
    assert_eq!(log.append(apply(10, 1)), Ok(1));
    assert_eq!(log.append(apply(5, 2)), Ok(2));
    assert_eq!(log.append(undo(5, 2)), Ok(3));
    assert_eq!(log.next_seq(), 4);
    assert_eq!(log.len(), 4);
    assert_eq!(log.get(1), Ok(Some(&apply(10, 1))));
    assert_eq!(log.get(2), Ok(Some(&apply(5, 2))));
    assert_eq!(log.get(3), Ok(Some(&undo(5, 2))));
}

#[test]
fn get_tells_pruned_from_not_yet_written() {
    let mut log = sample();
    log.prune_before(2);
    assert_eq!(log.get(0), Err(ChainError::NotFound));
    assert_eq!(log.get(1), Err(ChainError::NotFound));
    assert_eq!(log.get(2), Ok(Some(&apply(11, 0xB))));
    assert_eq!(log.get(5), Ok(Some(&apply(11, 0xC))));
    assert_eq!(log.get(6), Ok(None));
    assert_eq!(log.get(u64::MAX), Ok(None));
}

#[test]
fn read_from_is_ordered_gapless_and_bounded() {
    let log = sample();

    let all = log.read_from(0, 100).unwrap();
    assert_eq!(all.len(), 6);
    for (i, entry) in all.iter().enumerate() {
        assert_eq!(entry.seq, i as u64);
    }
    assert_eq!(all[0].event, LogEvent::Origin);
    assert_eq!(all[5].event, apply(11, 0xC));

    let middle = log.read_from(2, 2).unwrap();
    assert_eq!(
        middle,
        vec![
            LogEntry { seq: 2, event: apply(11, 0xB) },
            LogEntry { seq: 3, event: undo(11, 0xB) },
        ]
    );

    assert_eq!(log.read_from(5, 10).unwrap(), vec![LogEntry { seq: 5, event: apply(11, 0xC) }]);
    assert_eq!(log.read_from(3, 0).unwrap(), vec![]);
}

#[test]
fn read_from_beyond_the_end_is_empty_not_an_error() {
    let log = sample();
    assert_eq!(log.read_from(6, 10), Ok(vec![]));
    assert_eq!(log.read_from(1_000, 10), Ok(vec![]));
}

#[test]
fn read_from_a_pruned_number_is_not_found() {
    let mut log = sample();
    log.prune_before(3);
    assert_eq!(log.read_from(2, 10), Err(ChainError::NotFound));
    assert_eq!(log.read_from(0, 0), Err(ChainError::NotFound));
    let rest = log.read_from(3, 10).unwrap();
    assert_eq!(rest.len(), 3);
    assert_eq!(rest[0].seq, 3);
}

#[test]
fn read_from_restarts_where_it_left_off() {
    let log = sample();
    let mut seen = Vec::new();
    let mut next = 0u64;
    loop {
        let page = log.read_from(next, 4).unwrap();
        if page.is_empty() {
            break;
        }
        next = page.last().unwrap().seq + 1;
        seen.extend(page);
    }
    assert_eq!(seen, log.read_from(0, 100).unwrap());
}

#[test]
fn find_sequence_gives_the_highest_match() {
    let log = sample();
    // a is applied under 1 and marked under 4
    assert_eq!(log.find_sequence(&[point(10, 0xA)]), Some(4));
    assert_eq!(log.find_sequence(&[point(11, 0xB)]), Some(2));
    assert_eq!(log.find_sequence(&[point(11, 0xC)]), Some(5));
    assert_eq!(log.find_sequence(&[point(11, 0xB), point(10, 0xA)]), Some(4));
    assert_eq!(log.find_sequence(&[point(10, 0xA), point(11, 0xC)]), Some(5));
}

#[test]
fn find_sequence_needs_slot_and_hash_and_ignores_undo() {
    let mut log = EventLog::new();
    log.append(undo(11, 0xB)).unwrap();
    assert_eq!(log.find_sequence(&[point(11, 0xB)]), None);
    let log = sample();
    assert_eq!(log.find_sequence(&[point(10, 0xB)]), None);
    assert_eq!(log.find_sequence(&[point(12, 0xC)]), None);
    assert_eq!(log.find_sequence(&[]), None);
}

#[test]
fn find_sequence_does_not_see_pruned_records() {
    let mut log = sample();
    log.prune_before(3);
    assert_eq!(log.find_sequence(&[point(11, 0xB)]), None);
    assert_eq!(log.find_sequence(&[point(10, 0xA)]), Some(4));
}

#[test]
fn prune_keeps_the_numbers_of_what_stays() {
    let mut log = sample();
    log.prune_before(4);
    assert_eq!(log.first_seq(), 4);
    assert_eq!(log.next_seq(), 6);
    assert_eq!(log.len(), 2);
    assert_eq!(log.get(4), Ok(Some(&LogEvent::Mark(point(10, 0xA)))));
    assert_eq!(log.append(apply(12, 0xD)), Ok(6));
}

#[test]
fn prune_below_the_first_record_changes_nothing() {
    let mut log = sample();
    log.prune_before(3);
    log.prune_before(1);
    log.prune_before(3);
    assert_eq!(log.first_seq(), 3);
    assert_eq!(log.len(), 3);
}

#[test]
fn prune_beyond_the_end_empties_the_log() {
    let mut log = sample();
    log.prune_before(1_000);
    assert_eq!(log.len(), 0);
    assert_eq!(log.first_seq(), 6);
    assert_eq!(log.next_seq(), 6);
    assert_eq!(log.get(5), Err(ChainError::NotFound));
    assert_eq!(log.get(6), Ok(None));
    assert_eq!(log.append(apply(12, 0xD)), Ok(6));
    assert_eq!(log.get(6), Ok(Some(&apply(12, 0xD))));
}

#[test]
fn a_restored_log_goes_on_where_it_was_left() {
    let mut log = EventLog::restore(40, vec![apply(7, 1), undo(7, 1)]).unwrap();
    assert_eq!(log.first_seq(), 40);
    assert_eq!(log.next_seq(), 42);
    assert_eq!(log.get(39), Err(ChainError::NotFound));
    assert_eq!(log.get(41), Ok(Some(&undo(7, 1))));
    assert_eq!(log.append(apply(8, 2)), Ok(42));
    assert_eq!(log.find_sequence(&[point(7, 1)]), Some(40));
}

#[test]
fn restore_refuses_numbers_beyond_u64() {
    assert!(EventLog::restore(u64::MAX, vec![apply(7, 1)]).is_none());
    assert!(EventLog::restore(u64::MAX - 1, vec![apply(7, 1), undo(7, 1)]).is_none());
    assert!(EventLog::restore(u64::MAX, vec![]).is_some());
    assert!(EventLog::restore(u64::MAX - 1, vec![apply(7, 1)]).is_some());
}

#[test]
fn append_fails_when_the_numbers_are_used_up() {
    let mut log = EventLog::restore(u64::MAX - 2, vec![apply(7, 1)]).unwrap();
    assert_eq!(log.append(apply(8, 2)), Ok(u64::MAX - 1));
    assert_eq!(log.next_seq(), u64::MAX);
    assert_eq!(log.append(apply(9, 3)), Err(ChainError::StorageFailure));
    assert_eq!(log.append(apply(9, 3)), Err(ChainError::StorageFailure));
    assert_eq!(log.len(), 2);
    assert_eq!(log.next_seq(), u64::MAX);
    assert_eq!(log.get(u64::MAX - 1), Ok(Some(&apply(8, 2))));
    assert_eq!(log.get(u64::MAX), Ok(None));
}
