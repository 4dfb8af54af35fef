use dolos::error::{ChainError, StatusCode};
use dolos::event::{clone_bytes, LogEvent};
use dolos::point::{bytes_to_hash, hash_eq, hash_to_bytes, ChainPoint};

fn digest(tag: u8) -> [u8; 32] {
    let mut out = [0u8; 32];
    for (i, byte) in out.iter_mut().enumerate() {
        *byte = tag.wrapping_add(i as u8);
    }
    out
}

#[test]
fn bytes_to_hash_takes_exactly_32_bytes() {
    let raw: Vec<u8> = (0u8..32).collect();
    let hash = bytes_to_hash(&raw).unwrap();
    assert_eq!(hash.to_vec(), raw);
    assert_eq!(hash, digest(0));
}

#[test]
fn bytes_to_hash_refuses_other_lengths() {
    assert_eq!(bytes_to_hash(&[]), None);
    assert_eq!(bytes_to_hash(&[7u8; 31]), None);
    assert_eq!(bytes_to_hash(&[7u8; 33]), None);
    assert_eq!(bytes_to_hash(&[7u8; 64]), None);
}

#[test]
fn hash_to_bytes_and_back() {
    let hash = digest(200);
    let raw = hash_to_bytes(&hash);
    assert_eq!(raw.len(), 32);
    assert_eq!(raw[0], 200);
    assert_eq!(raw[31], 231);
    assert_eq!(bytes_to_hash(&raw), Some(hash));
}

#[test]
fn hash_eq_compares_every_byte() {
    let a = digest(1);
    let mut b = digest(1);
    assert!(hash_eq(&a, &b));
    b[31] ^= 1;
    assert!(!hash_eq(&a, &b));
    b[31] ^= 1;
    b[0] ^= 0x80;
    assert!(!hash_eq(&a, &b));
}

#[test]
fn points_differ_by_slot_or_by_hash() {
    let p = ChainPoint::new(10, digest(1));
    assert_eq!(p.slot, 10);
    assert_eq!(p.hash, digest(1));
    assert!(p.same(&ChainPoint::new(10, digest(1))));
    assert!(!p.same(&ChainPoint::new(11, digest(1))));
    assert!(!p.same(&ChainPoint::new(10, digest(2))));
}

#[test]
fn event_point_and_body() {
    let p = ChainPoint::new(5, digest(9));
    let bytes = vec![1u8, 2, 3];

    assert_eq!(LogEvent::Origin.point(), None);
    assert_eq!(LogEvent::Origin.body(), None);
    assert_eq!(LogEvent::Apply(p, bytes.clone()).point(), Some(p));
    assert_eq!(LogEvent::Apply(p, bytes.clone()).body(), Some(&bytes));
    assert_eq!(LogEvent::Undo(p, bytes.clone()).point(), Some(p));
    assert_eq!(LogEvent::Undo(p, bytes.clone()).body(), Some(&bytes));
    assert_eq!(LogEvent::Mark(p).point(), Some(p));
    assert_eq!(LogEvent::Mark(p).body(), None);
}

#[test]
fn event_kinds() {
    let p = ChainPoint::new(5, digest(9));
    let origin = LogEvent::Origin;
    let apply = LogEvent::Apply(p, vec![]);
    let undo = LogEvent::Undo(p, vec![]);
    let mark = LogEvent::Mark(p);

    assert!(origin.is_origin() && !origin.is_apply() && !origin.is_undo() && !origin.is_mark());
    assert!(!apply.is_origin() && apply.is_apply() && !apply.is_undo() && !apply.is_mark());
    assert!(!undo.is_origin() && !undo.is_apply() && undo.is_undo() && !undo.is_mark());
    assert!(!mark.is_origin() && !mark.is_apply() && !mark.is_undo() && mark.is_mark());
}

#[test]
fn only_apply_and_mark_establish_a_point() {
    let p = ChainPoint::new(5, digest(9));
    let other_slot = ChainPoint::new(6, digest(9));
    let other_hash = ChainPoint::new(5, digest(8));

    assert!(LogEvent::Apply(p, vec![1]).establishes(&p));
    assert!(LogEvent::Mark(p).establishes(&p));
    assert!(!LogEvent::Undo(p, vec![1]).establishes(&p));
    assert!(!LogEvent::Origin.establishes(&p));
    assert!(!LogEvent::Apply(p, vec![1]).establishes(&other_slot));
    assert!(!LogEvent::Mark(p).establishes(&other_hash));
}

#[test]
fn clone_keeps_the_value() {
    let p = ChainPoint::new(5, digest(9));
    let event = LogEvent::Undo(p, vec![9, 8, 7]);
    assert_eq!(event.clone(), event);
    assert_eq!(LogEvent::Origin.clone(), LogEvent::Origin);
    assert_eq!(clone_bytes(&vec![1, 2, 3]), vec![1, 2, 3]);
    assert_eq!(clone_bytes(&vec![]), Vec::<u8>::new());
}

#[test]
fn failures_map_to_boundary_codes() {
    assert_eq!(ChainError::StorageFailure.status(), StatusCode::Internal);
    assert_eq!(ChainError::InconsistentState.status(), StatusCode::Internal);
    assert_eq!(ChainError::NotFound.status(), StatusCode::NotFound);
    assert_eq!(ChainError::Lagged.status(), StatusCode::DataLoss);
}
