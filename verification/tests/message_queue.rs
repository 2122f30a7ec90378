//! Tests of the message queues.

use mailbox_mcp::db::{Database, DbError, MAX_MESSAGE_SIZE};

#[test]
fn send_assigns_increasing_ids() {
    let mut db = Database::new();
    let a = db.send_message("p", "bob", "alice", "one", None).unwrap();
    let b = db.send_message("p", "bob", "alice", "two", None).unwrap();
    let c = db.send_message("p", "carol", "alice", "three", None).unwrap();
    assert_eq!(a, 1);
    assert_eq!(b, 2);
    assert_eq!(c, 3);
}

#[test]
fn send_validates_fields_in_order() {
    let mut db = Database::new();
    match db.send_message("  ", "bob", "alice", "hi", None) {
        Err(DbError::EmptyField { field }) => assert_eq!(field, "project_id"),
        other => panic!("expected EmptyField, got {:?}", other),
    }
    match db.send_message("p", "", "alice", "hi", None) {
        Err(DbError::EmptyField { field }) => assert_eq!(field, "to_agent"),
        other => panic!("expected EmptyField, got {:?}", other),
    }
    match db.send_message("p", "bob", " \n", "hi", None) {
        Err(DbError::EmptyField { field }) => assert_eq!(field, "from_agent"),
        other => panic!("expected EmptyField, got {:?}", other),
    }
    assert!(db.peek_messages("p", "bob", None).unwrap().is_empty());
}

#[test]
fn oversized_content_rejected_and_nothing_stored() {
    let mut db = Database::new();
    let content = "x".repeat(MAX_MESSAGE_SIZE + 1);
    match db.send_message("p", "bob", "alice", &content, None) {
        Err(DbError::ContentTooLarge { size, limit }) => {
            assert_eq!(size, 1048577);
            assert_eq!(limit, 1048576);
        }
        other => panic!("expected ContentTooLarge, got {:?}", other),
    }
    assert!(db.peek_messages("p", "bob", None).unwrap().is_empty());
}

#[test]
fn content_at_limit_accepted() {
    let mut db = Database::new();
    let content = "x".repeat(MAX_MESSAGE_SIZE);
    assert!(db.send_message("p", "bob", "alice", &content, None).is_ok());
    let got = db.peek_messages("p", "bob", None).unwrap();
    assert_eq!(got.len(), 1);
    assert_eq!(got[0].content.len(), MAX_MESSAGE_SIZE);
}

#[test]
fn receive_returns_oldest_in_order_and_never_redelivers() {
    let mut db = Database::new();
    let mut ids = Vec::new();
    for n in ["m1", "m2", "m3", "m4", "m5"] {
        ids.push(db.send_message("p", "bob", "alice", n, None).unwrap());
    }
    let first = db.receive_messages("p", "bob", Some(2)).unwrap();
    assert_eq!(first.len(), 2);
    assert_eq!(first[0].id, ids[0]);
    assert_eq!(first[0].content, "m1");
    assert_eq!(first[1].id, ids[1]);
    assert_eq!(first[1].content, "m2");
    let rest = db.receive_messages("p", "bob", None).unwrap();
    assert_eq!(rest.len(), 3);
    assert_eq!(rest[0].content, "m3");
    assert_eq!(rest[1].content, "m4");
    assert_eq!(rest[2].content, "m5");
    for m in &rest {
        assert!(!first.iter().any(|f| f.id == m.id));
    }
    assert!(db.receive_messages("p", "bob", None).unwrap().is_empty());
}

#[test]
fn receive_leaves_other_queues_untouched() {
    let mut db = Database::new();
    db.send_message("p", "bob", "alice", "for bob", None).unwrap();
    db.send_message("p", "carol", "alice", "for carol", None).unwrap();
    db.send_message("q", "bob", "alice", "other project", None).unwrap();
    let got = db.receive_messages("p", "bob", None).unwrap();
    assert_eq!(got.len(), 1);
    assert_eq!(got[0].content, "for bob");
    assert_eq!(db.peek_messages("p", "carol", None).unwrap().len(), 1);
    assert_eq!(db.peek_messages("q", "bob", None).unwrap().len(), 1);
}

#[test]
fn peek_is_idempotent_and_non_destructive() {
    let mut db = Database::new();
    db.send_message("p", "bob", "alice", "hello", None).unwrap();
    db.send_message("p", "bob", "carol", "again", None).unwrap();
    let first = db.peek_messages("p", "bob", None).unwrap();
    let second = db.peek_messages("p", "bob", None).unwrap();
    let third = db.peek_messages("p", "bob", None).unwrap();
    assert_eq!(first.len(), 2);
    for (a, b) in first.iter().zip(second.iter()).chain(first.iter().zip(third.iter())) {
        assert_eq!(a.id, b.id);
        assert_eq!(a.content, b.content);
        assert_eq!(a.from_agent, b.from_agent);
    }
    let consumed = db.receive_messages("p", "bob", None).unwrap();
    assert_eq!(consumed.len(), 2);
    assert!(db.peek_messages("p", "bob", None).unwrap().is_empty());
}

#[test]
fn receive_with_default_limit_on_empty_queue_returns_empty_list() {
    let mut db = Database::new();
    let got = db.receive_messages("p", "nobody", None).unwrap();
    assert!(got.is_empty());
}

#[test]
fn limits_are_capped_at_five_hundred() {
    let mut db = Database::new();
    for i in 0..600 {
        db.send_message("p", "bob", "alice", &format!("m{}", i), None).unwrap();
    }
    let peeked = db.peek_messages("p", "bob", Some(9999)).unwrap();
    assert_eq!(peeked.len(), 500);
    let received = db.receive_messages("p", "bob", Some(9999)).unwrap();
    assert_eq!(received.len(), 500);
    assert_eq!(db.peek_messages("p", "bob", Some(9999)).unwrap().len(), 100);
}

#[test]
fn default_limit_is_one_hundred() {
    let mut db = Database::new();
    for i in 0..150 {
        db.send_message("p", "bob", "alice", &format!("m{}", i), None).unwrap();
    }
    assert_eq!(db.peek_messages("p", "bob", None).unwrap().len(), 100);
}

#[test]
fn delete_message_distinguishes_absence_from_bad_input() {
    let mut db = Database::new();
    assert!(!db.delete_message("12345").unwrap());
    match db.delete_message("not-a-number") {
        Err(DbError::InvalidMessageId { id }) => assert_eq!(id, "not-a-number"),
        other => panic!("expected InvalidMessageId, got {:?}", other),
    }
    match db.delete_message("") {
        Err(DbError::InvalidMessageId { id }) => assert_eq!(id, ""),
        other => panic!("expected InvalidMessageId, got {:?}", other),
    }
    match db.delete_message("-3") {
        Err(DbError::InvalidMessageId { id }) => assert_eq!(id, "-3"),
        other => panic!("expected InvalidMessageId, got {:?}", other),
    }
}

#[test]
fn delete_message_removes_exactly_one_message() {
    let mut db = Database::new();
    let a = db.send_message("p", "bob", "alice", "first", None).unwrap();
    let b = db.send_message("p", "bob", "alice", "second", None).unwrap();
    assert!(db.delete_message(&a.to_string()).unwrap());
    assert!(!db.delete_message(&a.to_string()).unwrap());
    let left = db.peek_messages("p", "bob", None).unwrap();
    assert_eq!(left.len(), 1);
    assert_eq!(left[0].id, b);
    assert_eq!(left[0].content, "second");
}

#[test]
fn send_peek_receive_round_trip() {
    let mut db = Database::new();
    let id = db.send_message("p", "bob", "alice", "hi", None).unwrap();
    let peeked = db.peek_messages("p", "bob", None).unwrap();
    assert_eq!(peeked.len(), 1);
    assert_eq!(peeked[0].id, id);
    assert_eq!(peeked[0].from_agent, "alice");
    assert_eq!(peeked[0].content, "hi");
    assert!(peeked[0].reference_id.is_none());
    let received = db.receive_messages("p", "bob", None).unwrap();
    assert_eq!(received.len(), 1);
    assert_eq!(received[0].id, id);
    assert_eq!(received[0].from_agent, "alice");
    assert_eq!(received[0].content, "hi");
    assert!(received[0].reference_id.is_none());
    assert!(db.peek_messages("p", "bob", None).unwrap().is_empty());
    assert!(db.receive_messages("p", "bob", None).unwrap().is_empty());
}

#[test]
fn reference_id_is_kept_but_not_validated() {
    let mut db = Database::new();
    db.send_message("p", "bob", "alice", "reply", Some("99999")).unwrap();
    let got = db.peek_messages("p", "bob", None).unwrap();
    assert_eq!(got[0].reference_id.as_deref(), Some("99999"));
}

#[test]
fn timestamps_never_decrease_within_a_queue() {
    let mut db = Database::new();
    for i in 0..5 {
        db.send_message("p", "bob", "alice", &format!("m{}", i), None).unwrap();
    }
    let got = db.peek_messages("p", "bob", None).unwrap();
    for w in got.windows(2) {
        assert!(w[0].created_at <= w[1].created_at);
        assert!(w[0].id < w[1].id);
    }
}
