//! Tests of the scoped context store.

use mailbox_mcp::db::{Database, DbError, MAX_CONTEXT_VALUE_SIZE};

#[test]
fn set_then_get_returns_value() {
    let mut db = Database::new();
    db.context_set(None, "greeting", "hello").unwrap();
    let got = db.context_get(None, "greeting").unwrap();
    assert_eq!(got.as_deref(), Some("hello"));
}

#[test]
fn second_set_overwrites_first() {
    let mut db = Database::new();
    db.context_set(Some("proj"), "k", "v1").unwrap();
    db.context_set(Some("proj"), "k", "v2").unwrap();
    let got = db.context_get(Some("proj"), "k").unwrap();
    assert_eq!(got.as_deref(), Some("v2"));
    let keys = db.context_list(Some("proj")).unwrap();
    assert_eq!(keys, vec!["k".to_string()]);
}

#[test]
fn empty_key_rejected_in_every_scope() {
    let mut db = Database::new();
    for scope in [None, Some("p")] {
        match db.context_set(scope, "", "v") {
            Err(DbError::EmptyField { field }) => assert_eq!(field, "key"),
            other => panic!("expected EmptyField, got {:?}", other),
        }
        match db.context_set(scope, " \t\n ", "v") {
            Err(DbError::EmptyField { field }) => assert_eq!(field, "key"),
            other => panic!("expected EmptyField, got {:?}", other),
        }
    }
    assert!(db.context_list(None).unwrap().is_empty());
    assert!(db.context_list(Some("p")).unwrap().is_empty());
}

#[test]
fn value_size_boundary() {
    let mut db = Database::new();
    let at_limit = "x".repeat(MAX_CONTEXT_VALUE_SIZE);
    assert!(db.context_set(None, "big", &at_limit).is_ok());
    assert_eq!(db.context_get(None, "big").unwrap().as_deref(), Some(at_limit.as_str()));
    let over_limit = "x".repeat(MAX_CONTEXT_VALUE_SIZE + 1);
    match db.context_set(None, "bigger", &over_limit) {
        Err(DbError::ContentTooLarge { size, limit }) => {
            assert_eq!(size, 65537);
            assert_eq!(limit, 65536);
        }
        other => panic!("expected ContentTooLarge, got {:?}", other),
    }
    assert!(db.context_get(None, "bigger").unwrap().is_none());
}

#[test]
fn scopes_are_independent() {
    let mut db = Database::new();
    db.context_set(Some("p"), "k", "a").unwrap();
    db.context_set(None, "k", "b").unwrap();
    assert_eq!(db.context_get(Some("p"), "k").unwrap().as_deref(), Some("a"));
    assert_eq!(db.context_get(None, "k").unwrap().as_deref(), Some("b"));
    assert!(db.context_get(Some("q"), "k").unwrap().is_none());
    assert!(db.context_delete(None, "k").unwrap());
    assert_eq!(db.context_get(Some("p"), "k").unwrap().as_deref(), Some("a"));
}

#[test]
fn set_trims_key_but_get_does_not() {
    let mut db = Database::new();
    db.context_set(None, "  padded  ", "v").unwrap();
    assert_eq!(db.context_get(None, "padded").unwrap().as_deref(), Some("v"));
    assert!(db.context_get(None, "  padded  ").unwrap().is_none());
}

#[test]
fn get_missing_key_is_not_an_error() {
    let db = Database::new();
    assert!(db.context_get(None, "nothing").unwrap().is_none());
}

#[test]
fn delete_reports_presence_and_is_idempotent() {
    let mut db = Database::new();
    db.context_set(None, "k", "v").unwrap();
    assert!(db.context_delete(None, "k").unwrap());
    assert!(!db.context_delete(None, "k").unwrap());
    assert!(db.context_get(None, "k").unwrap().is_none());
}

#[test]
fn list_returns_sorted_keys_per_scope() {
    let mut db = Database::new();
    db.context_set(None, "banana", "1").unwrap();
    db.context_set(None, "apple", "2").unwrap();
    db.context_set(None, "cherry", "3").unwrap();
    db.context_set(Some("p"), "zebra", "4").unwrap();
    let global = db.context_list(None).unwrap();
    assert_eq!(global, vec!["apple".to_string(), "banana".to_string(), "cherry".to_string()]);
    let project = db.context_list(Some("p")).unwrap();
    assert_eq!(project, vec!["zebra".to_string()]);
}

#[test]
fn list_has_no_duplicates_after_overwrites() {
    let mut db = Database::new();
    db.context_set(None, "k", "v1").unwrap();
    db.context_set(None, "k", "v2").unwrap();
    db.context_set(None, "k", "v3").unwrap();
    assert_eq!(db.context_list(None).unwrap(), vec!["k".to_string()]);
}
