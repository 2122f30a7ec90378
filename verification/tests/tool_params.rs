//! Tests of the tool parameter types and the sender-defaulting policy.

use mailbox_mcp::db::Database;
use mailbox_mcp::tools::{
    ContextDeleteParams, ContextGetParams, ContextListParams, ContextSetParams,
    DeleteMessageParams, PeekMessagesParams, ReceiveMessagesParams, SendMessageParams, sender_of,
};

fn send_params(from_agent: Option<&str>) -> SendMessageParams {
    SendMessageParams {
        project_id: "p".to_string(),
        to_agent: "bob".to_string(),
        content: "hi".to_string(),
        from_agent: from_agent.map(str::to_string),
        reference_id: None,
    }
}

#[test]
fn sender_defaults_to_anonymous_when_absent() {
    assert_eq!(sender_of(&send_params(None)), "anonymous");
}

#[test]
fn sender_defaults_to_anonymous_when_blank() {
    assert_eq!(sender_of(&send_params(Some(""))), "anonymous");
    assert_eq!(sender_of(&send_params(Some("   \t"))), "anonymous");
}

#[test]
fn sender_is_trimmed_when_given() {
    assert_eq!(sender_of(&send_params(Some("  alice "))), "alice");
    assert_eq!(sender_of(&send_params(Some("bob"))), "bob");
}

#[test]
fn defaulted_sender_passes_engine_validation() {
    let mut db = Database::new();
    let params = send_params(Some("  "));
    let from = sender_of(&params);
    let id = db
        .send_message(
            &params.project_id,
            &params.to_agent,
            &from,
            &params.content,
            params.reference_id.as_deref(),
        )
        .unwrap();
    let got = db.peek_messages("p", "bob", None).unwrap();
    assert_eq!(got.len(), 1);
    assert_eq!(got[0].id, id);
    assert_eq!(got[0].from_agent, "anonymous");
}

#[test]
fn parameter_types_carry_their_fields() {
    let set = ContextSetParams {
        key: "k".to_string(),
        value: "v".to_string(),
        project_id: Some("p".to_string()),
    };
    assert_eq!(set.key, "k");
    let get = ContextGetParams { key: "k".to_string(), project_id: None };
    assert!(get.project_id.is_none());
    let del = ContextDeleteParams { key: "k".to_string(), project_id: None };
    assert_eq!(del.key, "k");
    let list = ContextListParams { project_id: Some("p".to_string()) };
    assert_eq!(list.project_id.as_deref(), Some("p"));
    let recv = ReceiveMessagesParams {
        project_id: "p".to_string(),
        agent_id: "bob".to_string(),
        limit: Some(5),
    };
    assert_eq!(recv.limit, Some(5));
    let peek = PeekMessagesParams {
        project_id: "p".to_string(),
        agent_id: "bob".to_string(),
        limit: None,
    };
    assert!(peek.limit.is_none());
    let del_msg = DeleteMessageParams { message_id: "7".to_string() };
    assert_eq!(del_msg.message_id, "7");
}
