//! Request parameter types for the tool layer, and the sender-defaulting
//! policy the send tool applies before it calls the storage engine.

use vstd::prelude::*;

use crate::strings::{blank, is_space_char, lemma_trim_idempotent, trim_end_spec, trim_spec,
    trim_start_spec, trim_str};

verus! {

/// Parameters of the context-set tool.
#[derive(Debug)]
pub struct ContextSetParams {
    /// The key to set (non-empty string).
    pub key: String,
    /// The value to store (max 65,536 bytes).
    pub value: String,
    /// Project id. `None` for global context.
    pub project_id: Option<String>,
}

/// Parameters of the context-get tool.
#[derive(Debug)]
pub struct ContextGetParams {
    /// The key to retrieve.
    pub key: String,
    /// Project id. `None` for global context.
    pub project_id: Option<String>,
}

/// Parameters of the context-delete tool.
#[derive(Debug)]
pub struct ContextDeleteParams {
    /// The key to delete.
    pub key: String,
    /// Project id. `None` for global context.
    pub project_id: Option<String>,
}

/// Parameters of the context-list tool.
#[derive(Debug)]
pub struct ContextListParams {
    /// Project id. `None` for global context.
    pub project_id: Option<String>,
}

/// Parameters of the send tool.
#[derive(Debug)]
pub struct SendMessageParams {
    /// Project id. Required, cannot be blank.
    pub project_id: String,
    /// Target agent to receive the message. Required, cannot be blank.
    pub to_agent: String,
    /// Message content (max 1,048,576 bytes).
    pub content: String,
    /// Sender agent id. Defaults to "anonymous" when absent or blank.
    pub from_agent: Option<String>,
    /// Reference to a previous message id, for request/response linking.
    pub reference_id: Option<String>,
}

/// Parameters of the receive tool.
#[derive(Debug)]
pub struct ReceiveMessagesParams {
    /// Project id.
    pub project_id: String,
    /// Agent to receive messages for.
    pub agent_id: String,
    /// Maximum messages to receive (default 100, capped at 500).
    pub limit: Option<u32>,
}

/// Parameters of the peek tool.
#[derive(Debug)]
pub struct PeekMessagesParams {
    /// Project id.
    pub project_id: String,
    /// Agent to peek messages for.
    pub agent_id: String,
    /// Maximum messages to peek (default 100, capped at 500).
    pub limit: Option<u32>,
}

/// Parameters of the delete-message tool.
#[derive(Debug)]
pub struct DeleteMessageParams {
    /// Message id to delete (decimal string).
    pub message_id: String,
}

/// The sender name used when a send request names none.
fn anonymous_name() -> (r: String)
    ensures
        r@ == "anonymous"@,
        !blank(r@),
{
    proof {
        reveal_strlit("anonymous");
        let s = "anonymous"@;
        assert(s.len() == 9);
        assert(!is_space_char(s[0]));
        assert(trim_start_spec(s) == s);
        assert(!is_space_char(s[s.len() - 1]));
        assert(trim_end_spec(s) == s);
    }
    "anonymous".to_owned()
}

/// The effective sender of a send request: the trimmed `from_agent`, or
/// "anonymous" when the caller supplied none or a blank one. The result is
/// never blank, so the storage engine's sender validation accepts it.
pub fn sender_of(params: &SendMessageParams) -> (r: String)
    ensures
        match params.from_agent {
            Some(s) => if blank(s@) {
                r@ == "anonymous"@
            } else {
                r@ == trim_spec(s@)
            },
            None => r@ == "anonymous"@,
        },
        !blank(r@),
{
    match &params.from_agent {
        Some(s) => {
            let t = trim_str(s.as_str());
            if t.as_str().is_empty() {
                anonymous_name()
            } else {
                proof {
                    lemma_trim_idempotent(s@);
                }
                t
            }
        },
        None => anonymous_name(),
    }
}

} // verus!
