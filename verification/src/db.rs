//! The storage engine: limits, the error taxonomy, and the `Database` handle
//! with its well-formedness invariant.
//!
//! The engine keeps two relations: `context`, at most one entry per
//! `(scope, key)` pair, and `messages`, ordered by creation. Message ids are
//! assigned from a monotone counter, and record timestamps never decrease,
//! so the order of a queue is exactly the order of insertion.

use vstd::prelude::*;

use crate::context::{ctx_map_of, distinct_keys, entry_key, valid_entry, ContextEntry, CtxVal};
use crate::messages::{valid_stored, StoredMessage};

verus! {

/// Maximum allowed size for message content, in UTF-8 bytes (1 MiB).
pub const MAX_MESSAGE_SIZE: usize = 1024 * 1024;

/// Maximum allowed size for context values, in UTF-8 bytes (64 KiB).
pub const MAX_CONTEXT_VALUE_SIZE: usize = 64 * 1024;

/// Maximum number of messages returned by a single query.
pub const MAX_MESSAGE_LIMIT: u32 = 500;

/// The UTF-8 byte length of a string, the measure both size limits use.
pub open spec fn byte_len(s: Seq<char>) -> usize {
    vstd::utf8::encode_utf8(s).len() as usize
}

/// Errors that can occur during storage operations.
#[derive(Debug)]
pub enum DbError {
    /// Content exceeds the maximum allowed size.
    ContentTooLarge { size: usize, limit: usize },
    /// A required string input is blank after trimming.
    EmptyField { field: &'static str },
    /// A message id that is not a decimal number.
    InvalidMessageId { id: String },
    /// The underlying store is inaccessible or exhausted.
    StorageUnavailable,
}

/// Result type for storage operations.
pub type DbResult<T> = Result<T, DbError>;

/// The storage handle. It owns all persisted state; callers that share it
/// serialize their operations by taking exclusive access, so each operation
/// is one atomic unit.
pub struct Database {
    /// Context entries, at most one per `(scope, key)` pair.
    pub contexts: Vec<ContextEntry>,
    /// Pending messages, in creation order.
    pub messages: Vec<StoredMessage>,
    /// The id the next message will receive.
    pub next_id: u64,
    /// The largest timestamp handed out so far.
    pub clock: i64,
}

impl Database {
    /// The context store as a map from `(scope, key)` to value and timestamp.
    pub open spec fn ctx(&self) -> Map<(Option<Seq<char>>, Seq<char>), CtxVal> {
        ctx_map_of(self.contexts@)
    }

    /// Well-formedness: context keys are unique, trimmed and non-empty,
    /// values within bounds; messages are valid, strictly ordered by id,
    /// ordered by timestamp, and their ids are below the id counter.
    pub open spec fn wf(&self) -> bool {
        &&& forall|i: int|
            0 <= i < self.contexts@.len() ==> #[trigger] valid_entry(self.contexts@[i])
        &&& forall|i: int|
            0 <= i < self.contexts@.len() ==> #[trigger] self.contexts@[i].updated_at
                <= self.clock
        &&& distinct_keys(self.contexts@)
        &&& forall|i: int|
            0 <= i < self.messages@.len() ==> #[trigger] valid_stored(self.messages@[i])
        &&& forall|i: int|
            0 <= i < self.messages@.len() ==> #[trigger] self.messages@[i].id < self.next_id
        &&& forall|i: int|
            0 <= i < self.messages@.len() ==> #[trigger] self.messages@[i].created_at
                <= self.clock
        &&& forall|i: int, j: int|
            0 <= i < j < self.messages@.len() ==> #[trigger] self.messages@[i].id
                < #[trigger] self.messages@[j].id
        &&& forall|i: int, j: int|
            0 <= i < j < self.messages@.len() ==> self.messages@[i].created_at
                <= self.messages@[j].created_at
        &&& self.next_id >= 1
    }

    /// Creates an empty store.
    pub fn new() -> (db: Database)
        ensures
            db.wf(),
            db.ctx() == Map::<(Option<Seq<char>>, Seq<char>), CtxVal>::empty(),
            db.messages@ == Seq::<StoredMessage>::empty(),
            db.next_id == 1,
    {
        let db = Database { contexts: Vec::new(), messages: Vec::new(), next_id: 1, clock: 0 };
        proof {
            assert(db.contexts@ =~= Seq::<ContextEntry>::empty());
            assert(db.messages@ =~= Seq::<StoredMessage>::empty());
        }
        db
    }

    /// Reads the wall clock and advances the engine's own clock to it if it
    /// moved forward; the engine's clock never goes back.
    pub(crate) fn touch_clock(&mut self) -> (t: i64)
        ensures
            t == final(self).clock,
            final(self).clock >= old(self).clock,
            final(self).contexts@ == old(self).contexts@,
            final(self).messages@ == old(self).messages@,
            final(self).next_id == old(self).next_id,
    {
        let now = crate::clock::now_millis();
        if now > self.clock {
            self.clock = now;
        }
        self.clock
    }
}

} // verus!
