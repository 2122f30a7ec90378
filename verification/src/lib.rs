//! A local message relay and shared key-value store for cooperating agent
//! processes: per-(project, recipient) message queues with atomic consume,
//! and a scoped context store with independent global and project namespaces.

mod clock;
pub mod context;
pub mod db;
pub mod messages;
pub mod strings;
pub mod tools;
