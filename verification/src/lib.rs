//! Incremental tailing of an append-only VRChat log file: a line parser for
//! the fixed log grammar, a tail watcher that survives truncation, an event
//! store with time-range queries, and the pure logic behind the query service.

pub mod events;
pub mod ingest;
pub mod parser;
pub mod server;
pub mod store;
pub mod text;
pub mod watcher;
