//! A key-value store whose durable medium is a remote, append-only ledger.
//!
//! The ledger stores opaque blobs under a namespace; the store gives
//! write / point-read / enumerate semantics on top of it by appending
//! encoded records and bookkeeping checkpoints, and by scanning a bounded
//! height window with last-write-wins resolution.

pub mod codec;
pub mod schema;
pub mod store;

pub use schema::DatabaseError;
pub use schema::DatabaseMetadata;
pub use schema::Record;
pub use store::DatabaseClient;
