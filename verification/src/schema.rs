//! Data model: records, checkpoints, and the store's error taxonomy.

use vstd::prelude::*;

verus! {

/// Errors surfaced by store operations.
///
/// A missing key is not an error: point reads return `None` and
/// enumerations return an empty vector in that case.
#[derive(Debug)]
pub enum DatabaseError {
    /// Any failure reaching, querying, or writing to the ledger.
    AvailError(String),
    /// Encode/decode failure when preparing data for the ledger.
    SerializationError(String),
}

/// A logical key/value entry, as it is appended to the ledger.
///
/// Records are never mutated or deleted; an update is a new append, and
/// the current value for a key is the most recently appended record
/// carrying that key.
#[derive(Debug, Clone)]
pub struct Record {
    /// Caller-supplied identifier; lookups match on it.
    pub key: String,
    /// Arbitrary string payload.
    pub value: String,
    /// Timestamp (milliseconds) assigned at creation; immutable.
    pub created_at: u64,
    /// Never populated by the write path: an update is a new append.
    pub updated_at: Option<u64>,
    /// Globally unique identifier assigned at creation; not used for lookups.
    pub id: String,
}

/// The mathematical view of a [`Record`].
pub ghost struct RecordV {
    pub key: Seq<char>,
    pub value: Seq<char>,
    pub created_at: u64,
    pub updated_at: Option<u64>,
    pub id: Seq<char>,
}

impl View for Record {
    type V = RecordV;

    open spec fn view(&self) -> RecordV {
        RecordV {
            key: self.key@,
            value: self.value@,
            created_at: self.created_at,
            updated_at: self.updated_at,
            id: self.id@,
        }
    }
}

impl DeepView for Record {
    type V = RecordV;

    open spec fn deep_view(&self) -> RecordV {
        self.view()
    }
}

/// Per-namespace bookkeeping, appended to the same ledger stream as records.
///
/// Exactly one logical "current" checkpoint exists per namespace; since
/// checkpoints are appended, never overwritten, discovery always adopts the
/// most recently appended one.
#[derive(Debug, Clone)]
pub struct DatabaseMetadata {
    /// Advisory write counter; not authoritative and not used by reads.
    pub record_count: u64,
    /// Timestamp (milliseconds) of the last checkpoint write.
    pub last_updated: u64,
    /// Ledger height from which scans begin; fixed at namespace creation
    /// and copied forward unchanged by every later checkpoint.
    pub start_height: u64,
}

/// The mathematical view of a [`DatabaseMetadata`].
pub ghost struct MetadataV {
    pub record_count: u64,
    pub last_updated: u64,
    pub start_height: u64,
}

impl View for DatabaseMetadata {
    type V = MetadataV;

    open spec fn view(&self) -> MetadataV {
        MetadataV {
            record_count: self.record_count,
            last_updated: self.last_updated,
            start_height: self.start_height,
        }
    }
}

/// Relies on `std::time::SystemTime::now`, read as the duration since
/// the Unix epoch: the current time in milliseconds.  A clock set before
/// the epoch reads as zero and a duration too large for a `u64` of
/// milliseconds saturates, so the call returns on every clock state and
/// never aborts.  The result depends on the clock, so nothing is
/// promised of it.
#[verifier::external_body]
pub(crate) fn now_millis() -> u64 {
    match std::time::SystemTime::now().duration_since(std::time::UNIX_EPOCH) {
        Ok(d) => u64::try_from(d.as_millis()).unwrap_or(u64::MAX),
        Err(_) => 0,
    }
}

/// Relies on `uuid::Uuid::new_v4` and its `Display` form: a fresh random
/// version-4 identifier rendered in the 36-character hyphenated form.
/// The value is random, so only its length is promised.
#[verifier::external_body]
fn fresh_uuid() -> (r: String)
    ensures
        r@.len() == 36,
{
    uuid::Uuid::new_v4().to_string()
}

impl Record {
    /// A fresh record: caller-supplied key and value, a newly generated
    /// unique id, creation time taken from the clock, and no update
    /// timestamp — an update is a new append, never an in-place edit.
    pub fn new(key: String, value: String) -> (r: Record)
        ensures
            r@.key == key@,
            r@.value == value@,
            r@.updated_at is None,
            r@.id.len() == 36,
    {
        Record {
            key,
            value,
            created_at: now_millis(),
            updated_at: None,
            id: fresh_uuid(),
        }
    }
}

impl Default for DatabaseMetadata {
    /// A checkpoint for a namespace with no writes yet, scanned from the
    /// lowest height.
    fn default() -> (r: Self)
        ensures
            r.record_count == 0,
            r.start_height == 1,
    {
        DatabaseMetadata { record_count: 0, last_updated: now_millis(), start_height: 1 }
    }
}

} // verus!
