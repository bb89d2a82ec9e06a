//! The log-structured store: namespace bootstrap, the write path, and the
//! scan-based read/list path with last-write-wins resolution.
//!
//! The ledger itself is an external collaborator; the store handle works
//! on plain values.  A caller fetches the blobs of a height window —
//! ordered most recently appended first — and hands them to the functions
//! here, which make every decision: which checkpoint to adopt, what to
//! append, and which record is current for a key.

use vstd::prelude::*;

use crate::codec::cp_enc;
use crate::codec::decode_checkpoint;
use crate::codec::decode_record;
use crate::codec::encode_checkpoint;
use crate::codec::encode_record;
use crate::codec::lemma_checkpoint_round_trip;
use crate::codec::lemma_record_round_trip;
use crate::codec::lemma_shapes_disjoint;
use crate::codec::rec_enc;
use crate::codec::sp_checkpoint;
use crate::codec::valid_record;
use crate::codec::sp_record;
use crate::schema::DatabaseMetadata;
use crate::schema::MetadataV;
use crate::schema::Record;
use crate::schema::RecordV;
use crate::schema::now_millis;

verus! {

/// The default lookback window, in blocks, for discovery scans.
pub const DEFAULT_WINDOW: u32 = 10;

// ---------------------------------------------------------------------
// The scan, as mathematics
// ---------------------------------------------------------------------

/// What one blob contributes to a data scan: checkpoints are bookkeeping
/// and are skipped; anything that parses as a record is a record;
/// anything else is ignored.
pub open spec fn blob_record(b: Seq<char>) -> Option<RecordV> {
    if sp_checkpoint(b) is Some {
        None
    } else {
        sp_record(b)
    }
}

/// Discovery over a window of blobs in most-recent-first order: the first
/// blob that parses as a checkpoint is the current one.
pub open spec fn spec_discover(blobs: Seq<Seq<char>>) -> Option<MetadataV>
    decreases blobs.len(),
{
    if blobs.len() == 0 {
        None
    } else if sp_checkpoint(blobs[0]) is Some {
        sp_checkpoint(blobs[0])
    } else {
        spec_discover(blobs.drop_first())
    }
}

/// Point read over a window of blobs in most-recent-first order: the
/// first record carrying the key is its last-write-wins value.
pub open spec fn spec_get(blobs: Seq<Seq<char>>, key: Seq<char>) -> Option<RecordV>
    decreases blobs.len(),
{
    if blobs.len() == 0 {
        None
    } else {
        match blob_record(blobs[0]) {
            Some(r) => if r.key == key {
                Some(r)
            } else {
                spec_get(blobs.drop_first(), key)
            },
            None => spec_get(blobs.drop_first(), key),
        }
    }
}

/// Enumeration over a window in most-recent-first order, keeping the
/// first record seen for each key not yet in `seen` — which, given the
/// order, is the last-write-wins record per key.
pub open spec fn spec_list_seen(blobs: Seq<Seq<char>>, seen: Set<Seq<char>>) -> Seq<RecordV>
    decreases blobs.len(),
{
    if blobs.len() == 0 {
        Seq::empty()
    } else {
        let rest = blobs.drop_first();
        match blob_record(blobs[0]) {
            Some(r) => if !seen.contains(r.key) {
                seq![r] + spec_list_seen(rest, seen.insert(r.key))
            } else {
                spec_list_seen(rest, seen)
            },
            None => spec_list_seen(rest, seen),
        }
    }
}

/// Enumeration over a window: one record per distinct key.
pub open spec fn spec_list(blobs: Seq<Seq<char>>) -> Seq<RecordV> {
    spec_list_seen(blobs, Set::empty())
}

/// The set of keys carried by a sequence of records.
pub open spec fn rec_keys(rs: Seq<RecordV>) -> Set<Seq<char>> {
    Set::new(|k: Seq<char>| exists|j: int| 0 <= j < rs.len() && rs[j].key == k)
}

// ---------------------------------------------------------------------
// The store handle
// ---------------------------------------------------------------------

/// A handle on one namespace: the resolved namespace identifier, the
/// in-memory checkpoint snapshot, and the optional lookback override.
/// The snapshot is a cache over the ledger, not the source of truth.
pub struct DatabaseClient {
    /// The resolved namespace identifier all blobs are appended under.
    pub app_id: u32,
    /// The latest known checkpoint; `None` only before bootstrap.
    pub metadata: Option<DatabaseMetadata>,
    /// Optional override of [`DEFAULT_WINDOW`] for discovery scans.
    pub block_range: Option<u32>,
}

/// The scan start height of a handle: its checkpoint's `start_height`,
/// or zero when no checkpoint is held.
pub open spec fn start_height_or_zero(metadata: Option<DatabaseMetadata>) -> u64 {
    match metadata {
        Some(m) => m.start_height,
        None => 0,
    }
}

impl DatabaseClient {
    /// Bootstrap decision: given the current ledger height and the blobs
    /// of the discovery window (most recent first), either adopt the most
    /// recently appended checkpoint — keeping its `start_height` exactly,
    /// which makes repeated opens recover the height recorded at first
    /// creation — or, if none decodes, build a fresh checkpoint starting
    /// at the current height with a zero record count.
    ///
    /// In the fresh case the returned blob is the encoded new checkpoint;
    /// the caller must append it, and must discard the handle if that
    /// append fails, so that an `open` never half-succeeds.
    pub fn new(
        app_id: u32,
        block_range: Option<u32>,
        latest_height: u32,
        window_blobs: &Vec<String>,
    ) -> (r: (Self, Option<String>))
        ensures
            r.0.app_id == app_id,
            r.0.block_range == block_range,
            match spec_discover(window_blobs.deep_view()) {
                Some(cp) => r.0.metadata matches Some(m) && m@ == cp && r.1 is None,
                None => r.0.metadata matches Some(m) && m@.start_height == latest_height as u64
                    && m@.record_count == 0 && (r.1 matches Some(b) && b@ == cp_enc(m@)),
            },
    {
        match Self::discover_database(window_blobs) {
            Some(m) => (DatabaseClient { app_id, metadata: Some(m), block_range }, None),
            None => {
                let m = DatabaseMetadata {
                    start_height: latest_height as u64,
                    record_count: 0,
                    last_updated: now_millis(),
                };
                let blob = encode_checkpoint(&m);
                (DatabaseClient { app_id, metadata: Some(m), block_range }, Some(blob))
            },
        }
    }

    /// Scans a discovery window, most recent blob first, for the current
    /// checkpoint: the first blob that decodes as one.
    pub fn discover_database(blobs: &Vec<String>) -> (r: Option<DatabaseMetadata>)
        ensures
            match r {
                Some(m) => spec_discover(blobs.deep_view()) == Some(m@),
                None => spec_discover(blobs.deep_view()) is None,
            },
    {
        let ghost bv = blobs.deep_view();
        let n = blobs.len();
        let mut i: usize = 0;
        proof {
            assert(bv.skip(0) =~= bv);
        }
        while i < n
            invariant
                0 <= i <= n,
                n == blobs.len(),
                bv == blobs.deep_view(),
                bv.len() == n,
                spec_discover(bv.skip(i as int)) == spec_discover(bv),
            decreases n - i,
        {
            proof {
                assert(bv.skip(i as int)[0] == bv[i as int]);
                assert(bv.skip(i as int).drop_first() =~= bv.skip(i as int + 1));
            }
            match decode_checkpoint(blobs[i].as_str()) {
                Some(m) => {
                    return Some(m);
                },
                None => {},
            }
            i = i + 1;
        }
        proof {
            assert(bv.skip(n as int) =~= Seq::<Seq<char>>::empty());
        }
        None
    }

    /// How many blocks the discovery scan looks back: the caller-chosen
    /// override, or the default window.
    pub fn lookback_blocks(&self) -> (r: u32)
        ensures
            r == match self.block_range {
                Some(b) => b,
                None => DEFAULT_WINDOW,
            },
    {
        match self.block_range {
            Some(b) => b,
            None => DEFAULT_WINDOW,
        }
    }

    /// How many blocks a read scan covers: from the checkpoint's start
    /// height up to the current height, and nothing below the start
    /// height — records older than it stay invisible to reads.
    pub fn read_window(&self, latest_height: u32) -> (r: u32)
        ensures
            r as u64 == if latest_height as u64 >= start_height_or_zero(self.metadata) {
                latest_height as u64 - start_height_or_zero(self.metadata)
            } else {
                0
            },
    {
        let db_start = match &self.metadata {
            Some(m) => m.start_height,
            None => 0,
        };
        if latest_height as u64 >= db_start {
            (latest_height as u64 - db_start) as u32
        } else {
            0
        }
    }

    /// The write-path append for a record: its encoded blob.  The caller
    /// appends it to the namespace; on failure the operation is aborted
    /// with the handle unchanged, and no checkpoint update follows.
    pub fn add_record(&self, record: &Record) -> (r: String)
        ensures
            r@ == rec_enc(record@),
    {
        encode_record(record)
    }

    /// The write-path bookkeeping once the record blob has been accepted:
    /// derives the refreshed checkpoint — record count bumped, start
    /// height copied forward unchanged — adopts it as the in-memory
    /// snapshot, and returns its encoding for the caller to append.  The
    /// snapshot is adopted regardless of how that second append fares.
    pub fn record_appended(&mut self) -> (r: Option<String>)
        requires
            old(self).metadata matches Some(m) ==> m.record_count < u64::MAX,
        ensures
            final(self).app_id == old(self).app_id,
            final(self).block_range == old(self).block_range,
            match old(self).metadata {
                Some(m) => final(self).metadata matches Some(m2) && m2.record_count
                    == m.record_count + 1 && m2.start_height == m.start_height && (
                r matches Some(b) && b@ == cp_enc(m2@)),
                None => final(self).metadata is None && r is None,
            },
    {
        let (count, start) = match &self.metadata {
            None => {
                return None;
            },
            Some(m) => (m.record_count, m.start_height),
        };
        let m2 = DatabaseMetadata {
            record_count: count + 1,
            last_updated: now_millis(),
            start_height: start,
        };
        let blob = encode_checkpoint(&m2);
        self.metadata = Some(m2);
        Some(blob)
    }

    /// Point read over the fetched window, most recent blob first: the
    /// first record carrying the key — its last-write-wins value.  `None`
    /// is the normal outcome for a key with no record in the window, not
    /// an error.
    pub fn get_record(&self, key: &str, blobs: &Vec<String>) -> (r: Option<Record>)
        ensures
            match r {
                Some(rec) => spec_get(blobs.deep_view(), key@) == Some(rec@),
                None => spec_get(blobs.deep_view(), key@) is None,
            },
    {
        let ghost bv = blobs.deep_view();
        let key_owned: String = key.to_owned();
        let n = blobs.len();
        let mut i: usize = 0;
        proof {
            assert(bv.skip(0) =~= bv);
        }
        while i < n
            invariant
                0 <= i <= n,
                n == blobs.len(),
                bv == blobs.deep_view(),
                bv.len() == n,
                key_owned@ == key@,
                spec_get(bv.skip(i as int), key@) == spec_get(bv, key@),
            decreases n - i,
        {
            proof {
                assert(bv.skip(i as int)[0] == bv[i as int]);
                assert(bv.skip(i as int).drop_first() =~= bv.skip(i as int + 1));
            }
            match decode_checkpoint(blobs[i].as_str()) {
                Some(_) => {},
                None => {
                    match decode_record(blobs[i].as_str()) {
                        Some(rec) => {
                            if rec.key == key_owned {
                                return Some(rec);
                            }
                        },
                        None => {},
                    }
                },
            }
            i = i + 1;
        }
        proof {
            assert(bv.skip(n as int) =~= Seq::<Seq<char>>::empty());
        }
        None
    }

    /// Enumeration over the fetched window, most recent blob first: one
    /// record per distinct key, each the first — hence last-written —
    /// record seen for its key.  An empty result is the normal outcome
    /// for an empty window, not an error.
    pub fn list_records(&self, blobs: &Vec<String>) -> (r: Vec<Record>)
        ensures
            r.deep_view() == spec_list(blobs.deep_view()),
    {
        let ghost bv = blobs.deep_view();
        let mut out: Vec<Record> = Vec::new();
        let n = blobs.len();
        let mut i: usize = 0;
        proof {
            assert(rec_keys(out.deep_view()) =~= Set::<Seq<char>>::empty());
            assert(bv.skip(0) =~= bv);
        }
        while i < n
            invariant
                0 <= i <= n,
                n == blobs.len(),
                bv == blobs.deep_view(),
                bv.len() == n,
                spec_list(bv) == out.deep_view() + spec_list_seen(
                    bv.skip(i as int),
                    rec_keys(out.deep_view()),
                ),
            decreases n - i,
        {
            proof {
                assert(bv.skip(i as int)[0] == bv[i as int]);
                assert(bv.skip(i as int).drop_first() =~= bv.skip(i as int + 1));
            }
            match decode_checkpoint(blobs[i].as_str()) {
                Some(_) => {},
                None => {
                    match decode_record(blobs[i].as_str()) {
                        Some(rec) => {
                            let ghost old_out = out.deep_view();
                            let ghost seen = rec_keys(old_out);
                            if !contains_key(&out, &rec.key) {
                                out.push(rec);
                                proof {
                                    let new_out = out.deep_view();
                                    let rv = new_out[new_out.len() - 1];
                                    assert(new_out =~= old_out + seq![rv]);
                                    assert forall|k: Seq<char>|
                                        rec_keys(new_out).contains(k)
                                            == seen.insert(rv.key).contains(k) by {
                                        if rec_keys(new_out).contains(k) {
                                            let j = choose|j: int|
                                                0 <= j < new_out.len() && new_out[j].key == k;
                                            if j < old_out.len() {
                                                assert(seen.contains(k));
                                            }
                                        }
                                        if seen.contains(k) {
                                            let j = choose|j: int|
                                                0 <= j < old_out.len() && old_out[j].key == k;
                                            assert(new_out[j].key == k);
                                        }
                                        if k == rv.key {
                                            assert(new_out[new_out.len() - 1].key == k);
                                        }
                                    }
                                    assert(rec_keys(new_out) =~= seen.insert(rv.key));
                                    assert(old_out + (seq![rv] + spec_list_seen(
                                        bv.skip(i as int + 1),
                                        seen.insert(rv.key),
                                    )) =~= new_out + spec_list_seen(
                                        bv.skip(i as int + 1),
                                        rec_keys(new_out),
                                    ));
                                }
                            }
                        },
                        None => {},
                    }
                },
            }
            i = i + 1;
        }
        proof {
            assert(bv.skip(n as int) =~= Seq::<Seq<char>>::empty());
            assert(out.deep_view() + Seq::<RecordV>::empty() =~= out.deep_view());
        }
        out
    }
}

/// Whether some already-collected record carries the given key.
fn contains_key(v: &Vec<Record>, key: &String) -> (b: bool)
    ensures
        b == rec_keys(v.deep_view()).contains(key@),
{
    let n = v.len();
    let mut i: usize = 0;
    while i < n
        invariant
            0 <= i <= n,
            n == v.len(),
            forall|j: int| 0 <= j < i ==> v.deep_view()[j].key != key@,
        decreases n - i,
    {
        if v[i].key == *key {
            proof {
                assert(v.deep_view()[i as int].key == key@);
            }
            return true;
        }
        i = i + 1;
    }
    proof {
        assert(!rec_keys(v.deep_view()).contains(key@));
    }
    false
}

// ---------------------------------------------------------------------
// Laws of the scan
// ---------------------------------------------------------------------

/// Every entry of an enumeration is current: its key was not yet seen,
/// and a point read of that key over the same window returns exactly it.
pub proof fn lemma_list_entries_current(blobs: Seq<Seq<char>>, seen: Set<Seq<char>>)
    ensures
        forall|j: int|
            0 <= j < spec_list_seen(blobs, seen).len() ==> {
                let e = #[trigger] spec_list_seen(blobs, seen)[j];
                !seen.contains(e.key) && spec_get(blobs, e.key) == Some(e)
            },
    decreases blobs.len(),
{
    if blobs.len() == 0 {
    } else {
        let rest = blobs.drop_first();
        let l = spec_list_seen(blobs, seen);
        match blob_record(blobs[0]) {
            Some(r) => {
                if !seen.contains(r.key) {
                    lemma_list_entries_current(rest, seen.insert(r.key));
                    let lr = spec_list_seen(rest, seen.insert(r.key));
                    assert(l == seq![r] + lr);
                    assert forall|j: int| #![trigger l[j]] 0 <= j < l.len() implies {
                        let e = l[j];
                        !seen.contains(e.key) && spec_get(blobs, e.key) == Some(e)
                    } by {
                        if j == 0 {
                            assert(l[0] == r);
                        } else {
                            assert(l[j] == lr[j - 1]);
                            assert(!seen.insert(r.key).contains(lr[j - 1].key));
                            assert(lr[j - 1].key != r.key);
                            assert(spec_get(rest, lr[j - 1].key) == Some(lr[j - 1]));
                        }
                    }
                } else {
                    lemma_list_entries_current(rest, seen);
                    let lr = spec_list_seen(rest, seen);
                    assert(l == lr);
                    assert forall|j: int| #![trigger l[j]] 0 <= j < l.len() implies {
                        let e = l[j];
                        !seen.contains(e.key) && spec_get(blobs, e.key) == Some(e)
                    } by {
                        assert(!seen.contains(lr[j].key));
                        assert(lr[j].key != r.key);
                        assert(spec_get(rest, lr[j].key) == Some(lr[j]));
                    }
                }
            },
            None => {
                lemma_list_entries_current(rest, seen);
                let lr = spec_list_seen(rest, seen);
                assert(l == lr);
                assert forall|j: int| #![trigger l[j]] 0 <= j < l.len() implies {
                    let e = l[j];
                    !seen.contains(e.key) && spec_get(blobs, e.key) == Some(e)
                } by {
                    assert(spec_get(rest, lr[j].key) == Some(lr[j]));
                }
            },
        }
    }
}

/// An enumeration never lists one key twice.
pub proof fn lemma_list_distinct(blobs: Seq<Seq<char>>, seen: Set<Seq<char>>)
    ensures
        forall|j1: int, j2: int|
            #![trigger spec_list_seen(blobs, seen)[j1], spec_list_seen(blobs, seen)[j2]]
            0 <= j1 < j2 < spec_list_seen(blobs, seen).len() ==> spec_list_seen(blobs, seen)[j1].key
                != spec_list_seen(blobs, seen)[j2].key,
    decreases blobs.len(),
{
    if blobs.len() == 0 {
    } else {
        let rest = blobs.drop_first();
        let l = spec_list_seen(blobs, seen);
        match blob_record(blobs[0]) {
            Some(r) => {
                if !seen.contains(r.key) {
                    lemma_list_distinct(rest, seen.insert(r.key));
                    lemma_list_entries_current(rest, seen.insert(r.key));
                    let lr = spec_list_seen(rest, seen.insert(r.key));
                    assert(l == seq![r] + lr);
                    assert forall|j1: int, j2: int| 0 <= j1 < j2 < l.len() implies l[j1].key
                        != l[j2].key by {
                        if j1 == 0 {
                            assert(l[j2] == lr[j2 - 1]);
                            assert(!seen.insert(r.key).contains(lr[j2 - 1].key));
                        } else {
                            assert(l[j1] == lr[j1 - 1] && l[j2] == lr[j2 - 1]);
                        }
                    }
                } else {
                    lemma_list_distinct(rest, seen);
                }
            },
            None => {
                lemma_list_distinct(rest, seen);
            },
        }
    }
}

/// Every key that a point read finds in the window also appears in the
/// enumeration of that window.
pub proof fn lemma_list_complete(blobs: Seq<Seq<char>>, seen: Set<Seq<char>>, key: Seq<char>)
    requires
        !seen.contains(key),
        spec_get(blobs, key) is Some,
    ensures
        exists|j: int|
            0 <= j < spec_list_seen(blobs, seen).len() && #[trigger] spec_list_seen(blobs, seen)[j].key
                == key,
    decreases blobs.len(),
{
    let rest = blobs.drop_first();
    let l = spec_list_seen(blobs, seen);
    match blob_record(blobs[0]) {
        Some(r) => {
            if r.key == key {
                assert(l[0].key == key);
            } else {
                if !seen.contains(r.key) {
                    lemma_list_complete(rest, seen.insert(r.key), key);
                    let lr = spec_list_seen(rest, seen.insert(r.key));
                    let jw = choose|j: int| 0 <= j < lr.len() && lr[j].key == key;
                    assert(l[jw + 1].key == key);
                } else {
                    lemma_list_complete(rest, seen, key);
                    let lr = spec_list_seen(rest, seen);
                    let jw = choose|j: int| 0 <= j < lr.len() && lr[j].key == key;
                    assert(l[jw].key == key);
                }
            }
        },
        None => {
            lemma_list_complete(rest, seen, key);
            let lr = spec_list_seen(rest, seen);
            let jw = choose|j: int| 0 <= j < lr.len() && lr[j].key == key;
            assert(l[jw].key == key);
        },
    }
}

/// Last-write-wins: after two writes to the same key — each write
/// appending its record and then a refreshed checkpoint, the newer pair
/// in front — a point read returns the second record, and an enumeration
/// lists the key exactly once, carrying the second record.
pub proof fn lemma_last_write_wins(
    older: Seq<Seq<char>>,
    r1: RecordV,
    r2: RecordV,
    c1: MetadataV,
    c2: MetadataV,
)
    requires
        r1.key == r2.key,
        valid_record(r2),
    ensures
        ({
            let blobs = seq![cp_enc(c2), rec_enc(r2), cp_enc(c1), rec_enc(r1)] + older;
            spec_get(blobs, r2.key) == Some(r2) && (exists|j: int|
                0 <= j < spec_list(blobs).len() && #[trigger] spec_list(blobs)[j] == r2) && (
            forall|j: int|
                0 <= j < spec_list(blobs).len() && (#[trigger] spec_list(blobs)[j]).key == r2.key
                    ==> spec_list(blobs)[j] == r2)
        }),
{
    let blobs = seq![cp_enc(c2), rec_enc(r2), cp_enc(c1), rec_enc(r1)] + older;
    lemma_checkpoint_round_trip(c2);
    lemma_record_round_trip(r2);
    lemma_shapes_disjoint(r2, c2);
    assert(blobs[0] == cp_enc(c2));
    assert(blob_record(blobs[0]) is None);
    let b1 = blobs.drop_first();
    assert(b1 =~= seq![rec_enc(r2), cp_enc(c1), rec_enc(r1)] + older);
    assert(b1[0] == rec_enc(r2));
    assert(blob_record(b1[0]) == Some(r2));
    assert(spec_get(b1, r2.key) == Some(r2));
    assert(spec_get(blobs, r2.key) == spec_get(b1, r2.key));
    lemma_list_complete(blobs, Set::empty(), r2.key);
    lemma_list_entries_current(blobs, Set::empty());
    let l = spec_list(blobs);
    let jw = choose|j: int| 0 <= j < l.len() && l[j].key == r2.key;
    assert(l[jw] == r2);
}

/// The records of a window, in scan order, with checkpoints and
/// undecodable blobs left out.
pub open spec fn records_of(blobs: Seq<Seq<char>>) -> Seq<RecordV>
    decreases blobs.len(),
{
    if blobs.len() == 0 {
        Seq::empty()
    } else {
        match blob_record(blobs[0]) {
            Some(r) => seq![r] + records_of(blobs.drop_first()),
            None => records_of(blobs.drop_first()),
        }
    }
}

/// Whether a sequence of records carries pairwise distinct keys.
pub open spec fn distinct_keys(rs: Seq<RecordV>) -> bool {
    forall|j1: int, j2: int|
        #![trigger rs[j1], rs[j2]]
        0 <= j1 < j2 < rs.len() ==> rs[j1].key != rs[j2].key
}

proof fn lemma_list_seen_takes_all(blobs: Seq<Seq<char>>, seen: Set<Seq<char>>)
    requires
        distinct_keys(records_of(blobs)),
        forall|j: int|
            0 <= j < records_of(blobs).len() ==> !seen.contains(
                (#[trigger] records_of(blobs)[j]).key,
            ),
    ensures
        spec_list_seen(blobs, seen) == records_of(blobs),
    decreases blobs.len(),
{
    if blobs.len() == 0 {
        assert(spec_list_seen(blobs, seen) =~= records_of(blobs));
    } else {
        let rest = blobs.drop_first();
        match blob_record(blobs[0]) {
            Some(r) => {
                let ro = records_of(blobs);
                let ror = records_of(rest);
                assert(ro == seq![r] + ror);
                assert(ro[0] == r);
                assert(!seen.contains(r.key));
                assert forall|j1: int, j2: int|
                    #![trigger ror[j1], ror[j2]]
                    0 <= j1 < j2 < ror.len() implies ror[j1].key != ror[j2].key by {
                    assert(ro[j1 + 1] == ror[j1]);
                    assert(ro[j2 + 1] == ror[j2]);
                }
                assert forall|j: int| 0 <= j < ror.len() implies !seen.insert(r.key).contains(
                    (#[trigger] ror[j]).key,
                ) by {
                    assert(ro[j + 1] == ror[j]);
                    assert(!seen.contains(ror[j].key));
                    assert(ror[j].key != r.key);
                }
                lemma_list_seen_takes_all(rest, seen.insert(r.key));
                assert(spec_list_seen(blobs, seen) == seq![r] + records_of(rest));
            },
            None => {
                assert(records_of(blobs) == records_of(rest));
                lemma_list_seen_takes_all(rest, seen);
            },
        }
    }
}

/// Distinct-key enumeration: when every record in the window carries a
/// different key, the enumeration returns them all, one per key, and
/// each one is what a point read of its key returns.
pub proof fn lemma_distinct_key_enumeration(blobs: Seq<Seq<char>>)
    requires
        distinct_keys(records_of(blobs)),
    ensures
        spec_list(blobs) == records_of(blobs),
        forall|j: int|
            0 <= j < records_of(blobs).len() ==> spec_get(
                blobs,
                (#[trigger] records_of(blobs)[j]).key,
            ) == Some(records_of(blobs)[j]),
{
    lemma_list_seen_takes_all(blobs, Set::empty());
    lemma_list_entries_current(blobs, Set::empty());
}

/// Missing key: a point read returns nothing exactly when no record in
/// the window carries the key; here, the "no record" direction.
pub proof fn lemma_missing_key(blobs: Seq<Seq<char>>, key: Seq<char>)
    requires
        forall|j: int|
            0 <= j < blobs.len() ==> !(#[trigger] blob_record(blobs[j]) matches Some(r) && r.key
                == key),
    ensures
        spec_get(blobs, key) is None,
    decreases blobs.len(),
{
    if blobs.len() > 0 {
        let rest = blobs.drop_first();
        assert forall|j: int| 0 <= j < rest.len() implies !(#[trigger] blob_record(rest[j]) matches
            Some(r) && r.key == key) by {
            assert(rest[j] == blobs[j + 1]);
            assert(!(blob_record(blobs[j + 1]) matches Some(r) && r.key == key));
        }
        lemma_missing_key(rest, key);
        assert(!(blob_record(blobs[0]) matches Some(r) && r.key == key));
    }
}

/// The blobs of a ledger that a window fetch `[lo, hi]` returns: those
/// appended at a height within the range, in the ledger's given order.
pub open spec fn window_blobs(ledger: Seq<(u64, Seq<char>)>, lo: u64, hi: u64) -> Seq<Seq<char>>
    decreases ledger.len(),
{
    if ledger.len() == 0 {
        Seq::empty()
    } else {
        let rest = window_blobs(ledger.drop_first(), lo, hi);
        if lo <= ledger[0].0 <= hi {
            seq![ledger[0].1] + rest
        } else {
            rest
        }
    }
}

/// Every blob of a fetched window comes from a ledger entry whose height
/// lies within the window.
proof fn lemma_window_member(ledger: Seq<(u64, Seq<char>)>, lo: u64, hi: u64)
    ensures
        forall|i: int|
            0 <= i < window_blobs(ledger, lo, hi).len() ==> exists|j: int|
                0 <= j < ledger.len() && ledger[j].1 == #[trigger] window_blobs(ledger, lo, hi)[i]
                    && lo <= ledger[j].0 <= hi,
    decreases ledger.len(),
{
    if ledger.len() > 0 {
        let rest = ledger.drop_first();
        lemma_window_member(rest, lo, hi);
        let w = window_blobs(ledger, lo, hi);
        let wr = window_blobs(rest, lo, hi);
        assert forall|i: int| #![trigger w[i]] 0 <= i < w.len() implies exists|j: int|
            0 <= j < ledger.len() && ledger[j].1 == w[i] && lo <= ledger[j].0 <= hi by {
            if lo <= ledger[0].0 <= hi && i == 0 {
                assert(ledger[0].1 == w[0] && lo <= ledger[0].0 <= hi);
            } else {
                let i2: int = if lo <= ledger[0].0 <= hi {
                    i - 1
                } else {
                    i
                };
                assert(w[i] == wr[i2]);
                let j2 = choose|j: int|
                    0 <= j < rest.len() && rest[j].1 == wr[i2] && lo <= rest[j].0 <= hi;
                assert(ledger[j2 + 1] == rest[j2]);
            }
        }
    }
}

/// A successful point read names a record that some blob of the window
/// decodes to.
proof fn lemma_get_member(blobs: Seq<Seq<char>>, key: Seq<char>)
    requires
        spec_get(blobs, key) is Some,
    ensures
        exists|i: int|
            0 <= i < blobs.len() && #[trigger] blob_record(blobs[i]) == Some(
                spec_get(blobs, key).unwrap(),
            ),
    decreases blobs.len(),
{
    let rest = blobs.drop_first();
    match blob_record(blobs[0]) {
        Some(r) => {
            if r.key == key {
                assert(blob_record(blobs[0]) == Some(spec_get(blobs, key).unwrap()));
            } else {
                lemma_get_member(rest, key);
                let i = choose|i: int|
                    0 <= i < rest.len() && #[trigger] blob_record(rest[i]) == Some(
                        spec_get(rest, key).unwrap(),
                    );
                assert(blobs[i + 1] == rest[i]);
            }
        },
        None => {
            lemma_get_member(rest, key);
            let i = choose|i: int|
                0 <= i < rest.len() && #[trigger] blob_record(rest[i]) == Some(
                    spec_get(rest, key).unwrap(),
                );
            assert(blobs[i + 1] == rest[i]);
        },
    }
}

/// Window boundary: a record appended only at heights strictly below the
/// window's lower bound is invisible to a point read over the fetched
/// window, even though its key matches.
pub proof fn lemma_window_boundary(ledger: Seq<(u64, Seq<char>)>, lo: u64, hi: u64, r: RecordV)
    requires
        forall|j: int| 0 <= j < ledger.len() && (#[trigger] ledger[j]).1 == rec_enc(r)
            ==> ledger[j].0 < lo,
    ensures
        spec_get(window_blobs(ledger, lo, hi), r.key) != Some(r),
{
    let w = window_blobs(ledger, lo, hi);
    if spec_get(w, r.key) == Some(r) {
        lemma_get_member(w, r.key);
        let i = choose|i: int|
            0 <= i < w.len() && #[trigger] blob_record(w[i]) == Some(spec_get(w, r.key).unwrap());
        assert(sp_record(w[i]) == Some(r));
        crate::codec::lemma_record_parse_sound(w[i]);
        assert(w[i] == rec_enc(r));
        lemma_window_member(ledger, lo, hi);
        let j = choose|j: int|
            0 <= j < ledger.len() && ledger[j].1 == w[i] && lo <= ledger[j].0 <= hi;
        assert(ledger[j].0 < lo);
    }
}

/// Bootstrap idempotence, discovery half: the most recently appended
/// checkpoint is the one discovery adopts, whatever lies behind it — so
/// a later open recovers it unchanged.
pub proof fn lemma_bootstrap_idempotence(cp: MetadataV, rest: Seq<Seq<char>>)
    ensures
        spec_discover(seq![cp_enc(cp)] + rest) == Some(cp),
{
    lemma_checkpoint_round_trip(cp);
    assert((seq![cp_enc(cp)] + rest)[0] == cp_enc(cp));
}

/// Bootstrap idempotence, record half: record blobs in front of the
/// window never disturb discovery.
pub proof fn lemma_discover_skips_records(r: RecordV, rest: Seq<Seq<char>>)
    ensures
        spec_discover(seq![rec_enc(r)] + rest) == spec_discover(rest),
{
    let m = MetadataV { record_count: 0, last_updated: 0, start_height: 0 };
    lemma_shapes_disjoint(r, m);
    assert((seq![rec_enc(r)] + rest)[0] == rec_enc(r));
    assert((seq![rec_enc(r)] + rest).drop_first() =~= rest);
}

} // verus!
