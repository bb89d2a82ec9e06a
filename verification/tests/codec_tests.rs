use availdb::codec::decode_checkpoint;
use availdb::codec::decode_record;
use availdb::codec::encode_checkpoint;
use availdb::codec::encode_record;
use availdb::DatabaseMetadata;
use availdb::Record;

fn record(key: &str, value: &str, created_at: u64, updated_at: Option<u64>, id: &str) -> Record {
    Record {
        key: key.to_string(),
        value: value.to_string(),
        created_at,
        updated_at,
        id: id.to_string(),
    }
}

#[test]
fn checkpoint_encoding_exact() {
    let m = DatabaseMetadata { record_count: 12, last_updated: 345, start_height: 6789 };
    assert_eq!(encode_checkpoint(&m), "C:12:345:6789:");
}

#[test]
fn record_encoding_exact_without_update() {
    let r = record("a", "bc", 5, None, "x");
    assert_eq!(encode_record(&r), "R:1:a2:bc5:N:1:x");
}

#[test]
fn record_encoding_exact_with_update() {
    let r = record("a", "bc", 5, Some(7), "x");
    assert_eq!(encode_record(&r), "R:1:a2:bc5:S:7:1:x");
}

#[test]
fn record_round_trip() {
    let r = record("alpha", "some value with spaces", 1700000000000, None, "id-123");
    let blob = encode_record(&r);
    let back = decode_record(&blob).expect("encoded record must decode");
    assert_eq!(back.key, r.key);
    assert_eq!(back.value, r.value);
    assert_eq!(back.created_at, r.created_at);
    assert_eq!(back.updated_at, r.updated_at);
    assert_eq!(back.id, r.id);
}

#[test]
fn record_round_trip_with_update_and_tricky_payload() {
    let r = record("k:with:colons", "v:2:N:S:R:C:", 0, Some(u64::MAX), "36:chars");
    let blob = encode_record(&r);
    let back = decode_record(&blob).expect("encoded record must decode");
    assert_eq!(back.key, r.key);
    assert_eq!(back.value, r.value);
    assert_eq!(back.created_at, r.created_at);
    assert_eq!(back.updated_at, r.updated_at);
    assert_eq!(back.id, r.id);
}

#[test]
fn record_round_trip_empty_strings() {
    let r = record("", "", u64::MAX, None, "");
    let blob = encode_record(&r);
    assert_eq!(blob, format!("R:0:0:{}:N:0:", u64::MAX));
    let back = decode_record(&blob).expect("encoded record must decode");
    assert_eq!(back.key, "");
    assert_eq!(back.value, "");
    assert_eq!(back.created_at, u64::MAX);
}

#[test]
fn checkpoint_round_trip() {
    let m = DatabaseMetadata { record_count: 0, last_updated: u64::MAX, start_height: 1 };
    let blob = encode_checkpoint(&m);
    let back = decode_checkpoint(&blob).expect("encoded checkpoint must decode");
    assert_eq!(back.record_count, m.record_count);
    assert_eq!(back.last_updated, m.last_updated);
    assert_eq!(back.start_height, m.start_height);
}

#[test]
fn shapes_are_disjoint() {
    let r = record("k", "v", 1, None, "i");
    let m = DatabaseMetadata { record_count: 2, last_updated: 3, start_height: 4 };
    assert!(decode_checkpoint(&encode_record(&r)).is_none());
    assert!(decode_record(&encode_checkpoint(&m)).is_none());
}

#[test]
fn decode_rejects_garbage() {
    assert!(decode_record("").is_none());
    assert!(decode_checkpoint("").is_none());
    assert!(decode_record("hello world").is_none());
    assert!(decode_checkpoint("{\"record_count\":0}").is_none());
    assert!(decode_checkpoint("C:1:2:").is_none());
    assert!(decode_checkpoint("C:1:2:3").is_none());
    assert!(decode_checkpoint("C:01:2:3:").is_none());
    assert!(decode_checkpoint("C:1:2:3:extra").is_none());
    assert!(decode_record("R:5:ab1:v5:N:1:x").is_none());
}

#[test]
fn decode_rejects_oversized_numbers() {
    assert!(decode_checkpoint("C:18446744073709551615:0:0:").is_some());
    assert!(decode_checkpoint("C:18446744073709551616:0:0:").is_none());
    assert!(decode_checkpoint("C:99999999999999999999999:0:0:").is_none());
}
