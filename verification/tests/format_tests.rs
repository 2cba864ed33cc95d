//! Tests for the log record codec, the append log and the key index.

use waldb::format::decode;
use waldb::format::decode_header;
use waldb::index::KeyIndex;
use waldb::log::AppendLog;
use waldb::LogEntry;
use waldb::WalError;

fn b(s: &str) -> Vec<u8> {
    s.as_bytes().to_vec()
}

#[test]
fn round_trip_encode_decode() {
    let entry = LogEntry { timestamp: 1700000000123, key: b("alpha"), val: b("value-1") };
    let enc = entry.to_binary_log().unwrap();
    assert_eq!(enc.len(), 16 + 5 + 7);
    let back = decode(&enc).unwrap();
    assert_eq!(back.timestamp, 1700000000123);
    assert_eq!(back.key, b("alpha"));
    assert_eq!(back.val, b("value-1"));
}

#[test]
fn encoded_layout_is_big_endian() {
    let entry = LogEntry { timestamp: 0x0102030405060708, key: b("k"), val: b("vv") };
    let enc = entry.to_binary_log().unwrap();
    assert_eq!(&enc[0..8], &[1, 2, 3, 4, 5, 6, 7, 8]);
    assert_eq!(&enc[8..12], &[0, 0, 0, 1]);
    assert_eq!(&enc[12..16], &[0, 0, 0, 2]);
    assert_eq!(&enc[16..17], b"k");
    assert_eq!(&enc[17..19], b"vv");
}

#[test]
fn round_trip_empty_key_and_value() {
    let entry = LogEntry { timestamp: 7, key: Vec::new(), val: Vec::new() };
    let enc = entry.to_binary_log().unwrap();
    assert_eq!(enc.len(), 16);
    let back = decode(&enc).unwrap();
    assert_eq!(back.timestamp, 7);
    assert!(back.key.is_empty());
    assert!(back.val.is_empty());
}

#[test]
fn decode_header_reads_the_fields() {
    let entry = LogEntry { timestamp: 99, key: b("abc"), val: b("defg") };
    let enc = entry.to_binary_log().unwrap();
    let (ts, klen, vlen) = decode_header(&enc).unwrap();
    assert_eq!(ts, 99);
    assert_eq!(klen, 3);
    assert_eq!(vlen, 4);
}

#[test]
fn decode_header_rejects_short_input() {
    let short: Vec<u8> = vec![0u8; 10];
    assert_eq!(decode_header(&short), Err(WalError::MalformedRecord));
}

#[test]
fn decode_rejects_short_payload() {
    let entry = LogEntry { timestamp: 1, key: b("key"), val: b("value") };
    let mut enc = entry.to_binary_log().unwrap();
    enc.truncate(enc.len() - 1);
    assert!(matches!(decode(&enc), Err(WalError::MalformedRecord)));
}

#[test]
fn new_entry_keeps_key_and_value() {
    let e = LogEntry::new(b("k"), b("v"));
    assert_eq!(e.key, b("k"));
    assert_eq!(e.val, b("v"));
}

#[test]
fn append_log_appends_and_reads() {
    let mut log = AppendLog::from_bytes(Vec::new());
    let off1 = log.append(&b("hello"));
    let off2 = log.append(&b("world"));
    assert_eq!(off1, 0);
    assert_eq!(off2, 5);
    assert_eq!(log.size(), 10);
    assert_eq!(log.read_at(5, 5), Ok(b("world")));
    assert_eq!(log.read_at(0, 10), Ok(b("helloworld")));
}

#[test]
fn append_log_short_read_is_io_error() {
    let log = AppendLog::from_bytes(b("abc"));
    assert_eq!(log.read_at(2, 2), Err(WalError::IoError));
    assert_eq!(log.read_at(4, 1), Err(WalError::IoError));
}

#[test]
fn key_index_insert_lookup_remove() {
    let mut idx = KeyIndex::new();
    assert_eq!(idx.lookup(&b("a")), None);
    idx.insert(b("a"), 0);
    idx.insert(b("b"), 18);
    assert_eq!(idx.lookup(&b("a")), Some(0));
    assert_eq!(idx.lookup(&b("b")), Some(18));
    idx.insert(b("a"), 36);
    assert_eq!(idx.lookup(&b("a")), Some(36));
    idx.remove(&b("a"));
    assert_eq!(idx.lookup(&b("a")), None);
    assert_eq!(idx.lookup(&b("b")), Some(18));
    idx.remove(&b("never-there"));
    assert_eq!(idx.lookup(&b("b")), Some(18));
}
