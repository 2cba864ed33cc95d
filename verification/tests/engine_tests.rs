//! Behavioural tests for the storage engine: writes, reads, deletes,
//! recovery, truncated tails and compaction.

use waldb::format::decode;
use waldb::StorageEngine;

fn b(s: &str) -> Vec<u8> {
    s.as_bytes().to_vec()
}

/// Parses every complete entry of a log, returning (key, value) pairs in
/// file order.
fn parse_entries(log: &Vec<u8>) -> Vec<(Vec<u8>, Vec<u8>)> {
    let mut out = Vec::new();
    let mut pos = 0usize;
    while pos < log.len() {
        let rest: Vec<u8> = log[pos..].to_vec();
        match decode(&rest) {
            Ok(e) => {
                pos += 16 + e.key.len() + e.val.len();
                out.push((e.key, e.val));
            }
            Err(_) => break,
        }
    }
    out
}

#[test]
fn empty_engine_finds_nothing() {
    let e = StorageEngine::new(Vec::new());
    assert_eq!(e.get(&b("a")), None);
    assert_eq!(e.log_bytes().len(), 0);
    assert_eq!(e.sequence(), 0);
}

#[test]
fn set_then_get() {
    let mut e = StorageEngine::new(Vec::new());
    e.set(b("alpha"), b("one")).unwrap();
    assert_eq!(e.get(&b("alpha")), Some(b("one")));
    assert_eq!(e.get(&b("beta")), None);
}

#[test]
fn last_write_wins() {
    let mut e = StorageEngine::new(Vec::new());
    e.set(b("k"), b("v1")).unwrap();
    e.set(b("k"), b("v2")).unwrap();
    assert_eq!(e.get(&b("k")), Some(b("v2")));
}

#[test]
fn tombstone_semantics() {
    let mut e = StorageEngine::new(Vec::new());
    e.set(b("k"), b("v")).unwrap();
    e.delete(b("k")).unwrap();
    assert_eq!(e.get(&b("k")), None);
    e.set(b("k"), b("v2")).unwrap();
    assert_eq!(e.get(&b("k")), Some(b("v2")));
}

#[test]
fn empty_value_set_acts_as_delete() {
    let mut e = StorageEngine::new(Vec::new());
    e.set(b("k"), b("v")).unwrap();
    e.set(b("k"), Vec::new()).unwrap();
    assert_eq!(e.get(&b("k")), None);
}

#[test]
fn set_returns_appended_offsets() {
    let mut e = StorageEngine::new(Vec::new());
    let off1 = e.set(b("a"), b("1")).unwrap();
    assert_eq!(off1, 0);
    let off2 = e.set(b("bc"), b("23")).unwrap();
    // the first entry spans 16 + 1 + 1 bytes
    assert_eq!(off2, 18);
    assert_eq!(e.log_bytes().len(), 18 + 16 + 2 + 2);
}

#[test]
fn recovery_reproduces_state() {
    let mut e = StorageEngine::new(Vec::new());
    e.set(b("a"), b("1")).unwrap();
    e.set(b("b"), b("2")).unwrap();
    e.delete(b("a")).unwrap();
    e.set(b("c"), b("3")).unwrap();
    let bytes = e.log_bytes().clone();
    let r1 = StorageEngine::new(bytes.clone());
    let r2 = StorageEngine::new(bytes);
    for k in ["a", "b", "c"] {
        assert_eq!(r1.get(&b(k)), e.get(&b(k)));
        assert_eq!(r2.get(&b(k)), r1.get(&b(k)));
    }
    assert_eq!(r1.log_bytes(), e.log_bytes());
    assert_eq!(r1.sequence(), e.sequence());
}

#[test]
fn truncated_tail_is_dropped() {
    let mut e = StorageEngine::new(Vec::new());
    e.set(b("a"), b("1")).unwrap();
    e.set(b("b"), b("2")).unwrap();
    let before = e.log_bytes().clone();
    e.set(b("c"), b("333")).unwrap();
    let full = e.log_bytes().clone();
    // cut in the middle of the last entry's payload
    let mut cut = full.clone();
    cut.truncate(full.len() - 2);
    let r = StorageEngine::new(cut);
    assert_eq!(r.log_bytes(), &before);
    assert_eq!(r.get(&b("a")), Some(b("1")));
    assert_eq!(r.get(&b("b")), Some(b("2")));
    assert_eq!(r.get(&b("c")), None);
}

#[test]
fn truncated_header_is_dropped() {
    let mut e = StorageEngine::new(Vec::new());
    e.set(b("a"), b("1")).unwrap();
    let before = e.log_bytes().clone();
    e.set(b("b"), b("2")).unwrap();
    let mut cut = e.log_bytes().clone();
    // keep only 5 bytes of the second entry's 16-byte header
    cut.truncate(before.len() + 5);
    let r = StorageEngine::new(cut);
    assert_eq!(r.log_bytes(), &before);
    assert_eq!(r.get(&b("b")), None);
}

#[test]
fn compaction_preserves_live_values() {
    let mut e = StorageEngine::new(Vec::new());
    e.set(b("a"), b("1")).unwrap();
    e.set(b("b"), b("2")).unwrap();
    e.set(b("a"), b("11")).unwrap();
    e.set(b("c"), b("3")).unwrap();
    e.delete(b("b")).unwrap();
    e.set(b("d"), b("4")).unwrap();
    e.delete(b("e")).unwrap();
    let before: Vec<Option<Vec<u8>>> =
        ["a", "b", "c", "d", "e"].iter().map(|k| e.get(&b(k))).collect();
    e.compact();
    let after: Vec<Option<Vec<u8>>> =
        ["a", "b", "c", "d", "e"].iter().map(|k| e.get(&b(k))).collect();
    assert_eq!(before, after);
    let entries = parse_entries(e.log_bytes());
    // exactly one entry per live key (a, c, d), no tombstones
    assert_eq!(entries.len(), 3);
    for (k, v) in &entries {
        assert!(!v.is_empty());
        assert_eq!(e.get(k), Some(v.clone()));
    }
    let mut keys: Vec<Vec<u8>> = entries.iter().map(|p| p.0.clone()).collect();
    keys.sort();
    keys.dedup();
    assert_eq!(keys.len(), 3);
    // the counter is reset to the compacted log's entry count
    assert_eq!(e.sequence(), 3);
}

#[test]
fn concrete_scenario() {
    let mut e = StorageEngine::new(Vec::new());
    e.set(b("a"), b("1")).unwrap();
    e.set(b("b"), b("2")).unwrap();
    e.delete(b("a")).unwrap();
    e.set(b("a"), b("3")).unwrap();
    assert_eq!(e.get(&b("a")), Some(b("3")));
    assert_eq!(e.get(&b("b")), Some(b("2")));
    e.compact();
    assert_eq!(e.get(&b("a")), Some(b("3")));
    assert_eq!(e.get(&b("b")), Some(b("2")));
    let entries = parse_entries(e.log_bytes());
    assert_eq!(entries.len(), 2);
    for (k, v) in &entries {
        if k == &b("a") {
            assert_eq!(v, &b("3"));
        } else {
            assert_eq!(k, &b("b"));
            assert_eq!(v, &b("2"));
        }
    }
}

#[test]
fn compaction_of_only_tombstones_empties_the_log() {
    let mut e = StorageEngine::new(Vec::new());
    e.set(b("a"), b("1")).unwrap();
    e.delete(b("a")).unwrap();
    e.compact();
    assert_eq!(e.log_bytes().len(), 0);
    assert_eq!(e.get(&b("a")), None);
}

#[test]
fn delete_appends_exactly_one_tombstone_entry() {
    let mut e = StorageEngine::new(Vec::new());
    e.set(b("k"), b("v")).unwrap();
    let before = e.log_bytes().len();
    e.delete(b("k")).unwrap();
    assert_eq!(e.log_bytes().len(), before + 16 + 1);
    let entries = parse_entries(e.log_bytes());
    assert_eq!(entries.len(), 2);
    assert_eq!(entries[1].0, b("k"));
    assert!(entries[1].1.is_empty());
}

#[test]
fn sequence_counts_entries() {
    let mut e = StorageEngine::new(Vec::new());
    e.set(b("a"), b("1")).unwrap();
    e.set(b("a"), b("2")).unwrap();
    e.delete(b("a")).unwrap();
    assert_eq!(e.sequence(), 3);
    let r = StorageEngine::new(e.log_bytes().clone());
    assert_eq!(r.sequence(), 3);
}

#[test]
fn set_at_stores_the_given_timestamp() {
    let mut e = StorageEngine::new(Vec::new());
    e.set_at(424242, b("k"), b("v")).unwrap();
    let entry = decode(e.log_bytes()).unwrap();
    assert_eq!(entry.timestamp, 424242);
    assert_eq!(entry.key, b("k"));
    assert_eq!(entry.val, b("v"));
}
