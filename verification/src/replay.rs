//! The meaning of a log: what a sequential scan from offset 0 yields.
//!
//! The scan is the recovery algorithm. At each position it parses the
//! 16-byte header; if the header or the payload runs past the end of the
//! bytes, the scan stops (a truncated tail); otherwise it records
//! `key -> position`, overwriting any earlier binding for the key, and
//! advances past the entry. [`index_of`] is the resulting key index,
//! [`records_of`] the list of entries in file order, and [`model`] the live
//! key-value map (tombstones removed) that the engine presents.

use vstd::prelude::*;

use crate::format::encodable;
use crate::format::header_ok;
use crate::format::entry_end;
use crate::format::entry_ok;
use crate::format::key_at;
use crate::format::key_len_at;
use crate::format::spec_encode;
use crate::format::spec_u32_be;
use crate::format::ts_at;
use crate::format::val_at;
use crate::format::val_len_at;
use crate::format::lemma_parse_encoded;
use crate::format::lemma_u32_be_round_trip;

verus! {

/// The position where the scan that starts at `pos` stops: the first
/// position from which no complete entry can be read.
pub open spec fn scan_end(log: Seq<u8>, pos: int) -> int
    decreases log.len() - pos,
{
    if pos < log.len() && entry_ok(log, pos) {
        scan_end(log, entry_end(log, pos))
    } else {
        pos
    }
}

/// Whether the scan consumes the log exactly: no truncated tail.
pub open spec fn parses_cleanly(log: Seq<u8>) -> bool {
    scan_end(log, 0) == log.len()
}

/// The key index derived from the scan that starts at `pos`: each key seen
/// maps to the position of its last entry (later entries win).
pub open spec fn index_from(log: Seq<u8>, pos: int) -> Map<Seq<u8>, int>
    decreases log.len() - pos,
{
    if pos < log.len() && entry_ok(log, pos) {
        let rest = index_from(log, entry_end(log, pos));
        if rest.contains_key(key_at(log, pos)) {
            rest
        } else {
            rest.insert(key_at(log, pos), pos)
        }
    } else {
        Map::empty()
    }
}

/// The key index of the whole log: key to position of its latest entry.
pub open spec fn index_of(log: Seq<u8>) -> Map<Seq<u8>, int> {
    index_from(log, 0)
}

/// The entries of the log in file order, from `pos` on, as
/// (timestamp, key, value) triples.
pub open spec fn records_from(log: Seq<u8>, pos: int) -> Seq<(u64, Seq<u8>, Seq<u8>)>
    decreases log.len() - pos,
{
    if pos < log.len() && entry_ok(log, pos) {
        seq![(ts_at(log, pos), key_at(log, pos), val_at(log, pos))] + records_from(
            log,
            entry_end(log, pos),
        )
    } else {
        Seq::empty()
    }
}

/// The entries of the whole log in file order.
pub open spec fn records_of(log: Seq<u8>) -> Seq<(u64, Seq<u8>, Seq<u8>)> {
    records_from(log, 0)
}

/// The live key-value map the log denotes: a key is present exactly when
/// its latest entry has a non-empty value, and maps to that value.
pub open spec fn model(log: Seq<u8>) -> Map<Seq<u8>, Seq<u8>> {
    Map::new(
        |k: Seq<u8>| index_of(log).contains_key(k) && val_at(log, index_of(log)[k]).len() > 0,
        |k: Seq<u8>| val_at(log, index_of(log)[k]),
    )
}

/// The scan never moves backwards and never runs past the end.
pub proof fn lemma_scan_end_bounds(log: Seq<u8>, pos: int)
    requires
        0 <= pos,
    ensures
        scan_end(log, pos) >= pos,
        pos <= log.len() ==> scan_end(log, pos) <= log.len(),
    decreases log.len() - pos,
{
    if pos < log.len() && entry_ok(log, pos) {
        lemma_scan_end_bounds(log, entry_end(log, pos));
    }
}

/// Every binding of the index points at or past `pos`, at a complete entry
/// that lies within the scanned part of the log and whose key is the bound
/// key.
pub proof fn lemma_index_from_valid(log: Seq<u8>, pos: int)
    requires
        0 <= pos,
    ensures
        forall|k: Seq<u8>| #[trigger] index_from(log, pos).contains_key(k) ==> pos <= index_from(
            log,
            pos,
        )[k] && entry_ok(log, index_from(log, pos)[k]) && key_at(log, index_from(log, pos)[k]) == k
            && entry_end(log, index_from(log, pos)[k]) <= scan_end(log, pos),
    decreases log.len() - pos,
{
    if pos < log.len() && entry_ok(log, pos) {
        let end = entry_end(log, pos);
        lemma_index_from_valid(log, end);
        lemma_scan_end_bounds(log, end);
        let rest = index_from(log, end);
        let m = index_from(log, pos);
        assert forall|k: Seq<u8>| #[trigger] m.contains_key(k) implies pos <= m[k] && entry_ok(
            log,
            m[k],
        ) && key_at(log, m[k]) == k && entry_end(log, m[k]) <= scan_end(log, pos) by {
            if rest.contains_key(k) {
                assert(rest.contains_key(k));
            } else {
                assert(k == key_at(log, pos) && m[k] == pos);
            }
        }
    }
}

/// Extending a log does not change how the entries before the extension
/// parse.
pub proof fn lemma_entry_stable(log: Seq<u8>, ext: Seq<u8>, pos: int)
    requires
        entry_ok(log, pos),
    ensures
        entry_ok(log + ext, pos),
        ts_at(log + ext, pos) == ts_at(log, pos),
        key_len_at(log + ext, pos) == key_len_at(log, pos),
        val_len_at(log + ext, pos) == val_len_at(log, pos),
        entry_end(log + ext, pos) == entry_end(log, pos),
        key_at(log + ext, pos) == key_at(log, pos),
        val_at(log + ext, pos) == val_at(log, pos),
{
    let l2 = log + ext;
    assert(l2.subrange(pos, pos + 8) =~= log.subrange(pos, pos + 8));
    assert(l2.subrange(pos + 8, pos + 12) =~= log.subrange(pos + 8, pos + 12));
    assert(l2.subrange(pos + 12, pos + 16) =~= log.subrange(pos + 12, pos + 16));
    let kl = key_len_at(log, pos) as int;
    let e = entry_end(log, pos);
    assert(l2.subrange(pos + 16, pos + 16 + kl) =~= log.subrange(pos + 16, pos + 16 + kl));
    assert(l2.subrange(pos + 16 + kl, e) =~= log.subrange(pos + 16 + kl, e));
}

/// Scanning an extended log from a position inside its cleanly-parsed
/// prefix first walks the prefix's entries, then continues with whatever
/// the scan makes of the extension.
pub proof fn lemma_scan_extend(log: Seq<u8>, ext: Seq<u8>, pos: int)
    requires
        0 <= pos <= log.len(),
        scan_end(log, pos) == log.len(),
    ensures
        scan_end(log + ext, pos) == scan_end(log + ext, log.len() as int),
        index_from(log + ext, pos) == index_from(log, pos).union_prefer_right(
            index_from(log + ext, log.len() as int),
        ),
        records_from(log + ext, pos) == records_from(log, pos) + records_from(
            log + ext,
            log.len() as int,
        ),
    decreases log.len() - pos,
{
    let l2 = log + ext;
    let suffix = index_from(l2, log.len() as int);
    if pos == log.len() {
        assert(index_from(log, pos) == Map::<Seq<u8>, int>::empty());
        assert(records_from(log, pos) == Seq::<(u64, Seq<u8>, Seq<u8>)>::empty());
        assert(index_from(l2, pos) =~= index_from(log, pos).union_prefer_right(suffix));
        assert(records_from(l2, pos) =~= records_from(log, pos) + records_from(l2, pos));
    } else {
        assert(pos < log.len());
        assert(entry_ok(log, pos));
        lemma_entry_stable(log, ext, pos);
        let end = entry_end(log, pos);
        lemma_scan_extend(log, ext, end);
        let k = key_at(log, pos);
        let rest_l = index_from(log, end);
        let rest_2 = index_from(l2, end);
        assert(rest_2 == rest_l.union_prefer_right(suffix));
        if rest_2.contains_key(k) {
            if rest_l.contains_key(k) {
                assert(index_from(l2, pos) =~= index_from(log, pos).union_prefer_right(suffix));
            } else {
                assert(suffix.contains_key(k));
                assert(index_from(l2, pos) =~= rest_l.insert(k, pos).union_prefer_right(suffix));
            }
        } else {
            assert(index_from(l2, pos) =~= rest_l.insert(k, pos).union_prefer_right(suffix));
        }
        assert(records_from(l2, pos) =~= records_from(log, pos) + records_from(l2,
            log.len() as int,
        ));
    }
}

/// An entry that lies inside the first `n` bytes parses the same in the
/// prefix of length `n` as in the whole log.
pub proof fn lemma_entry_stable_prefix(log: Seq<u8>, n: int, pos: int)
    requires
        entry_ok(log, pos),
        entry_end(log, pos) <= n <= log.len(),
    ensures
        entry_ok(log.subrange(0, n), pos),
        ts_at(log.subrange(0, n), pos) == ts_at(log, pos),
        key_len_at(log.subrange(0, n), pos) == key_len_at(log, pos),
        val_len_at(log.subrange(0, n), pos) == val_len_at(log, pos),
        entry_end(log.subrange(0, n), pos) == entry_end(log, pos),
        key_at(log.subrange(0, n), pos) == key_at(log, pos),
        val_at(log.subrange(0, n), pos) == val_at(log, pos),
{
    let t = log.subrange(0, n);
    assert(t.subrange(pos, pos + 8) =~= log.subrange(pos, pos + 8));
    assert(t.subrange(pos + 8, pos + 12) =~= log.subrange(pos + 8, pos + 12));
    assert(t.subrange(pos + 12, pos + 16) =~= log.subrange(pos + 12, pos + 16));
    let kl = key_len_at(log, pos) as int;
    let e = entry_end(log, pos);
    assert(t.subrange(pos + 16, pos + 16 + kl) =~= log.subrange(pos + 16, pos + 16 + kl));
    assert(t.subrange(pos + 16 + kl, e) =~= log.subrange(pos + 16 + kl, e));
}

/// Cutting a log at the point where its scan stops changes nothing the
/// scan yields: the same entries, the same index.
pub proof fn lemma_scan_prefix(log: Seq<u8>, n: int, pos: int)
    requires
        0 <= pos <= n <= log.len(),
        scan_end(log, pos) == n,
    ensures
        scan_end(log.subrange(0, n), pos) == n,
        index_from(log.subrange(0, n), pos) == index_from(log, pos),
        records_from(log.subrange(0, n), pos) == records_from(log, pos),
    decreases n - pos,
{
    let t = log.subrange(0, n);
    if pos == n {
        lemma_scan_end_bounds(log, pos);
        assert(!(pos < log.len() && entry_ok(log, pos)) || scan_end(log, pos) == scan_end(
            log,
            entry_end(log, pos),
        ));
        if pos < log.len() && entry_ok(log, pos) {
            lemma_scan_end_bounds(log, entry_end(log, pos));
            assert(false);
        }
        assert(index_from(log, pos) =~= index_from(t, pos));
        assert(records_from(log, pos) =~= records_from(t, pos));
    } else {
        assert(pos < n);
        assert(entry_ok(log, pos));
        let end = entry_end(log, pos);
        lemma_scan_end_bounds(log, end);
        assert(end <= n);
        lemma_entry_stable_prefix(log, n, pos);
        lemma_scan_prefix(log, n, end);
    }
}

/// Recovery from arbitrary bytes: cutting the bytes where the scan stops
/// yields a log that parses cleanly and denotes the same index, the same
/// entries and the same live map as the uncut bytes.
pub proof fn lemma_recover_truncate(log: Seq<u8>)
    ensures
        parses_cleanly(log.subrange(0, scan_end(log, 0))),
        index_of(log.subrange(0, scan_end(log, 0))) == index_of(log),
        records_of(log.subrange(0, scan_end(log, 0))) == records_of(log),
        model(log.subrange(0, scan_end(log, 0))) == model(log),
        0 <= scan_end(log, 0) <= log.len(),
{
    lemma_scan_end_bounds(log, 0);
    let n = scan_end(log, 0);
    let t = log.subrange(0, n);
    lemma_scan_prefix(log, n, 0);
    lemma_index_from_valid(log, 0);
    assert forall|k: Seq<u8>| #[trigger] index_of(log).contains_key(k) implies val_at(
        t,
        index_of(log)[k],
    ) == val_at(log, index_of(log)[k]) by {
        lemma_entry_stable_prefix(log, n, index_of(log)[k]);
    }
    assert(model(t) =~= model(log));
}

/// Appending one well-formed entry to a cleanly-parsed log: the log still
/// parses cleanly, the entry is appended to the record list, the index maps
/// the key to the entry's offset, and the live map gains the value — or
/// loses the key, when the value is empty (a tombstone).
pub proof fn lemma_append_entry(log: Seq<u8>, ts: u64, key: Seq<u8>, val: Seq<u8>)
    requires
        parses_cleanly(log),
        encodable(key, val),
    ensures
        parses_cleanly(log + spec_encode(ts, key, val)),
        index_of(log + spec_encode(ts, key, val)) == index_of(log).insert(key, log.len() as int),
        records_of(log + spec_encode(ts, key, val)) == records_of(log).push((ts, key, val)),
        val_at(log + spec_encode(ts, key, val), log.len() as int) == val,
        model(log + spec_encode(ts, key, val)) == if val.len() > 0 {
            model(log).insert(key, val)
        } else {
            model(log).remove(key)
        },
{
    let e = spec_encode(ts, key, val);
    let l2 = log + e;
    let li = log.len() as int;
    assert(l2.subrange(li, li + 16 + key.len() + val.len() as int) =~= e);
    lemma_parse_encoded(l2, li, ts, key, val);
    assert(entry_end(l2, li) == l2.len());
    assert(index_from(l2, l2.len() as int) == Map::<Seq<u8>, int>::empty());
    assert(records_from(l2, l2.len() as int) == Seq::<(u64, Seq<u8>, Seq<u8>)>::empty());
    assert(scan_end(l2, l2.len() as int) == l2.len());
    let suffix = index_from(l2, li);
    assert(suffix =~= Map::<Seq<u8>, int>::empty().insert(key, li));
    assert(records_from(l2, li) =~= seq![(ts, key, val)]);
    assert(scan_end(l2, li) == l2.len());
    lemma_scan_extend(log, e, 0);
    assert(index_from(l2, 0) == index_from(log, 0).union_prefer_right(suffix));
    assert(records_from(l2, 0) == records_from(log, 0) + records_from(l2, li));
    assert(index_of(l2) =~= index_of(log).insert(key, li));
    assert(records_of(l2) =~= records_of(log).push((ts, key, val)));
    lemma_index_from_valid(log, 0);
    assert forall|k: Seq<u8>| #[trigger] index_of(log).contains_key(k) && k != key implies val_at(
        l2,
        index_of(log)[k],
    ) == val_at(log, index_of(log)[k]) by {
        lemma_entry_stable(log, e, index_of(log)[k]);
    }
    let m1 = model(log);
    let m2 = model(l2);
    if val.len() > 0 {
        assert forall|k: Seq<u8>|
            #![trigger m2.contains_key(k), m1.insert(key, val).contains_key(k)]
            true implies m2.contains_key(k) == m1.insert(key, val).contains_key(k) && (
        m2.contains_key(k) ==> m2[k] == m1.insert(key, val)[k]) by {
            if k != key && index_of(log).contains_key(k) {
                assert(val_at(l2, index_of(log)[k]) == val_at(log, index_of(log)[k]));
            }
        }
        assert(m2 =~= m1.insert(key, val));
    } else {
        assert forall|k: Seq<u8>|
            #![trigger m2.contains_key(k), m1.remove(key).contains_key(k)]
            true implies m2.contains_key(k) == m1.remove(key).contains_key(k) && (m2.contains_key(
            k,
        ) ==> m2[k] == m1.remove(key)[k]) by {
            if k != key && index_of(log).contains_key(k) {
                assert(val_at(l2, index_of(log)[k]) == val_at(log, index_of(log)[k]));
            }
        }
        assert(m2 =~= m1.remove(key));
    }
}

/// Truncated tail tolerance: appending a well-formed entry but keeping only
/// a strict prefix of its bytes (a crash in the middle of the write) leaves
/// the scan, the index and the live map exactly as they were before the
/// append.
pub proof fn lemma_truncated_tail(log: Seq<u8>, ts: u64, key: Seq<u8>, val: Seq<u8>, cut: int)
    requires
        parses_cleanly(log),
        encodable(key, val),
        log.len() <= cut < log.len() + 16 + key.len() + val.len(),
    ensures
        scan_end((log + spec_encode(ts, key, val)).subrange(0, cut), 0) == log.len(),
        index_of((log + spec_encode(ts, key, val)).subrange(0, cut)) == index_of(log),
        records_of((log + spec_encode(ts, key, val)).subrange(0, cut)) == records_of(log),
        model((log + spec_encode(ts, key, val)).subrange(0, cut)) == model(log),
{
    let e = spec_encode(ts, key, val);
    let li = log.len() as int;
    let t = (log + e).subrange(0, cut);
    let junk = e.subrange(0, cut - li);
    assert(t =~= log + junk);
    if cut - li < 16 {
        assert(!header_ok(t, li));
    } else {
        assert(t.subrange(li + 8, li + 12) =~= e.subrange(8, 12));
        assert(e.subrange(8, 12) =~= spec_u32_be(key.len() as u32));
        assert(t.subrange(li + 12, li + 16) =~= e.subrange(12, 16));
        assert(e.subrange(12, 16) =~= spec_u32_be(val.len() as u32));
        lemma_u32_be_round_trip(key.len() as u32);
        lemma_u32_be_round_trip(val.len() as u32);
        assert(entry_end(t, li) == li + 16 + key.len() + val.len());
        assert(!entry_ok(t, li));
    }
    assert(index_from(t, li) =~= Map::<Seq<u8>, int>::empty());
    assert(records_from(t, li) =~= Seq::<(u64, Seq<u8>, Seq<u8>)>::empty());
    assert(scan_end(t, li) == li);
    lemma_scan_extend(log, junk, 0);
    assert(index_of(t) =~= index_of(log));
    assert(records_of(t) =~= records_of(log));
    lemma_index_from_valid(log, 0);
    assert forall|k: Seq<u8>| #[trigger] index_of(log).contains_key(k) implies val_at(
        t,
        index_of(log)[k],
    ) == val_at(log, index_of(log)[k]) by {
        lemma_entry_stable(log, junk, index_of(log)[k]);
    }
    assert(model(t) =~= model(log));
}

} // verus!
