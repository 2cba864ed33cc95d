//! The storage engine: `set`, `get`, `delete`, startup recovery and log
//! compaction, composed from the codec, the append log and the key index.
//!
//! The engine's state is the live key-value map its log denotes
//! ([`crate::replay::model`]): a key is present exactly when its latest log
//! entry has a non-empty value. `set` and `delete` append one entry each
//! and update the index; `get` reads one record through the index. Since
//! an empty value is indistinguishable from a tombstone in the record
//! format, `set` with an empty value acts as a `delete`; the contracts say
//! so explicitly.

use vstd::prelude::*;

use crate::format::encodable;
use crate::format::entry_ok;
use crate::format::key_at;
use crate::format::key_len_at;
use crate::format::now_millis;
use crate::format::read_u32_be;
use crate::format::spec_encode;
use crate::format::val_at;
use crate::format::val_len_at;
use crate::format::copy_range;
use crate::format::LogEntry;
use crate::format::WalError;
use crate::index::KeyIndex;
use crate::log::AppendLog;
use crate::format::entry_end;
use crate::format::push_bytes;
use crate::replay::index_from;
use crate::replay::index_of;
use crate::replay::lemma_append_entry;
use crate::replay::lemma_entry_stable;
use crate::replay::lemma_index_from_valid;
use crate::replay::lemma_recover_truncate;
use crate::replay::model;
use crate::replay::parses_cleanly;
use crate::replay::records_of;
use crate::replay::scan_end;

verus! {

/// Whether `k`'s latest entry lies before `pos` in `l` and is live: the
/// keys the compactor has already copied once its scan has passed `pos`.
pub open spec fn copied_key(l: Seq<u8>, pos: int, k: Seq<u8>) -> bool {
    index_of(l).contains_key(k) && index_of(l)[k] < pos && val_at(l, index_of(l)[k]).len() > 0
}

/// A log-backed key-value store: one append-only log, an in-memory key
/// index, and a count of the entries appended.
pub struct StorageEngine {
    log: AppendLog,
    index: KeyIndex,
    sequence_number: u64,
}

impl View for StorageEngine {
    type V = Map<Seq<u8>, Seq<u8>>;

    /// The live key-value map the engine presents.
    closed spec fn view(&self) -> Map<Seq<u8>, Seq<u8>> {
        model(self.log@)
    }
}

impl StorageEngine {
    /// The bytes of the current log.
    pub closed spec fn log_seq(&self) -> Seq<u8> {
        self.log@
    }

    /// The engine's entry counter.
    pub closed spec fn spec_sequence(&self) -> u64 {
        self.sequence_number
    }

    /// Well-formed: the log parses cleanly and the index is exactly the
    /// index the scan of the log yields.
    pub closed spec fn wf(&self) -> bool {
        &&& self.index.wf()
        &&& parses_cleanly(self.log@)
        &&& self.index@ == index_of(self.log@)
        &&& 16 * (self.sequence_number as int) <= self.log@.len()
    }

    /// Opens the engine on the bytes of a log file: rebuilds the key index
    /// by scanning from offset 0 and drops a truncated tail entry, if any.
    /// The engine's map is exactly the map the bytes denote.
    pub fn new(data: Vec<u8>) -> (r: StorageEngine)
        ensures
            r.wf(),
            r@ == model(data@),
            r.log_seq() == data@.subrange(0, scan_end(data@, 0)),
            r.spec_sequence() as int == records_of(r.log_seq()).len(),
    {
        let mut log = AppendLog::from_bytes(data);
        let (index, stop, sequence_number) = KeyIndex::rebuild_from(&log);
        proof {
            lemma_recover_truncate(log@);
        }
        log.truncate(stop);
        StorageEngine { log, index, sequence_number }
    }

    /// Borrows the bytes of the current log, e.g. to persist them.
    pub fn log_bytes(&self) -> (r: &Vec<u8>)
        ensures
            r@ == self.log_seq(),
    {
        self.log.bytes()
    }

    /// The number of entries appended to the current log.
    pub fn sequence(&self) -> (n: u64)
        ensures
            n == self.spec_sequence(),
    {
        self.sequence_number
    }

    /// Appends one entry holding the given timestamp, key and value, and
    /// points the index at it. Fails with `EncodingError`, leaving the
    /// engine unchanged, exactly when the key or value exceeds the
    /// four-byte length fields. On success returns the entry's offset; a
    /// non-empty value binds the key to it, an empty value deletes the key
    /// (a tombstone).
    pub fn set_at(&mut self, timestamp: u64, key: Vec<u8>, val: Vec<u8>) -> (r: Result<
        usize,
        WalError,
    >)
        requires
            old(self).wf(),
        ensures
            final(self).wf(),
            r is Ok <==> encodable(key@, val@),
            r matches Err(e) ==> e == WalError::EncodingError && *final(self) == *old(self),
            r matches Ok(off) ==> off as int == old(self).log_seq().len() && final(self).log_seq()
                == old(self).log_seq() + spec_encode(timestamp, key@, val@)
                && final(self).spec_sequence() as int == old(self).spec_sequence() as int + 1
                && final(self)@ == (
            if val@.len() > 0 {
                old(self)@.insert(key@, val@)
            } else {
                old(self)@.remove(key@)
            }),
    {
        let entry = LogEntry { timestamp, key, val };
        let bytes = match entry.to_binary_log() {
            Ok(b) => b,
            Err(e) => {
                return Err(e);
            },
        };
        proof {
            lemma_append_entry(self.log@, timestamp, entry.key@, entry.val@);
            assert(16 * (self.sequence_number as int + 1) <= self.log@.len() + bytes@.len());
        }
        let off = self.log.append(&bytes);
        self.index.insert(entry.key, off);
        self.sequence_number = self.sequence_number + 1;
        Ok(off)
    }

    /// `set` with the current wall-clock time as the timestamp: binds
    /// `key` to `val` (or deletes it when `val` is empty, since the format
    /// cannot tell an empty value from a tombstone). Fails with
    /// `EncodingError`, leaving the engine unchanged, exactly when the key
    /// or value exceeds the four-byte length fields.
    pub fn set(&mut self, key: Vec<u8>, val: Vec<u8>) -> (r: Result<usize, WalError>)
        requires
            old(self).wf(),
        ensures
            final(self).wf(),
            r is Ok <==> encodable(key@, val@),
            r matches Err(e) ==> e == WalError::EncodingError && *final(self) == *old(self),
            r matches Ok(off) ==> off as int == old(self).log_seq().len() && (exists|ts: u64|
                final(self).log_seq() == old(self).log_seq() + spec_encode(ts, key@, val@))
                && final(self).spec_sequence() as int == old(self).spec_sequence() as int + 1
                && final(self)@ == (if val@.len() > 0 {
                old(self)@.insert(key@, val@)
            } else {
                old(self)@.remove(key@)
            }),
    {
        let ts = now_millis();
        let r = self.set_at(ts, key, val);
        proof {
            if r is Ok {
                assert(self.log_seq() == old(self).log_seq() + spec_encode(ts, key@, val@));
            }
        }
        r
    }

    /// Deletes `key` by appending a tombstone (an entry with an empty
    /// value); the key is gone from the map until a later `set` rebinds
    /// it. Fails with `EncodingError`, leaving the engine unchanged,
    /// exactly when the key exceeds the four-byte length field.
    pub fn delete(&mut self, key: Vec<u8>) -> (r: Result<usize, WalError>)
        requires
            old(self).wf(),
        ensures
            final(self).wf(),
            r is Ok <==> key@.len() <= u32::MAX,
            r matches Err(e) ==> e == WalError::EncodingError && *final(self) == *old(self),
            r matches Ok(off) ==> off as int == old(self).log_seq().len() && (exists|ts: u64|
                final(self).log_seq() == old(self).log_seq() + spec_encode(
                    ts,
                    key@,
                    Seq::<u8>::empty(),
                )) && final(self).spec_sequence() as int == old(self).spec_sequence() as int + 1
                && final(self)@ == old(self)@.remove(key@),
    {
        let empty: Vec<u8> = Vec::new();
        let ghost ev = empty@;
        let r = self.set(key, empty);
        proof {
            if r is Ok {
                let ts = choose|ts: u64|
                    self.log_seq() == old(self).log_seq() + spec_encode(ts, key@, ev);
                assert(ev =~= Seq::<u8>::empty());
                assert(self.log_seq() == old(self).log_seq() + spec_encode(
                    ts,
                    key@,
                    Seq::<u8>::empty(),
                ));
            }
        }
        r
    }

    /// Looks `key` up: `Some` with the value of its latest entry when that
    /// entry's value is non-empty, `None` when the key was never set or
    /// its latest entry is a tombstone.
    pub fn get(&self, key: &Vec<u8>) -> (r: Option<Vec<u8>>)
        requires
            self.wf(),
        ensures
            r is Some <==> self@.contains_key(key@),
            r matches Some(v) ==> v@ == self@[key@],
    {
        let off = match self.index.lookup(key) {
            Some(o) => o,
            None => {
                return None;
            },
        };
        proof {
            lemma_index_from_valid(self.log@, 0);
            assert(entry_ok(self.log@, off as int));
            assert(key_at(self.log@, off as int) == key@);
        }
        let bytes = self.log.bytes();
        let _n = bytes.len();
        let klen = read_u32_be(bytes, off + 8);
        let vlen = read_u32_be(bytes, off + 12);
        proof {
            assert(klen == key_len_at(self.log@, off as int));
            assert(vlen == val_len_at(self.log@, off as int));
            assert(val_at(self.log@, off as int).len() == vlen);
        }
        if vlen == 0 {
            return None;
        }
        let v = copy_range(bytes, off + 16 + klen as usize, vlen as usize);
        proof {
            assert(v@ == val_at(self.log@, off as int));
        }
        Some(v)
    }

    /// The live keys, each exactly once: every key `get` answers for, and
    /// no other.
    #[verifier::loop_isolation(false)]
    pub fn keys(&self) -> (r: Vec<Vec<u8>>)
        requires
            self.wf(),
        ensures
            forall|m: int, n: int| 0 <= m < n < r@.len() ==> r@[m]@ != r@[n]@,
            forall|m: int| 0 <= m < r@.len() ==> self@.contains_key(r@[m]@),
            forall|k: Seq<u8>| #[trigger] self@.contains_key(k) ==> exists|m: int|
                0 <= m < r@.len() && r@[m]@ == k,
    {
        let all = self.index.keys();
        let n = all.len();
        let mut out: Vec<Vec<u8>> = Vec::new();
        let mut i: usize = 0;
        while i < n
            invariant
                i <= n,
                forall|m: int| 0 <= m < out@.len() ==> self@.contains_key(out@[m]@),
                forall|m: int|
                    #![trigger out@[m]]
                    0 <= m < out@.len() ==> exists|j: int| 0 <= j < i && all@[j]@ == out@[m]@,
                forall|j: int|
                    #![trigger all@[j]]
                    0 <= j < i && self@.contains_key(all@[j]@) ==> exists|m: int|
                        0 <= m < out@.len() && out@[m]@ == all@[j]@,
                forall|m: int, p: int| 0 <= m < p < out@.len() ==> out@[m]@ != out@[p]@,
            decreases n - i,
        {
            let ki = &all[i];
            if self.get(ki).is_some() {
                let klen = ki.len();
                let key = copy_range(ki, 0, klen);
                proof {
                    assert(key@ =~= all@[i as int]@);
                }
                let ghost prev = out@;
                out.push(key);
                proof {
                    assert forall|m: int, p: int| 0 <= m < p < out@.len() implies out@[m]@
                        != out@[p]@ by {
                        if p == out@.len() - 1 {
                            let j = choose|j: int| 0 <= j < i && all@[j]@ == prev[m]@;
                            assert(all@[j]@ != all@[i as int]@);
                        }
                    }
                    assert forall|j: int|
                        #![trigger all@[j]]
                        0 <= j < i + 1 && self@.contains_key(all@[j]@) implies exists|m: int|
                        0 <= m < out@.len() && out@[m]@ == all@[j]@ by {
                        if j == i {
                            assert(out@[out@.len() - 1]@ == all@[i as int]@);
                        } else {
                            let m = choose|m: int| 0 <= m < prev.len() && prev[m]@ == all@[j]@;
                            assert(out@[m]@ == all@[j]@);
                        }
                    }
                }
            }
            i = i + 1;
        }
        proof {
            assert forall|k: Seq<u8>| #[trigger] self@.contains_key(k) implies exists|m: int|
                0 <= m < out@.len() && out@[m]@ == k by {
                assert(index_of(self.log@).contains_key(k));
                assert(self.index@.contains_key(k));
                let j = choose|j: int| 0 <= j < all@.len() && all@[j]@ == k;
                assert(self@.contains_key(all@[j]@));
            }
        }
        out
    }

    /// Compaction: rewrites the log to hold exactly one fresh entry per
    /// live key — its newest value, under a new timestamp, with no
    /// tombstones — and swaps the new log and a rebuilt index in. The map
    /// the engine presents does not change.
    #[verifier::loop_isolation(false)]
    #[verifier::rlimit(60)]
    pub fn compact(&mut self)
        requires
            old(self).wf(),
        ensures
            final(self).wf(),
            final(self)@ == old(self)@,
            parses_cleanly(final(self).log_seq()),
            forall|i: int, j: int|
                0 <= i < j < records_of(final(self).log_seq()).len() ==> records_of(
                    final(self).log_seq(),
                )[i].1 != records_of(final(self).log_seq())[j].1,
            forall|i: int|
                0 <= i < records_of(final(self).log_seq()).len() ==> records_of(
                    final(self).log_seq(),
                )[i].2.len() > 0 && old(self)@.contains_key(
                    records_of(final(self).log_seq())[i].1,
                ) && records_of(final(self).log_seq())[i].2 == old(self)@[records_of(
                    final(self).log_seq(),
                )[i].1],
            forall|k: Seq<u8>| #[trigger] old(self)@.contains_key(k) ==> exists|i: int|
                0 <= i < records_of(final(self).log_seq()).len() && records_of(
                    final(self).log_seq(),
                )[i].1 == k,
            final(self).spec_sequence() as int == records_of(final(self).log_seq()).len(),
    {
        let ghost l = self.log@;
        let ghost m0 = model(l);
        let total = self.log.size();
        let mut pos: usize = 0;
        let mut newlog: Vec<u8> = Vec::new();
        let mut newidx = KeyIndex::new();
        let mut ncount: u64 = 0;
        let ghost mut gpre: Map<Seq<u8>, int> = Map::empty();
        proof {
            lemma_index_from_valid(l, 0);
            assert(index_of(l) =~= gpre.union_prefer_right(index_from(l, 0)));
            assert(newlog@ =~= Seq::<u8>::empty());
            assert(index_of(newlog@) == Map::<Seq<u8>, int>::empty());
            assert(records_of(newlog@) == Seq::<(u64, Seq<u8>, Seq<u8>)>::empty());
            assert(scan_end(newlog@, 0) == 0);
        }
        while pos < total
            invariant
                pos <= total,
                scan_end(l, pos as int) == l.len(),
                index_of(l) == gpre.union_prefer_right(index_from(l, pos as int)),
                forall|k: Seq<u8>| #[trigger] gpre.contains_key(k) ==> gpre[k] < pos,
                newidx.wf(),
                newidx@ == index_of(newlog@),
                parses_cleanly(newlog@),
                newlog@.len() <= pos,
                16 * ncount as int <= newlog@.len(),
                ncount as int == records_of(newlog@).len(),
                forall|k: Seq<u8>|
                    #![trigger index_of(newlog@).contains_key(k)]
                    #![trigger copied_key(l, pos as int, k)]
                    index_of(newlog@).contains_key(k) <==> copied_key(l, pos as int, k),
                forall|k: Seq<u8>| #[trigger] index_of(newlog@).contains_key(k) ==> val_at(
                    newlog@,
                    index_of(newlog@)[k],
                ) == val_at(l, index_of(l)[k]),
                forall|i: int, j: int|
                    0 <= i < j < records_of(newlog@).len() ==> records_of(newlog@)[i].1
                        != records_of(newlog@)[j].1,
                forall|i: int|
                    0 <= i < records_of(newlog@).len() ==> records_of(newlog@)[i].2.len() > 0
                        && m0.contains_key(records_of(newlog@)[i].1) && records_of(newlog@)[i].2
                        == m0[records_of(newlog@)[i].1] && index_of(newlog@).contains_key(
                        records_of(newlog@)[i].1,
                    ),
                forall|k: Seq<u8>| #[trigger] index_of(newlog@).contains_key(k) ==> exists|i: int|
                    0 <= i < records_of(newlog@).len() && records_of(newlog@)[i].1 == k,
            decreases total - pos,
        {
            proof {
                if !entry_ok(l, pos as int) {
                    assert(scan_end(l, pos as int) == pos as int);
                    assert(false);
                }
            }
            let b = self.log.bytes();
            let klen = read_u32_be(b, pos + 8);
            let vlen = read_u32_be(b, pos + 12);
            proof {
                assert(klen == key_len_at(l, pos as int));
                assert(vlen == val_len_at(l, pos as int));
                assert(pos + 16 + klen + vlen == entry_end(l, pos as int));
            }
            let klen_us = klen as usize;
            let vlen_us = vlen as usize;
            let end = pos + 16 + klen_us + vlen_us;
            let key = copy_range(b, pos + 16, klen_us);
            let ghost k = key@;
            proof {
                assert(k == key_at(l, pos as int));
                assert(index_from(l, pos as int).contains_key(k));
                assert(index_of(l).contains_key(k));
                assert(index_of(l)[k] == index_from(l, pos as int)[k]);
                lemma_index_from_valid(l, end as int);
            }
            let ghost rest = index_from(l, end as int);
            let off = match self.index.lookup(&key) {
                Some(o) => o,
                None => {
                    proof {
                        assert(false);
                    }
                    0
                },
            };
            if off == pos && vlen > 0 {
                proof {
                    assert(!rest.contains_key(k)) by {
                        if rest.contains_key(k) {
                            assert(index_from(l, pos as int)[k] == rest[k]);
                            assert(rest[k] >= end as int);
                        }
                    }
                    assert(index_from(l, pos as int) == rest.insert(k, pos as int));
                    assert(!index_of(newlog@).contains_key(k));
                }
                let v = copy_range(b, pos + 16 + klen_us, vlen_us);
                proof {
                    assert(v@ == val_at(l, pos as int));
                    assert(m0.contains_key(k) && m0[k] == v@);
                }
                let ts = now_millis();
                let entry = LogEntry { timestamp: ts, key, val: v };
                let enc = match entry.to_binary_log() {
                    Ok(x) => x,
                    Err(_) => {
                        proof {
                            assert(false);
                        }
                        Vec::new()
                    },
                };
                let noff = newlog.len();
                let ghost prev = newlog@;
                let ghost prevrecs = records_of(prev);
                proof {
                    lemma_append_entry(prev, ts, k, entry.val@);
                    lemma_index_from_valid(prev, 0);
                }
                push_bytes(&mut newlog, &enc);
                newidx.insert(entry.key, noff);
                ncount = ncount + 1;
                proof {
                    assert(newlog@ == prev + spec_encode(ts, k, val_at(l, pos as int)));
                    assert(index_of(newlog@) == index_of(prev).insert(k, noff as int));
                    assert(records_of(newlog@) == prevrecs.push(
                        (ts, k, val_at(l, pos as int)),
                    ));
                    // entries already copied keep their bytes and their bindings
                    assert forall|j: Seq<u8>| #[trigger] index_of(prev).contains_key(j) implies val_at(
                        newlog@,
                        index_of(prev)[j],
                    ) == val_at(prev, index_of(prev)[j]) by {
                        lemma_entry_stable(prev, spec_encode(ts, k, val_at(l, pos as int)),
                            index_of(prev)[j]);
                    }
                    // which keys are copied once the scan passes `end`
                    assert forall|j: Seq<u8>| #[trigger] index_of(newlog@).contains_key(j)
                        <==> copied_key(l, end as int, j) by {
                        if j != k {
                            assert(index_of(newlog@).contains_key(j) == index_of(
                                prev,
                            ).contains_key(j));
                            if index_of(l).contains_key(j) {
                                if index_from(l, pos as int).contains_key(j) {
                                    assert(index_of(l)[j] == index_from(l, pos as int)[j]);
                                    assert(index_from(l, pos as int)[j] == rest[j]);
                                    assert(index_of(l)[j] >= end as int);
                                } else {
                                    assert(gpre.contains_key(j));
                                    assert(index_of(l)[j] == gpre[j]);
                                    assert(index_of(l)[j] < pos as int);
                                }
                            }
                        } else {
                            assert(index_of(l)[k] == pos as int);
                            assert(copied_key(l, end as int, k));
                        }
                    }
                    // the record list gained one live, not-yet-seen key
                    let recs2 = records_of(newlog@);
                    assert forall|i: int| 0 <= i < recs2.len() implies recs2[i].2.len() > 0
                        && m0.contains_key(recs2[i].1) && recs2[i].2 == m0[recs2[i].1]
                        && index_of(newlog@).contains_key(recs2[i].1) by {
                        if i < prevrecs.len() {
                            assert(recs2[i] == prevrecs[i]);
                        } else {
                            assert(recs2[i] == (ts, k, val_at(l, pos as int)));
                        }
                    }
                    assert forall|i: int, j: int| 0 <= i < j < recs2.len() implies recs2[i].1
                        != recs2[j].1 by {
                        assert(recs2[i] == prevrecs[i]);
                        if j < prevrecs.len() {
                            assert(recs2[j] == prevrecs[j]);
                        } else {
                            assert(recs2[j].1 == k);
                            assert(index_of(prev).contains_key(prevrecs[i].1));
                        }
                    }
                    assert forall|j: Seq<u8>| #[trigger] index_of(newlog@).contains_key(j) implies
                        exists|i: int| 0 <= i < recs2.len() && recs2[i].1 == j by {
                        if j == k {
                            assert(recs2[recs2.len() - 1].1 == j);
                        } else {
                            assert(index_of(prev).contains_key(j));
                            let i = choose|i: int|
                                0 <= i < prevrecs.len() && prevrecs[i].1 == j;
                            assert(recs2[i] == prevrecs[i]);
                        }
                    }
                    gpre = gpre.insert(k, pos as int);
                    assert(gpre.union_prefer_right(rest) =~= index_of(l));
                }
                pos = end;
            } else {
                proof {
                    if off == pos {
                        // a tombstone's latest entry: skip it, and note it as passed
                        assert(val_at(l, pos as int).len() == vlen);
                        assert(!rest.contains_key(k)) by {
                            if rest.contains_key(k) {
                                assert(index_from(l, pos as int)[k] == rest[k]);
                                assert(rest[k] >= end as int);
                            }
                        }
                        assert(index_from(l, pos as int) == rest.insert(k, pos as int));
                        gpre = gpre.insert(k, pos as int);
                        assert(gpre.union_prefer_right(rest) =~= index_of(l));
                    } else {
                        // an overwritten entry: its key's latest entry lies ahead
                        assert(rest.contains_key(k)) by {
                            if !rest.contains_key(k) {
                                assert(index_from(l, pos as int)[k] == pos as int);
                            }
                        }
                        assert(index_from(l, pos as int) == rest);
                    }
                    // nothing was copied, and "copied" does not change between
                    // `pos` and `end`
                    assert forall|j: Seq<u8>| #[trigger] index_of(newlog@).contains_key(j)
                        <==> copied_key(l, end as int, j) by {
                        if index_of(l).contains_key(j) {
                            if index_from(l, pos as int).contains_key(j) {
                                assert(index_of(l)[j] == index_from(l, pos as int)[j]);
                                if j == k {
                                    if off == pos {
                                        assert(index_of(l)[j] == pos as int);
                                        assert(val_at(l, index_of(l)[j]).len() == 0);
                                    } else {
                                        assert(index_from(l, pos as int)[j] == rest[j]);
                                        assert(index_of(l)[j] >= end as int);
                                    }
                                } else {
                                    assert(index_from(l, pos as int)[j] == rest[j]);
                                    assert(index_of(l)[j] >= end as int);
                                }
                            } else {
                                assert(gpre.contains_key(j) || j == k);
                                assert(index_of(l)[j] < end as int ==> index_of(l)[j]
                                    < pos as int);
                            }
                        }
                    }
                }
                pos = end;
            }
        }
        proof {
            assert(pos == total);
            assert(index_from(l, pos as int) == Map::<Seq<u8>, int>::empty());
            lemma_index_from_valid(l, 0);
            assert forall|j: Seq<u8>| #[trigger] index_of(l).contains_key(j) implies index_of(
                l,
            )[j] < total as int by {
                assert(entry_ok(l, index_of(l)[j]));
            }
            assert(model(newlog@) =~= m0);
        }
        self.log = AppendLog::from_bytes(newlog);
        self.index = newidx;
        self.sequence_number = ncount;
    }
}

/// Last write wins: `set(k, v1)` then `set(k, v2)` (both values
/// non-empty, so each `set` is an insert into the engine's map, per
/// `set`'s contract) leaves `k` bound to `v2`, exactly as a single
/// `set(k, v2)` would, and `get(k)` then returns `v2` per `get`'s
/// contract.
pub proof fn lemma_last_write_wins(m: Map<Seq<u8>, Seq<u8>>, k: Seq<u8>, v1: Seq<u8>, v2: Seq<u8>)
    ensures
        m.insert(k, v1).insert(k, v2) == m.insert(k, v2),
        m.insert(k, v1).insert(k, v2)[k] == v2,
        m.insert(k, v1).insert(k, v2).contains_key(k),
{
    assert(m.insert(k, v1).insert(k, v2) =~= m.insert(k, v2));
}

/// Tombstone semantics: after `set(k, v)` then `delete(k)` (an insert
/// then a remove of the engine's map, per their contracts) the key is
/// absent, so `get(k)` returns `None`; a subsequent `set(k, v2)` with a
/// non-empty `v2` binds it to `v2` again.
pub proof fn lemma_tombstone(m: Map<Seq<u8>, Seq<u8>>, k: Seq<u8>, v: Seq<u8>, v2: Seq<u8>)
    ensures
        !m.insert(k, v).remove(k).contains_key(k),
        m.insert(k, v).remove(k).insert(k, v2)[k] == v2,
        m.insert(k, v).remove(k).insert(k, v2).contains_key(k),
{
}

/// Recovery idempotence: the engine's map is exactly the map recovered
/// from the bytes of its log, and its log has no truncated tail. So
/// opening a second engine on `log_bytes()` of a well-formed engine — per
/// `new`'s contract — reproduces its map and its log exactly, and doing
/// so twice yields the same result both times.
pub proof fn lemma_recovery_reproduces_state(e: &StorageEngine)
    requires
        e.wf(),
    ensures
        model(e.log_seq()) == e@,
        scan_end(e.log_seq(), 0) == e.log_seq().len(),
        e.log_seq().subrange(0, scan_end(e.log_seq(), 0)) == e.log_seq(),
{
    assert(e.log_seq().subrange(0, e.log_seq().len() as int) =~= e.log_seq());
}

} // verus!

