//! The in-memory key index: each key maps to the byte offset of its most
//! recent log entry. The index is a derived, rebuildable cache — the log
//! is the source of truth — so it is held as a plain list of
//! (key, offset) pairs with pairwise-distinct keys.

use vstd::prelude::*;

use crate::format::bytes_eq;
use crate::format::copy_range;
use crate::format::entry_ok;
use crate::format::key_at;
use crate::format::key_len_at;
use crate::format::read_u32_be;
use crate::format::val_len_at;
use crate::format::entry_end;
use crate::log::AppendLog;
use crate::replay::index_from;
use crate::replay::index_of;
use crate::replay::records_from;
use crate::replay::records_of;
use crate::replay::scan_end;

verus! {

/// The map a list of (key, offset) pairs denotes; later pairs win.
pub open spec fn map_of(s: Seq<(Seq<u8>, int)>) -> Map<Seq<u8>, int>
    decreases s.len(),
{
    if s.len() == 0 {
        Map::empty()
    } else {
        map_of(s.drop_last()).insert(s.last().0, s.last().1)
    }
}

/// Whether the keys of the pairs are pairwise distinct.
pub open spec fn unique_keys(s: Seq<(Seq<u8>, int)>) -> bool {
    forall|i: int, j: int| 0 <= i < j < s.len() ==> s[i].0 != s[j].0
}

/// A key is in the map exactly when some pair holds it.
pub proof fn lemma_map_of_contains(s: Seq<(Seq<u8>, int)>)
    ensures
        forall|k: Seq<u8>| #[trigger] map_of(s).contains_key(k) <==> exists|i: int|
            0 <= i < s.len() && s[i].0 == k,
    decreases s.len(),
{
    if s.len() > 0 {
        let sd = s.drop_last();
        lemma_map_of_contains(sd);
        assert forall|k: Seq<u8>| #[trigger] map_of(s).contains_key(k) implies exists|i: int|
            0 <= i < s.len() && s[i].0 == k by {
            if k == s.last().0 {
                assert(s[s.len() - 1].0 == k);
            } else {
                assert(map_of(sd).contains_key(k));
                let i = choose|i: int| 0 <= i < sd.len() && sd[i].0 == k;
                assert(sd[i] == s[i]);
                assert(s[i].0 == k);
            }
        }
        assert forall|k: Seq<u8>| (exists|i: int| 0 <= i < s.len() && s[i].0 == k) implies #[trigger] map_of(
            s,
        ).contains_key(k) by {
            let i = choose|i: int| 0 <= i < s.len() && s[i].0 == k;
            if i < s.len() - 1 {
                assert(sd[i] == s[i]);
                assert(sd[i].0 == k);
                assert(map_of(sd).contains_key(k));
            } else {
                assert(k == s.last().0);
            }
        }
    }
}

/// With distinct keys, the pair holding a key gives its value in the map.
pub proof fn lemma_map_of_index(s: Seq<(Seq<u8>, int)>, i: int)
    requires
        unique_keys(s),
        0 <= i < s.len(),
    ensures
        map_of(s).contains_key(s[i].0),
        map_of(s)[s[i].0] == s[i].1,
    decreases s.len(),
{
    if i == s.len() - 1 {
    } else {
        assert(s.drop_last()[i] == s[i]);
        lemma_map_of_index(s.drop_last(), i);
        assert(s[i].0 != s.last().0);
    }
}

/// Removing the pair that holds a key removes the key from the map.
pub proof fn lemma_map_of_remove(s: Seq<(Seq<u8>, int)>, i: int)
    requires
        unique_keys(s),
        0 <= i < s.len(),
    ensures
        map_of(s.remove(i)) == map_of(s).remove(s[i].0),
    decreases s.len(),
{
    lemma_map_of_contains(s.drop_last());
    if i == s.len() - 1 {
        assert(s.remove(i) =~= s.drop_last());
        assert(!map_of(s.drop_last()).contains_key(s[i].0));
        assert(map_of(s.drop_last()) =~= map_of(s.drop_last()).insert(s.last().0, s.last().1)
            .remove(s[i].0));
    } else {
        let sd = s.drop_last();
        assert(sd[i] == s[i]);
        lemma_map_of_remove(sd, i);
        assert(s.remove(i).drop_last() =~= sd.remove(i));
        assert(s.remove(i).last() == s.last());
        assert(s.remove(i).len() == s.len() - 1);
        assert(map_of(s.remove(i)) == map_of(sd.remove(i)).insert(s.last().0, s.last().1));
        assert(s[i].0 != s.last().0);
        assert(map_of(sd).remove(s[i].0).insert(s.last().0, s.last().1) =~= map_of(sd).insert(
            s.last().0,
            s.last().1,
        ).remove(s[i].0));
    }
}

/// The in-memory key index.
pub struct KeyIndex {
    entries: Vec<(Vec<u8>, usize)>,
}

impl View for KeyIndex {
    type V = Map<Seq<u8>, int>;

    closed spec fn view(&self) -> Map<Seq<u8>, int> {
        map_of(self.entries_seq())
    }
}

impl KeyIndex {
    /// The pairs as mathematical values.
    pub closed spec fn entries_seq(&self) -> Seq<(Seq<u8>, int)> {
        self.entries@.map_values(|p: (Vec<u8>, usize)| (p.0@, p.1 as int))
    }

    /// Well-formed: no key occurs twice.
    pub closed spec fn wf(&self) -> bool {
        unique_keys(self.entries_seq())
    }

    /// An empty index.
    pub fn new() -> (r: KeyIndex)
        ensures
            r.wf(),
            r@ == Map::<Seq<u8>, int>::empty(),
    {
        let r = KeyIndex { entries: Vec::new() };
        proof {
            assert(r.entries_seq() =~= Seq::<(Seq<u8>, int)>::empty());
        }
        r
    }

    /// The offset bound to `key`, if any.
    pub fn lookup(&self, key: &Vec<u8>) -> (r: Option<usize>)
        requires
            self.wf(),
        ensures
            r is Some <==> self@.contains_key(key@),
            r matches Some(off) ==> self@[key@] == off as int,
    {
        let n = self.entries.len();
        let mut i: usize = 0;
        proof {
            lemma_map_of_contains(self.entries_seq());
        }
        while i < n
            invariant
                n == self.entries@.len(),
                i <= n,
                self.wf(),
                forall|j: int| 0 <= j < i ==> self.entries_seq()[j].0 != key@,
            decreases n - i,
        {
            if bytes_eq(&self.entries[i].0, key) {
                proof {
                    lemma_map_of_index(self.entries_seq(), i as int);
                }
                return Some(self.entries[i].1);
            }
            i = i + 1;
        }
        proof {
            lemma_map_of_contains(self.entries_seq());
        }
        None
    }

    /// Binds `key` to `off`, overwriting any earlier binding.
    pub fn insert(&mut self, key: Vec<u8>, off: usize)
        requires
            old(self).wf(),
        ensures
            final(self).wf(),
            final(self)@ == old(self)@.insert(key@, off as int),
    {
        let ghost s0 = self.entries_seq();
        let n = self.entries.len();
        let mut i: usize = 0;
        while i < n
            invariant
                n == self.entries@.len(),
                i <= n,
                self.wf(),
                self == old(self),
                s0 == self.entries_seq(),
                s0.len() == n as int,
                forall|j: int| 0 <= j < i ==> self.entries_seq()[j].0 != key@,
            decreases n - i,
        {
            if bytes_eq(&self.entries[i].0, &key) {
                proof {
                    lemma_map_of_index(s0, i as int);
                    lemma_map_of_remove(s0, i as int);
                }
                self.entries.remove(i);
                proof {
                    assert(self.entries_seq() =~= s0.remove(i as int));
                    assert forall|a: int, b: int|
                        0 <= a < b < self.entries_seq().len() implies self.entries_seq()[a].0
                        != self.entries_seq()[b].0 by {
                        if a < i {
                            assert(s0.remove(i as int)[a] == s0[a]);
                        } else {
                            assert(s0.remove(i as int)[a] == s0[a + 1]);
                        }
                        if b < i {
                            assert(s0.remove(i as int)[b] == s0[b]);
                        } else {
                            assert(s0.remove(i as int)[b] == s0[b + 1]);
                        }
                    }
                }
                let ghost s1 = self.entries_seq();
                self.entries.push((key, off));
                proof {
                    assert(self.entries_seq() =~= s1.push((key@, off as int)));
                    assert(self.entries_seq().drop_last() =~= s1);
                    lemma_map_of_contains(s1);
                    assert forall|a: int, b: int|
                        0 <= a < b < self.entries_seq().len() implies self.entries_seq()[a].0
                        != self.entries_seq()[b].0 by {
                        if b < self.entries_seq().len() - 1 {
                            assert(s1[a] == self.entries_seq()[a]);
                        }
                    }
                    assert(final(self)@ =~= old(self)@.insert(key@, off as int));
                }
                return ;
            }
            i = i + 1;
        }
        let ghost s1 = self.entries_seq();
        self.entries.push((key, off));
        proof {
            assert(self.entries_seq() =~= s1.push((key@, off as int)));
            assert(self.entries_seq().drop_last() =~= s1);
            lemma_map_of_contains(s1);
            assert forall|a: int, b: int| 0 <= a < b < self.entries_seq().len() implies self
                .entries_seq()[a].0 != self.entries_seq()[b].0 by {
                if b < self.entries_seq().len() - 1 {
                    assert(s1[a] == self.entries_seq()[a]);
                }
            }
            assert(final(self)@ =~= old(self)@.insert(key@, off as int));
        }
    }

    /// Drops any binding for `key`.
    pub fn remove(&mut self, key: &Vec<u8>)
        requires
            old(self).wf(),
        ensures
            final(self).wf(),
            final(self)@ == old(self)@.remove(key@),
    {
        let ghost s0 = self.entries_seq();
        let n = self.entries.len();
        let mut i: usize = 0;
        while i < n
            invariant
                n == self.entries@.len(),
                i <= n,
                self.wf(),
                self == old(self),
                s0 == self.entries_seq(),
                s0.len() == n as int,
                forall|j: int| 0 <= j < i ==> self.entries_seq()[j].0 != key@,
            decreases n - i,
        {
            if bytes_eq(&self.entries[i].0, key) {
                proof {
                    lemma_map_of_remove(s0, i as int);
                }
                self.entries.remove(i);
                proof {
                    assert(self.entries_seq() =~= s0.remove(i as int));
                    assert forall|a: int, b: int|
                        0 <= a < b < self.entries_seq().len() implies self.entries_seq()[a].0
                        != self.entries_seq()[b].0 by {
                        if a < i {
                            assert(s0.remove(i as int)[a] == s0[a]);
                        } else {
                            assert(s0.remove(i as int)[a] == s0[a + 1]);
                        }
                        if b < i {
                            assert(s0.remove(i as int)[b] == s0[b]);
                        } else {
                            assert(s0.remove(i as int)[b] == s0[b + 1]);
                        }
                    }
                }
                return ;
            }
            i = i + 1;
        }
        proof {
            lemma_map_of_contains(s0);
            assert(old(self)@ =~= old(self)@.remove(key@));
        }
    }

    /// The keys of the index, each exactly once.
    pub fn keys(&self) -> (r: Vec<Vec<u8>>)
        requires
            self.wf(),
        ensures
            forall|m: int, n: int| 0 <= m < n < r@.len() ==> r@[m]@ != r@[n]@,
            forall|m: int| 0 <= m < r@.len() ==> self@.contains_key(r@[m]@),
            forall|k: Seq<u8>| #[trigger] self@.contains_key(k) ==> exists|m: int|
                0 <= m < r@.len() && r@[m]@ == k,
    {
        let n = self.entries.len();
        let mut out: Vec<Vec<u8>> = Vec::new();
        let mut i: usize = 0;
        while i < n
            invariant
                n == self.entries@.len(),
                i <= n,
                self.wf(),
                out@.len() == i as int,
                forall|j: int| 0 <= j < i ==> out@[j]@ == self.entries_seq()[j].0,
            decreases n - i,
        {
            let klen = self.entries[i].0.len();
            let key = copy_range(&self.entries[i].0, 0, klen);
            proof {
                assert(key@ =~= self.entries_seq()[i as int].0);
            }
            out.push(key);
            i = i + 1;
        }
        proof {
            lemma_map_of_contains(self.entries_seq());
            assert forall|m: int| 0 <= m < out@.len() implies self@.contains_key(out@[m]@) by {
                assert(self.entries_seq()[m].0 == out@[m]@);
            }
            assert forall|k: Seq<u8>| #[trigger] self@.contains_key(k) implies exists|m: int|
                0 <= m < out@.len() && out@[m]@ == k by {
                let j = choose|j: int| 0 <= j < self.entries_seq().len() && self.entries_seq()[j].0
                    == k;
                assert(out@[j]@ == k);
            }
        }
        out
    }

    /// Rebuilds the index by scanning the log from offset 0: each complete
    /// entry binds its key to its start offset, later entries overwriting
    /// earlier ones. The scan stops at a truncated tail. Returns the index,
    /// the position where the scan stopped, and the number of entries read.
    pub fn rebuild_from(log: &AppendLog) -> (r: (KeyIndex, usize, u64))
        ensures
            r.0.wf(),
            r.0@ == index_of(log@),
            r.1 as int == scan_end(log@, 0),
            16 * r.2 as int <= r.1 as int,
            r.2 as int == records_of(log@).len(),
    {
        let bytes = log.bytes();
        let total = bytes.len();
        let mut idx = KeyIndex::new();
        let mut pos: usize = 0;
        let mut count: u64 = 0;
        let mut done = false;
        proof {
            assert(index_of(log@) =~= idx@.union_prefer_right(index_from(log@, 0)));
        }
        while !done && pos < total
            invariant
                total == log@.len(),
                bytes@ == log@,
                pos <= total,
                idx.wf(),
                scan_end(log@, 0) == scan_end(log@, pos as int),
                index_of(log@) == idx@.union_prefer_right(index_from(log@, pos as int)),
                records_of(log@).len() == count + records_from(log@, pos as int).len(),
                16 * count as int <= pos as int,
                done ==> !entry_ok(log@, pos as int),
            decreases total - pos, (if done { 0int } else { 1int }),
        {
            if total - pos < 16 {
                done = true;
            } else {
                let klen = read_u32_be(bytes, pos + 8);
                let vlen = read_u32_be(bytes, pos + 12);
                proof {
                    assert(key_len_at(log@, pos as int) == klen);
                    assert(val_len_at(log@, pos as int) == vlen);
                }
                let klen_us = klen as usize;
                let vlen_us = vlen as usize;
                let rem = total - pos - 16;
                if klen_us > rem || vlen_us > rem - klen_us {
                    done = true;
                    proof {
                        assert(!entry_ok(log@, pos as int));
                    }
                } else {
                    proof {
                        assert(entry_ok(log@, pos as int));
                    }
                    let key = copy_range(bytes, pos + 16, klen_us);
                    proof {
                        assert(key@ == key_at(log@, pos as int));
                    }
                    let ghost old_idx = idx@;
                    idx.insert(key, pos);
                    let end = pos + 16 + klen_us + vlen_us;
                    proof {
                        assert(end as int == entry_end(log@, pos as int));
                        assert(16 * (count as int + 1) <= end as int);
                        let k = key_at(log@, pos as int);
                        let rest = index_from(log@, end as int);
                        if rest.contains_key(k) {
                            assert(index_from(log@, pos as int) == rest);
                            assert(old_idx.insert(k, pos as int).union_prefer_right(rest)
                                =~= old_idx.union_prefer_right(index_from(log@, pos as int)));
                        } else {
                            assert(index_from(log@, pos as int) == rest.insert(k, pos as int));
                            assert(old_idx.insert(k, pos as int).union_prefer_right(rest)
                                =~= old_idx.union_prefer_right(index_from(log@, pos as int)));
                        }
                        assert(records_from(log@, pos as int).len() == 1 + records_from(
                            log@,
                            end as int,
                        ).len());
                        assert(scan_end(log@, pos as int) == scan_end(log@, end as int));
                    }
                    count = count + 1;
                    pos = end;
                }
            }
        }
        proof {
            assert(scan_end(log@, pos as int) == pos as int);
            assert(index_from(log@, pos as int) == Map::<Seq<u8>, int>::empty());
            assert(idx@ =~= idx@.union_prefer_right(index_from(log@, pos as int)));
            assert(records_from(log@, pos as int).len() == 0);
        }
        (idx, pos, count)
    }
}

} // verus!
