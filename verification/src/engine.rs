//! The storage engine: an append-only log paired with the in-memory index.
//! Every mutation appends a record to the log and updates the index in the
//! same step, so the index always equals a full replay of the log.
use vstd::prelude::*;
use vstd::pervasive::unreached;

use crate::errors::KvError;
use crate::format::{
    encode_record, record_len, replay, valid_key, valid_value, value_at,
};
use crate::keydir::{
    copy_bytes, entries_map, entries_size, lemma_entries_map_contains, lemma_entries_map_index,
    lemma_entries_size_take, unique_keys, Entry, KeyDir,
};
use crate::log::{entry_in_log, Log};

verus! {

/// The log that rewriting only the live records produces: for each index
/// entry, in order, one live record holding the key's current value.
pub open spec fn compact(log: Seq<u8>, s: Seq<Entry>) -> Seq<u8>
    decreases s.len(),
{
    if s.len() == 0 {
        Seq::<u8>::empty()
    } else {
        compact(log, s.drop_last()) + encode_record(
            s.last().key@,
            Some(value_at(log, s.last().loc())),
        )
    }
}

/// Extending a log does not move or change the bytes that index entries
/// point at.
pub proof fn lemma_values_stable(entries: Seq<Entry>, log: Seq<u8>, ext: Seq<u8>)
    requires
        unique_keys(entries),
        forall|i: int| 0 <= i < entries.len() ==> entry_in_log(log, #[trigger] entries[i]),
    ensures
        forall|k: Seq<u8>| #[trigger]
            entries_map(entries).contains_key(k) ==> value_at(log + ext, entries_map(entries)[k])
                == value_at(log, entries_map(entries)[k]),
        forall|i: int| 0 <= i < entries.len() ==> entry_in_log(log + ext, #[trigger] entries[i]),
{
    assert forall|k: Seq<u8>| #[trigger] entries_map(entries).contains_key(k) implies value_at(
        log + ext,
        entries_map(entries)[k],
    ) == value_at(log, entries_map(entries)[k]) by {
        lemma_entries_map_contains(entries, k);
        let i = choose|i: int| 0 <= i < entries.len() && entries[i].key@ == k;
        lemma_entries_map_index(entries, i);
        let loc = entries_map(entries)[k];
        assert(entry_in_log(log, entries[i]));
        assert(loc == entries[i].loc());
        assert((log + ext).subrange(loc.0 as int, loc.0 + loc.1) =~= log.subrange(
            loc.0 as int,
            loc.0 + loc.1,
        ));
    }
}

pub struct MiniBitcask {
    pub log: Log,
    pub keydir: KeyDir,
}

impl View for MiniBitcask {
    type V = Map<Seq<u8>, Seq<u8>>;

    /// The store a reader observes: each indexed key maps to the log bytes
    /// its entry points at.
    open spec fn view(&self) -> Map<Seq<u8>, Seq<u8>> {
        Map::new(
            |k: Seq<u8>| self.keydir@.contains_key(k),
            |k: Seq<u8>| value_at(self.log@, self.keydir@[k]),
        )
    }
}

impl MiniBitcask {
    /// The index has distinct keys, equals a full replay of the log, points
    /// only at byte ranges inside the log, and accounts for no more bytes
    /// than the log holds.
    pub open spec fn wf(self) -> bool {
        &&& self.keydir.wf()
        &&& replay(self.log@) == Some(self.keydir@)
        &&& entries_size(self.keydir.entries@) <= self.log@.len()
        &&& forall|i: int|
            0 <= i < self.keydir.entries@.len() ==> entry_in_log(
                self.log@,
                #[trigger] self.keydir.entries@[i],
            )
    }

    /// Open an engine over a log's bytes, rebuilding the index by full replay.
    pub fn new(data: Vec<u8>) -> (r: Result<MiniBitcask, KvError>)
        ensures
            match r {
                Ok(e) => e.wf() && e.log@ == data@ && replay(data@) == Some(e.keydir@),
                Err(err) => err == KvError::Corruption && replay(data@) is None,
            },
    {
        let log = Log::new(data);
        match log.load_index() {
            Ok(keydir) => Ok(MiniBitcask { log, keydir }),
            Err(e) => Err(e),
        }
    }

    /// Look `key` up in the index and read its value bytes from the log;
    /// absent keys return `None` and nothing is mutated.
    pub fn get(&self, key: &[u8]) -> (r: Result<Option<Vec<u8>>, KvError>)
        requires
            self.wf(),
        ensures
            match r {
                Ok(Some(v)) => self@.contains_key(key@) && v@ == self@[key@],
                Ok(None) => !self@.contains_key(key@),
                Err(_) => false,
            },
    {
        match self.keydir.lookup(key) {
            Some((value_pos, value_len)) => {
                proof {
                    lemma_entries_map_contains(self.keydir.entries@, key@);
                    let i = choose|i: int|
                        0 <= i < self.keydir.entries@.len() && self.keydir.entries@[i].key@
                            == key@;
                    lemma_entries_map_index(self.keydir.entries@, i);
                    assert(entry_in_log(self.log@, self.keydir.entries@[i]));
                }
                match self.log.read_value(value_pos, value_len) {
                    Ok(v) => Ok(Some(v)),
                    Err(_) => unreached(),
                }
            },
            None => Ok(None),
        }
    }

    /// Append a live record for `key` and install the value's location in the
    /// index; the log grows by exactly the one record and every older byte
    /// stays in place.
    pub fn set(&mut self, key: &[u8], value: Vec<u8>) -> (r: Result<(), KvError>)
        requires
            old(self).wf(),
            valid_key(key@),
            valid_value(value@),
            old(self).log@.len() + record_len(key@, Some(value@)) <= usize::MAX,
            record_len(key@, Some(value@)) <= u32::MAX,
        ensures
            final(self).wf(),
            r == Ok::<(), KvError>(()),
            final(self)@ == old(self)@.insert(key@, value@),
            final(self).log@ == old(self).log@ + encode_record(key@, Some(value@)),
    {
        let ghost old_log = self.log@;
        let ghost old_entries = self.keydir.entries@;
        let ghost rec = encode_record(key@, Some(value@));
        let value_len = value.len() as u32;
        let wr = self.log.write_entry(key, Some(value.as_slice()));
        let (offset, total) = match wr {
            Ok(x) => x,
            Err(_) => unreached(),
        };
        proof {
            crate::format::lemma_replay_append(
                old_log,
                0,
                Map::empty(),
                key@,
                Some(value@),
            );
            lemma_values_stable(old_entries, old_log, rec);
        }
        let value_pos = offset + total as u64 - value_len as u64;
        let owned_key = copy_bytes(key);
        self.keydir.insert(owned_key, value_pos, value_len);
        proof {
            let ghost vp = (old_log.len() + 8 + key@.len()) as u64;
            assert(value_pos == vp);
            assert(self.keydir@ == entries_map(old_entries).insert(key@, (vp, value_len)));
            assert(replay(self.log@) == Some(self.keydir@));
            // the appended record's value bytes are exactly `value`
            assert(value_at(self.log@, (vp, value_len)) =~= value@) by {
                assert(forall|t: int|
                    0 <= t < value@.len() ==> self.log@[vp + t] == value@[t]);
            }
            // well-formedness of the new index
            assert forall|i: int|
                0 <= i < self.keydir.entries@.len() implies entry_in_log(
                self.log@,
                #[trigger] self.keydir.entries@[i],
            ) by {
                let e = self.keydir.entries@[i];
                if e.key@ == key@ && e.value_pos == value_pos && e.value_len == value_len {
                    assert(entry_in_log(self.log@, e));
                } else {
                    assert(old_entries.contains(e));
                    let x = choose|x: int| 0 <= x < old_entries.len() && old_entries[x] == e;
                    assert(entry_in_log(old_log + rec, old_entries[x]));
                }
            }
            // the observed store gains exactly key -> value
            assert(self@ =~= old(self)@.insert(key@, value@));
        }
        Ok(())
    }

    /// Append a tombstone for `key` and drop it from the index; deleting an
    /// absent key still appends the tombstone and succeeds.
    pub fn delete(&mut self, key: &[u8]) -> (r: Result<(), KvError>)
        requires
            old(self).wf(),
            valid_key(key@),
            old(self).log@.len() + record_len(key@, None) <= usize::MAX,
            record_len(key@, None) <= u32::MAX,
        ensures
            final(self).wf(),
            r == Ok::<(), KvError>(()),
            final(self)@ == old(self)@.remove(key@),
            final(self).log@ == old(self).log@ + encode_record(key@, None),
    {
        let ghost old_log = self.log@;
        let ghost old_entries = self.keydir.entries@;
        let ghost rec = encode_record(key@, None);
        let wr = self.log.write_entry(key, None);
        let (_offset, _total) = match wr {
            Ok(x) => x,
            Err(_) => unreached(),
        };
        proof {
            crate::format::lemma_replay_append(old_log, 0, Map::empty(), key@, None);
            lemma_values_stable(old_entries, old_log, rec);
        }
        self.keydir.remove(key);
        proof {
            assert(self.keydir@ == entries_map(old_entries).remove(key@));
            assert(replay(self.log@) == Some(self.keydir@));
            assert forall|i: int|
                0 <= i < self.keydir.entries@.len() implies entry_in_log(
                self.log@,
                #[trigger] self.keydir.entries@[i],
            ) by {
                let e = self.keydir.entries@[i];
                assert(old_entries.contains(e));
                let x = choose|x: int| 0 <= x < old_entries.len() && old_entries[x] == e;
                assert(entry_in_log(old_log + rec, old_entries[x]));
            }
            assert(self@ =~= old(self)@.remove(key@));
        }
        Ok(())
    }

    /// Rewrite only the live records into a fresh log, in ascending key
    /// order, and swap log and index in together: the observed store is
    /// unchanged and the new log is never larger than the old one.
    pub fn merge(&mut self) -> (r: Result<(), KvError>)
        requires
            old(self).wf(),
        ensures
            final(self).wf(),
            match r {
                Ok(()) => {
                    &&& final(self)@ == old(self)@
                    &&& final(self).log@ == compact(old(self).log@, old(self).keydir.entries@)
                    &&& final(self).log@.len() <= old(self).log@.len()
                },
                Err(e) => {
                    &&& e == KvError::Corruption
                    &&& *final(self) == *old(self)
                    &&& exists|i: int|
                        0 <= i < old(self).keydir.entries@.len() && (#[trigger] old(
                            self,
                        ).keydir.entries@[i]).size() > u32::MAX
                },
            },
    {
        let ghost l = self.log@;
        let ghost es = self.keydir.entries@;
        let total_size = self.log.size();
        let mut new_log = Log::new(Vec::new());
        let mut new_kd = KeyDir::new();
        let n = self.keydir.len();
        let mut idx: usize = 0;
        proof {
            assert(es.take(0) =~= Seq::<Entry>::empty());
        }
        while idx < n
            invariant
                self == old(self),
                old(self).wf(),
                l == self.log@,
                es == self.keydir.entries@,
                total_size == l.len(),
                n == es.len(),
                0 <= idx <= n,
                new_kd.wf(),
                new_log@ == compact(l, es.take(idx as int)),
                new_log@.len() == entries_size(es.take(idx as int)),
                replay(new_log@) == Some(new_kd@),
                entries_size(new_kd.entries@) <= new_log@.len(),
                forall|j: int|
                    0 <= j < new_kd.entries@.len() ==> entry_in_log(
                        new_log@,
                        #[trigger] new_kd.entries@[j],
                    ),
                forall|k: Seq<u8>| #[trigger]
                    new_kd@.contains_key(k) <==> exists|j: int|
                        0 <= j < idx && (#[trigger] es[j]).key@ == k,
                forall|j: int|
                    0 <= j < idx ==> new_kd@.contains_key((#[trigger] es[j]).key@) && value_at(
                        new_log@,
                        new_kd@[es[j].key@],
                    ) == value_at(l, es[j].loc()),
            decreases n - idx,
        {
            let e_key = copy_bytes(self.keydir.entries[idx].key.as_slice());
            let value_pos = self.keydir.entries[idx].value_pos;
            let value_len = self.keydir.entries[idx].value_len;
            proof {
                lemma_entries_map_index(es, idx as int);
                lemma_entries_size_take(es, idx as int);
                assert(entry_in_log(l, es[idx as int]));
            }
            let value = match self.log.read_value(value_pos, value_len) {
                Ok(v) => v,
                Err(_) => unreached(),
            };
            if 8u64 + e_key.len() as u64 + value_len as u64 > u32::MAX as u64 {
                proof {
                    assert(es[idx as int].size() > u32::MAX);
                }
                return Err(KvError::Corruption);
            }
            let ghost prev_log = new_log@;
            let ghost prev_entries = new_kd.entries@;
            let ghost rec = encode_record(e_key@, Some(value@));
            let wr = new_log.write_entry(e_key.as_slice(), Some(value.as_slice()));
            let (offset, total) = match wr {
                Ok(x) => x,
                Err(_) => unreached(),
            };
            proof {
                crate::format::lemma_replay_append(
                    prev_log,
                    0,
                    Map::empty(),
                    e_key@,
                    Some(value@),
                );
                lemma_values_stable(prev_entries, prev_log, rec);
            }
            let new_value_pos = offset + total as u64 - value_len as u64;
            new_kd.insert(e_key, new_value_pos, value_len);
            idx += 1;
            proof {
                let ghost i = idx - 1;
                assert(es.take(idx as int).drop_last() =~= es.take(i));
                assert(es.take(idx as int).last() == es[i]);
                assert(value@ == value_at(l, es[i].loc()));
                assert(new_log@ == compact(l, es.take(idx as int)));
                let ghost vp = (prev_log.len() + 8 + es[i].key@.len()) as u64;
                assert(new_value_pos == vp);
                assert(new_kd@ == entries_map(prev_entries).insert(
                    es[i].key@,
                    (vp, value_len),
                ));
                assert(value_at(new_log@, (vp, value_len)) =~= value@) by {
                    assert(forall|t: int|
                        0 <= t < value@.len() ==> new_log@[vp + t] == value@[t]);
                }
                assert forall|j: int|
                    0 <= j < new_kd.entries@.len() implies entry_in_log(
                    new_log@,
                    #[trigger] new_kd.entries@[j],
                ) by {
                    let e = new_kd.entries@[j];
                    if !(e.key@ == es[i].key@ && e.value_pos == new_value_pos && e.value_len
                        == value_len) {
                        assert(prev_entries.contains(e));
                        let x = choose|x: int|
                            0 <= x < prev_entries.len() && prev_entries[x] == e;
                        assert(entry_in_log(prev_log + rec, prev_entries[x]));
                    }
                }
                assert forall|j: int|
                    0 <= j < idx implies new_kd@.contains_key((#[trigger] es[j]).key@)
                    && value_at(new_log@, new_kd@[es[j].key@]) == value_at(l, es[j].loc()) by {
                    if j < i {
                        assert(es[j].key@ != es[i].key@);
                        assert(entries_map(prev_entries).contains_key(es[j].key@));
                    }
                }
            }
        }
        proof {
            assert(es.take(n as int) =~= es);
        }
        self.log = new_log;
        self.keydir = new_kd;
        proof {
            assert forall|k: Seq<u8>| #[trigger]
                entries_map(es).contains_key(k) implies self@.contains_key(k) && self@[k]
                == value_at(l, entries_map(es)[k]) by {
                lemma_entries_map_contains(es, k);
                let j = choose|j: int| 0 <= j < es.len() && es[j].key@ == k;
                lemma_entries_map_index(es, j);
            }
            assert forall|k: Seq<u8>| #[trigger]
                self.keydir@.contains_key(k) implies entries_map(es).contains_key(k) by {
                let j = choose|j: int| 0 <= j < n && (#[trigger] es[j]).key@ == k;
                lemma_entries_map_contains(es, k);
            }
            assert(self@ =~= old(self)@);
        }
        Ok(())
    }

    /// Force buffered writes down; the in-memory log has none, so the engine
    /// is returned unchanged. A file-backed host syncs its file here.
    pub fn flush(&mut self) -> (r: Result<(), KvError>)
        ensures
            *final(self) == *old(self),
            r == Ok::<(), KvError>(()),
    {
        Ok(())
    }
}

} // verus!
