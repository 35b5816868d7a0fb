//! The append-only log: an ordered byte sequence to which encoded records are
//! appended, read back positionally, and replayed in full to rebuild the index.
use vstd::prelude::*;

use crate::errors::KvError;
use crate::format::{
    be32, be_bytes, encode_record, is_tombstone, opt_view, record_len, replay, replay_from,
    valid_key, valid_record, TOMBSTONE,
};
use crate::keydir::{entries_size, Entry, KeyDir};

verus! {

/// An index entry is consistent with a log: it points at a byte range of the
/// log that lies behind a record's two headers and its key.
pub open spec fn entry_in_log(log: Seq<u8>, e: Entry) -> bool {
    &&& valid_key(e.key@)
    &&& 8 + e.key@.len() <= e.value_pos
    &&& e.value_pos + e.value_len <= log.len()
    &&& e.value_len < 0x8000_0000
}

/// Append the four big-endian bytes of `n`.
pub fn push_be32(out: &mut Vec<u8>, n: u32)
    requires
        old(out)@.len() + 4 <= usize::MAX,
    ensures
        final(out)@ == old(out)@ + be_bytes(n),
{
    out.push(((n >> 24) & 0xff) as u8);
    out.push(((n >> 16) & 0xff) as u8);
    out.push(((n >> 8) & 0xff) as u8);
    out.push((n & 0xff) as u8);
    proof {
        assert(out@ =~= old(out)@ + be_bytes(n));
    }
}

/// Read the big-endian 32-bit field at offset `i`.
pub fn read_be32(data: &Vec<u8>, i: usize) -> (r: u32)
    requires
        i + 4 <= data@.len(),
    ensures
        r == be32(data@[i as int], data@[i as int + 1], data@[i as int + 2], data@[i as int + 3]),
{
    let n = data.len();
    ((data[i] as u32) << 24) | ((data[i + 1] as u32) << 16) | ((data[i + 2] as u32) << 8) | (data[i
        + 3] as u32)
}

/// Append the encoding of one record: key length, value length or tombstone,
/// key bytes, then value bytes.
pub fn append_record(out: &mut Vec<u8>, key: &[u8], value: Option<&[u8]>)
    requires
        valid_record(key@, opt_view(value)),
        old(out)@.len() + record_len(key@, opt_view(value)) <= usize::MAX,
    ensures
        final(out)@ == old(out)@ + encode_record(key@, opt_view(value)),
{
    let key_len = key.len() as u32;
    let vfield: u32 = match value {
        Some(v) => v.len() as u32,
        None => TOMBSTONE,
    };
    push_be32(out, key_len);
    push_be32(out, vfield);
    let ghost mark = out@;
    let kn = key.len();
    let mut i: usize = 0;
    while i < kn
        invariant
            kn == key@.len(),
            0 <= i <= kn,
            out@ == mark + key@.subrange(0, i as int),
            out@.len() + (kn - i) <= usize::MAX,
        decreases kn - i,
    {
        out.push(key[i]);
        proof {
            assert(out@ =~= mark + key@.subrange(0, i + 1));
        }
        i += 1;
    }
    proof {
        assert(key@.subrange(0, kn as int) =~= key@);
    }
    match value {
        Some(v) => {
            let ghost mark2 = out@;
            let vn = v.len();
            let mut j: usize = 0;
            while j < vn
                invariant
                    vn == v@.len(),
                    0 <= j <= vn,
                    out@ == mark2 + v@.subrange(0, j as int),
                    out@.len() + (vn - j) <= usize::MAX,
                decreases vn - j,
            {
                out.push(v[j]);
                proof {
                    assert(out@ =~= mark2 + v@.subrange(0, j + 1));
                }
                j += 1;
            }
            proof {
                assert(v@.subrange(0, vn as int) =~= v@);
                assert(out@ =~= old(out)@ + encode_record(key@, opt_view(value)));
            }
        },
        None => {
            proof {
                assert(out@ =~= old(out)@ + encode_record(key@, opt_view(value)));
            }
        },
    }
}

/// Encode one record on its own; a file-backed host appends these bytes to
/// its log file exactly as `write_entry` appends them to the in-memory log.
pub fn encode_entry(key: &[u8], value: Option<&[u8]>) -> (r: Vec<u8>)
    requires
        valid_record(key@, opt_view(value)),
        record_len(key@, opt_view(value)) <= usize::MAX,
    ensures
        r@ == encode_record(key@, opt_view(value)),
{
    let mut out: Vec<u8> = Vec::new();
    append_record(&mut out, key, value);
    out
}

pub struct Log {
    pub data: Vec<u8>,
}

impl View for Log {
    type V = Seq<u8>;

    open spec fn view(&self) -> Seq<u8> {
        self.data@
    }
}

impl Log {
    /// Open a log over its current bytes (empty for a fresh log).
    pub fn new(data: Vec<u8>) -> (log: Log)
        ensures
            log@ == data@,
    {
        Log { data }
    }

    /// Current total size of the log in bytes.
    pub fn size(&self) -> (n: usize)
        ensures
            n == self@.len(),
    {
        self.data.len()
    }

    /// Serialize one record and append it at the log's end. Returns the offset
    /// where the record begins and its total encoded length; the value's own
    /// offset is `start + total - value_len`.
    pub fn write_entry(&mut self, key: &[u8], value: Option<&[u8]>) -> (r: Result<
        (u64, u32),
        KvError,
    >)
        requires
            valid_record(key@, opt_view(value)),
            old(self)@.len() + record_len(key@, opt_view(value)) <= usize::MAX,
            record_len(key@, opt_view(value)) <= u32::MAX,
        ensures
            final(self)@ == old(self)@ + encode_record(key@, opt_view(value)),
            r == Ok::<(u64, u32), KvError>(
                (old(self)@.len() as u64, record_len(key@, opt_view(value)) as u32),
            ),
    {
        let offset = self.data.len();
        append_record(&mut self.data, key, value);
        let total: usize = match value {
            Some(v) => 8 + key.len() + v.len(),
            None => 8 + key.len(),
        };
        Ok((offset as u64, total as u32))
    }

    /// Read exactly `value_len` bytes at `value_pos`; a range that runs past
    /// the end of the log is a short read, reported as corruption.
    pub fn read_value(&self, value_pos: u64, value_len: u32) -> (r: Result<Vec<u8>, KvError>)
        ensures
            match r {
                Ok(v) => value_pos + value_len <= self@.len() && v@ == self@.subrange(
                    value_pos as int,
                    value_pos + value_len,
                ),
                Err(e) => e == KvError::Corruption && value_pos + value_len > self@.len(),
            },
    {
        let n = self.data.len();
        if value_pos > n as u64 || value_len as u64 > n as u64 - value_pos {
            return Err(KvError::Corruption);
        }
        let start = value_pos as usize;
        let len = value_len as usize;
        let mut v: Vec<u8> = Vec::new();
        let mut i: usize = 0;
        while i < len
            invariant
                n == self@.len(),
                start + len <= n,
                0 <= i <= len,
                v@ == self@.subrange(start as int, start + i),
            decreases len - i,
        {
            v.push(self.data[start + i]);
            proof {
                assert(v@ =~= self@.subrange(start as int, start + i + 1));
            }
            i += 1;
        }
        Ok(v)
    }

    /// Rebuild the index by one full forward scan of the log, later records
    /// overriding earlier ones; a truncated record is fatal corruption.
    pub fn load_index(&self) -> (r: Result<KeyDir, KvError>)
        ensures
            match r {
                Ok(kd) => {
                    &&& kd.wf()
                    &&& replay(self@) == Some(kd@)
                    &&& entries_size(kd.entries@) <= self@.len()
                    &&& forall|i: int|
                        0 <= i < kd.entries@.len() ==> entry_in_log(
                            self@,
                            #[trigger] kd.entries@[i],
                        )
                },
                Err(e) => e == KvError::Corruption && replay(self@) is None,
            },
    {
        let n = self.data.len();
        let mut kd = KeyDir::new();
        let mut pos: usize = 0;
        while pos < n
            invariant
                n == self@.len(),
                0 <= pos <= n,
                kd.wf(),
                replay_from(self@, pos as int, kd@) == replay(self@),
                entries_size(kd.entries@) <= pos as int,
                forall|i: int|
                    0 <= i < kd.entries@.len() ==> entry_in_log(self@, #[trigger] kd.entries@[i]),
            decreases n - pos,
        {
            if n - pos < 8 {
                return Err(KvError::Corruption);
            }
            let key_len_u32 = read_be32(&self.data, pos);
            let vfield = read_be32(&self.data, pos + 4);
            let key_len = key_len_u32 as usize;
            if key_len > n - pos - 8 {
                return Err(KvError::Corruption);
            }
            let value_pos = pos + 8 + key_len;
            let mut key: Vec<u8> = Vec::new();
            let mut i: usize = pos + 8;
            while i < value_pos
                invariant
                    pos + 8 <= i <= value_pos <= n,
                    n == self@.len(),
                    key@ == self@.subrange(pos + 8, i as int),
                decreases value_pos - i,
            {
                key.push(self.data[i]);
                proof {
                    assert(key@ =~= self@.subrange(pos + 8, i + 1));
                }
                i += 1;
            }
            let ghost prev_pos = pos as int;
            let ghost prev_kd = kd@;
            let ghost prev_entries = kd.entries@;
            if vfield >= 0x8000_0000 {
                kd.remove(key.as_slice());
                pos = value_pos;
                proof {
                    assert(is_tombstone(vfield));
                    assert(replay_from(self@, prev_pos, prev_kd) == replay_from(
                        self@,
                        pos as int,
                        kd@,
                    ));
                    assert forall|j: int|
                        0 <= j < kd.entries@.len() implies entry_in_log(
                        self@,
                        #[trigger] kd.entries@[j],
                    ) by {
                        assert(prev_entries.contains(kd.entries@[j]));
                        let x = choose|x: int|
                            0 <= x < prev_entries.len() && prev_entries[x] == kd.entries@[j];
                        assert(entry_in_log(self@, prev_entries[x]));
                    }
                }
            } else {
                if vfield as usize > n - value_pos {
                    return Err(KvError::Corruption);
                }
                kd.insert(key, value_pos as u64, vfield);
                pos = value_pos + vfield as usize;
                proof {
                    assert(!is_tombstone(vfield));
                    assert(replay_from(self@, prev_pos, prev_kd) == replay_from(
                        self@,
                        pos as int,
                        kd@,
                    ));
                    assert forall|j: int|
                        0 <= j < kd.entries@.len() implies entry_in_log(
                        self@,
                        #[trigger] kd.entries@[j],
                    ) by {
                        let e = kd.entries@[j];
                        if !(e.key@ == self@.subrange(prev_pos + 8, value_pos as int)
                            && e.value_pos == value_pos as u64 && e.value_len == vfield) {
                            assert(prev_entries.contains(e));
                            let x = choose|x: int|
                                0 <= x < prev_entries.len() && prev_entries[x] == e;
                            assert(entry_in_log(self@, prev_entries[x]));
                        }
                    }
                }
            }
        }
        proof {
            assert(replay_from(self@, pos as int, kd@) == Some(kd@));
        }
        Ok(kd)
    }
}

} // verus!
