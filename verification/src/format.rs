//! The on-disk record format of the log: big-endian 32-bit length fields,
//! length-prefixed records, and the replay function that rebuilds the index
//! from a full forward scan of a log's bytes.
use vstd::prelude::*;

verus! {

/// Sentinel written in the value-length field of a deletion record.
pub const TOMBSTONE: u32 = 0xFFFF_FFFF;

/// The unsigned 32-bit value encoded big-endian by four bytes.
pub open spec fn be32(b0: u8, b1: u8, b2: u8, b3: u8) -> u32 {
    ((b0 as u32) << 24) | ((b1 as u32) << 16) | ((b2 as u32) << 8) | (b3 as u32)
}

/// The four big-endian bytes of an unsigned 32-bit value, most significant first.
pub open spec fn be_bytes(n: u32) -> Seq<u8> {
    seq![
        ((n >> 24) & 0xff) as u8,
        ((n >> 16) & 0xff) as u8,
        ((n >> 8) & 0xff) as u8,
        (n & 0xff) as u8,
    ]
}

pub proof fn lemma_be_bytes_roundtrip(n: u32)
    ensures
        be32(be_bytes(n)[0], be_bytes(n)[1], be_bytes(n)[2], be_bytes(n)[3]) == n,
{
    assert(be_bytes(n)[0] == ((n >> 24) & 0xff) as u8);
    assert(be_bytes(n)[1] == ((n >> 16) & 0xff) as u8);
    assert(be_bytes(n)[2] == ((n >> 8) & 0xff) as u8);
    assert(be_bytes(n)[3] == (n & 0xff) as u8);
    assert(((((n >> 24) & 0xff) as u8 as u32) << 24) | ((((n >> 16) & 0xff) as u8 as u32) << 16)
        | ((((n >> 8) & 0xff) as u8 as u32) << 8) | ((n & 0xff) as u8 as u32) == n)
        by (bit_vector);
}

/// A value-length field with the high bit set marks a deletion record.
pub open spec fn is_tombstone(vfield: u32) -> bool {
    vfield >= 0x8000_0000
}

/// Keys must fit the 4-byte unsigned length field.
pub open spec fn valid_key(key: Seq<u8>) -> bool {
    key.len() <= u32::MAX
}

/// Values must fit the non-negative range of the signed 4-byte length field.
pub open spec fn valid_value(value: Seq<u8>) -> bool {
    value.len() <= 0x7FFF_FFFF
}

pub open spec fn valid_record(key: Seq<u8>, value: Option<Seq<u8>>) -> bool {
    valid_key(key) && match value {
        Some(v) => valid_value(v),
        None => true,
    }
}

/// The sequences that an optional borrowed value denotes.
pub open spec fn opt_view(value: Option<&[u8]>) -> Option<Seq<u8>> {
    match value {
        Some(v) => Some(v@),
        None => None,
    }
}

/// The value-length field of a record: the value's length, or the tombstone sentinel.
pub open spec fn vfield_of(value: Option<Seq<u8>>) -> u32 {
    match value {
        Some(v) => v.len() as u32,
        None => TOMBSTONE,
    }
}

/// Total encoded length of a record: two 4-byte headers, the key, and the value if live.
pub open spec fn record_len(key: Seq<u8>, value: Option<Seq<u8>>) -> int {
    8 + key.len() + match value {
        Some(v) => v.len() as int,
        None => 0,
    }
}

/// The byte encoding of one record: key length, value length or tombstone,
/// key bytes, then value bytes (absent for a tombstone).
pub open spec fn encode_record(key: Seq<u8>, value: Option<Seq<u8>>) -> Seq<u8> {
    be_bytes(key.len() as u32) + be_bytes(vfield_of(value)) + key + match value {
        Some(v) => v,
        None => Seq::<u8>::empty(),
    }
}

/// The bytes that an index entry `loc` points at inside a log.
pub open spec fn value_at(log: Seq<u8>, loc: (u64, u32)) -> Seq<u8> {
    log.subrange(loc.0 as int, loc.0 + loc.1)
}

/// One forward scan of `log` starting at `pos` with the index built so far in `kd`:
/// each decoded live record overrides the key's entry, each tombstone removes it.
/// `None` is corruption: a record's declared lengths run past the end of the log.
pub open spec fn replay_from(log: Seq<u8>, pos: int, kd: Map<Seq<u8>, (u64, u32)>) -> Option<
    Map<Seq<u8>, (u64, u32)>,
>
    decreases log.len() - pos,
{
    if pos == log.len() {
        Some(kd)
    } else if pos < 0 || pos > log.len() || log.len() - pos < 8 {
        None
    } else {
        let key_len = be32(log[pos], log[pos + 1], log[pos + 2], log[pos + 3]) as int;
        let vfield = be32(log[pos + 4], log[pos + 5], log[pos + 6], log[pos + 7]);
        let value_pos = pos + 8 + key_len;
        if value_pos > log.len() {
            None
        } else {
            let key = log.subrange(pos + 8, value_pos);
            if is_tombstone(vfield) {
                replay_from(log, value_pos, kd.remove(key))
            } else if value_pos + vfield <= log.len() {
                replay_from(
                    log,
                    value_pos + vfield,
                    kd.insert(key, (value_pos as u64, vfield as u32)),
                )
            } else {
                None
            }
        }
    }
}

/// The index that a full scan of `log` yields, or `None` if the log is corrupt.
pub open spec fn replay(log: Seq<u8>) -> Option<Map<Seq<u8>, (u64, u32)>> {
    replay_from(log, 0, Map::empty())
}

/// The index that replaying `log` followed by one appended record yields:
/// the appended record overrides the key, exactly as a live scan would.
pub open spec fn apply_record(
    kd: Map<Seq<u8>, (u64, u32)>,
    log_len: int,
    key: Seq<u8>,
    value: Option<Seq<u8>>,
) -> Map<Seq<u8>, (u64, u32)> {
    match value {
        Some(v) => kd.insert(key, ((log_len + 8 + key.len()) as u64, v.len() as u32)),
        None => kd.remove(key),
    }
}

/// Appending one well-formed record to a log that replays to `Some`
/// replays to the record applied on top of the old index.
pub proof fn lemma_replay_append(
    log: Seq<u8>,
    pos: int,
    kd: Map<Seq<u8>, (u64, u32)>,
    key: Seq<u8>,
    value: Option<Seq<u8>>,
)
    requires
        0 <= pos <= log.len(),
        replay_from(log, pos, kd) is Some,
        valid_record(key, value),
        log.len() + record_len(key, value) <= u64::MAX,
    ensures
        replay_from(log + encode_record(key, value), pos, kd) == Some(
            apply_record(replay_from(log, pos, kd)->Some_0, log.len() as int, key, value),
        ),
    decreases log.len() - pos,
{
    let rec = encode_record(key, value);
    let log2 = log + rec;
    assert(rec.len() == record_len(key, value));
    if pos == log.len() {
        let klen32 = key.len() as u32;
        let vfield = vfield_of(value);
        assert(log2.len() - pos == rec.len());
        assert forall|i: int| 0 <= i < rec.len() implies log2[pos + i] == rec[i] by {}
        assert(rec[0] == be_bytes(klen32)[0]);
        assert(rec[1] == be_bytes(klen32)[1]);
        assert(rec[2] == be_bytes(klen32)[2]);
        assert(rec[3] == be_bytes(klen32)[3]);
        assert(rec[4] == be_bytes(vfield)[0]);
        assert(rec[5] == be_bytes(vfield)[1]);
        assert(rec[6] == be_bytes(vfield)[2]);
        assert(rec[7] == be_bytes(vfield)[3]);
        lemma_be_bytes_roundtrip(klen32);
        lemma_be_bytes_roundtrip(vfield);
        assert(be32(log2[pos], log2[pos + 1], log2[pos + 2], log2[pos + 3]) == klen32);
        assert(be32(log2[pos + 4], log2[pos + 5], log2[pos + 6], log2[pos + 7]) == vfield);
        let key_len = klen32 as int;
        assert(key_len == key.len());
        let value_pos = pos + 8 + key_len;
        assert(value_pos <= log2.len());
        assert(log2.subrange(pos + 8, value_pos) =~= key);
        match value {
            Some(v) => {
                assert(!is_tombstone(vfield));
                assert(vfield == v.len() as u32);
                assert(value_pos + vfield == log2.len());
                assert(replay_from(log2, value_pos + vfield, kd.insert(key, (value_pos as u64, vfield as u32)))
                    == Some(kd.insert(key, (value_pos as u64, vfield as u32))));
            },
            None => {
                assert(is_tombstone(vfield));
                assert(value_pos == log2.len());
                assert(replay_from(log2, value_pos, kd.remove(key)) == Some(kd.remove(key)));
            },
        }
    } else {
        assert(log.len() - pos >= 8);
        assert forall|i: int| pos <= i < log.len() implies log2[i] == log[i] by {}
        let key_len = be32(log[pos], log[pos + 1], log[pos + 2], log[pos + 3]) as int;
        let vfield = be32(log[pos + 4], log[pos + 5], log[pos + 6], log[pos + 7]);
        let value_pos = pos + 8 + key_len;
        assert(value_pos <= log.len());
        assert(log2.subrange(pos + 8, value_pos) =~= log.subrange(pos + 8, value_pos));
        let k = log.subrange(pos + 8, value_pos);
        if is_tombstone(vfield) {
            lemma_replay_append(log, value_pos, kd.remove(k), key, value);
        } else {
            assert(value_pos + vfield <= log.len());
            lemma_replay_append(
                log,
                value_pos + vfield,
                kd.insert(k, (value_pos as u64, vfield as u32)),
                key,
                value,
            );
        }
    }
}

} // verus!
