//! The log record codec: the binary layout of one log entry and the
//! functions that encode and decode it.
//!
//! One entry is a fixed 16-byte big-endian header — timestamp (8 bytes),
//! key length (4 bytes), value length (4 bytes) — followed by the raw key
//! bytes and the raw value bytes. A zero-length value marks a tombstone.

use vstd::prelude::*;

verus! {

/// The error kinds of the store.
#[derive(Clone, Copy, PartialEq, Eq, Structural, Debug)]
pub enum WalError {
    /// A key or value is longer than its four-byte length field can hold.
    EncodingError,
    /// A record's header or payload cannot be fully read.
    MalformedRecord,
    /// An underlying read or write failed.
    IoError,
}

/// The big-endian bytes of a 64-bit integer, most significant byte first.
pub open spec fn spec_u64_be(x: u64) -> Seq<u8> {
    seq![
        ((x >> 56) & 0xff) as u8,
        ((x >> 48) & 0xff) as u8,
        ((x >> 40) & 0xff) as u8,
        ((x >> 32) & 0xff) as u8,
        ((x >> 24) & 0xff) as u8,
        ((x >> 16) & 0xff) as u8,
        ((x >> 8) & 0xff) as u8,
        (x & 0xff) as u8,
    ]
}

/// The 64-bit integer read back from 8 big-endian bytes.
pub open spec fn spec_u64_from_be(s: Seq<u8>) -> u64
    recommends
        s.len() == 8,
{
    ((s[0] as u64) << 56) | ((s[1] as u64) << 48) | ((s[2] as u64) << 40) | ((s[3] as u64) << 32)
        | ((s[4] as u64) << 24) | ((s[5] as u64) << 16) | ((s[6] as u64) << 8) | (s[7] as u64)
}

/// The big-endian bytes of a 32-bit integer, most significant byte first.
pub open spec fn spec_u32_be(x: u32) -> Seq<u8> {
    seq![((x >> 24) & 0xff) as u8, ((x >> 16) & 0xff) as u8, ((x >> 8) & 0xff) as u8, (x
        & 0xff) as u8]
}

/// The 32-bit integer read back from 4 big-endian bytes.
pub open spec fn spec_u32_from_be(s: Seq<u8>) -> u32
    recommends
        s.len() == 4,
{
    ((s[0] as u32) << 24) | ((s[1] as u32) << 16) | ((s[2] as u32) << 8) | (s[3] as u32)
}

/// Reading back the big-endian bytes of a 64-bit integer yields the integer.
pub proof fn lemma_u64_be_round_trip(x: u64)
    ensures
        spec_u64_from_be(spec_u64_be(x)) == x,
{
    let b0 = ((x >> 56) & 0xff) as u8;
    let b1 = ((x >> 48) & 0xff) as u8;
    let b2 = ((x >> 40) & 0xff) as u8;
    let b3 = ((x >> 32) & 0xff) as u8;
    let b4 = ((x >> 24) & 0xff) as u8;
    let b5 = ((x >> 16) & 0xff) as u8;
    let b6 = ((x >> 8) & 0xff) as u8;
    let b7 = (x & 0xff) as u8;
    assert(((b0 as u64) << 56) | ((b1 as u64) << 48) | ((b2 as u64) << 40) | ((b3 as u64) << 32)
        | ((b4 as u64) << 24) | ((b5 as u64) << 16) | ((b6 as u64) << 8) | (b7 as u64) == x)
        by (bit_vector)
        requires
            b0 == ((x >> 56) & 0xff) as u8,
            b1 == ((x >> 48) & 0xff) as u8,
            b2 == ((x >> 40) & 0xff) as u8,
            b3 == ((x >> 32) & 0xff) as u8,
            b4 == ((x >> 24) & 0xff) as u8,
            b5 == ((x >> 16) & 0xff) as u8,
            b6 == ((x >> 8) & 0xff) as u8,
            b7 == (x & 0xff) as u8,
    ;
}

/// Reading back the big-endian bytes of a 32-bit integer yields the integer.
pub proof fn lemma_u32_be_round_trip(x: u32)
    ensures
        spec_u32_from_be(spec_u32_be(x)) == x,
{
    let b0 = ((x >> 24) & 0xff) as u8;
    let b1 = ((x >> 16) & 0xff) as u8;
    let b2 = ((x >> 8) & 0xff) as u8;
    let b3 = (x & 0xff) as u8;
    assert(((b0 as u32) << 24) | ((b1 as u32) << 16) | ((b2 as u32) << 8) | (b3 as u32) == x)
        by (bit_vector)
        requires
            b0 == ((x >> 24) & 0xff) as u8,
            b1 == ((x >> 16) & 0xff) as u8,
            b2 == ((x >> 8) & 0xff) as u8,
            b3 == (x & 0xff) as u8,
    ;
}

/// Whether a full 16-byte header starts at `pos` in `log`.
pub open spec fn header_ok(log: Seq<u8>, pos: int) -> bool {
    0 <= pos && pos + 16 <= log.len()
}

/// The timestamp of the entry starting at `pos`.
pub open spec fn ts_at(log: Seq<u8>, pos: int) -> u64 {
    spec_u64_from_be(log.subrange(pos, pos + 8))
}

/// The key length field of the entry starting at `pos`.
pub open spec fn key_len_at(log: Seq<u8>, pos: int) -> u32 {
    spec_u32_from_be(log.subrange(pos + 8, pos + 12))
}

/// The value length field of the entry starting at `pos`.
pub open spec fn val_len_at(log: Seq<u8>, pos: int) -> u32 {
    spec_u32_from_be(log.subrange(pos + 12, pos + 16))
}

/// The position just past the entry starting at `pos`.
pub open spec fn entry_end(log: Seq<u8>, pos: int) -> int {
    pos + 16 + key_len_at(log, pos) + val_len_at(log, pos)
}

/// Whether a complete entry (header and payload) starts at `pos`.
pub open spec fn entry_ok(log: Seq<u8>, pos: int) -> bool {
    header_ok(log, pos) && entry_end(log, pos) <= log.len()
}

/// The key bytes of the entry starting at `pos`.
pub open spec fn key_at(log: Seq<u8>, pos: int) -> Seq<u8> {
    log.subrange(pos + 16, pos + 16 + key_len_at(log, pos))
}

/// The value bytes of the entry starting at `pos`; empty means a tombstone.
pub open spec fn val_at(log: Seq<u8>, pos: int) -> Seq<u8> {
    log.subrange(pos + 16 + key_len_at(log, pos), entry_end(log, pos))
}

/// Whether a key and value fit the four-byte length fields.
pub open spec fn encodable(key: Seq<u8>, val: Seq<u8>) -> bool {
    key.len() <= u32::MAX && val.len() <= u32::MAX
}

/// The exact bytes of one log entry: header, then key, then value.
pub open spec fn spec_encode(ts: u64, key: Seq<u8>, val: Seq<u8>) -> Seq<u8> {
    spec_u64_be(ts) + spec_u32_be(key.len() as u32) + spec_u32_be(val.len() as u32) + key + val
}

/// An encoded entry placed at `pos` parses back to the timestamp, key and
/// value it was made from, and spans exactly `16 + key.len() + val.len()`
/// bytes.
pub proof fn lemma_parse_encoded(log: Seq<u8>, pos: int, ts: u64, key: Seq<u8>, val: Seq<u8>)
    requires
        encodable(key, val),
        0 <= pos,
        pos + 16 + key.len() + val.len() <= log.len(),
        log.subrange(pos, pos + 16 + key.len() + val.len()) == spec_encode(ts, key, val),
    ensures
        entry_ok(log, pos),
        ts_at(log, pos) == ts,
        key_len_at(log, pos) == key.len(),
        val_len_at(log, pos) == val.len(),
        entry_end(log, pos) == pos + 16 + key.len() + val.len(),
        key_at(log, pos) == key,
        val_at(log, pos) == val,
{
    let e = spec_encode(ts, key, val);
    let whole = log.subrange(pos, pos + 16 + key.len() + val.len() as int);
    assert(log.subrange(pos, pos + 8) =~= whole.subrange(0, 8));
    assert(whole.subrange(0, 8) =~= spec_u64_be(ts));
    lemma_u64_be_round_trip(ts);
    assert(log.subrange(pos + 8, pos + 12) =~= whole.subrange(8, 12));
    assert(whole.subrange(8, 12) =~= spec_u32_be(key.len() as u32));
    assert(log.subrange(pos + 12, pos + 16) =~= whole.subrange(12, 16));
    assert(whole.subrange(12, 16) =~= spec_u32_be(val.len() as u32));
    lemma_u32_be_round_trip(key.len() as u32);
    lemma_u32_be_round_trip(val.len() as u32);
    assert(key_len_at(log, pos) == key.len());
    assert(val_len_at(log, pos) == val.len());
    let kl = key.len() as int;
    let vl = val.len() as int;
    assert(key_at(log, pos) =~= whole.subrange(16, 16 + kl));
    assert(whole.subrange(16, 16 + kl) =~= key);
    assert(val_at(log, pos) =~= whole.subrange(16 + kl, 16 + kl + vl));
    assert(whole.subrange(16 + kl, 16 + kl + vl) =~= val);
}

/// Round trip: for every timestamp, key and value within the length limits,
/// decoding the encoded entry yields the same timestamp, key and value.
pub proof fn lemma_encode_round_trip(ts: u64, key: Seq<u8>, val: Seq<u8>)
    requires
        encodable(key, val),
    ensures
        entry_ok(spec_encode(ts, key, val), 0),
        ts_at(spec_encode(ts, key, val), 0) == ts,
        key_at(spec_encode(ts, key, val), 0) == key,
        val_at(spec_encode(ts, key, val), 0) == val,
        entry_end(spec_encode(ts, key, val), 0) == spec_encode(ts, key, val).len(),
{
    let e = spec_encode(ts, key, val);
    assert(e.subrange(0, 16 + key.len() + val.len() as int) =~= e);
    lemma_parse_encoded(e, 0, ts, key, val);
}

/// Appends the big-endian bytes of a 64-bit integer to a buffer.
pub fn push_u64_be(buf: &mut Vec<u8>, x: u64)
    ensures
        final(buf)@ == old(buf)@ + spec_u64_be(x),
{
    assert(((x >> 56) & 0xff) < 256 && ((x >> 48) & 0xff) < 256 && ((x >> 40) & 0xff) < 256 && ((x
        >> 32) & 0xff) < 256 && ((x >> 24) & 0xff) < 256 && ((x >> 16) & 0xff) < 256 && ((x >> 8)
        & 0xff) < 256 && (x & 0xff) < 256) by (bit_vector);
    buf.push(((x >> 56) & 0xff) as u8);
    buf.push(((x >> 48) & 0xff) as u8);
    buf.push(((x >> 40) & 0xff) as u8);
    buf.push(((x >> 32) & 0xff) as u8);
    buf.push(((x >> 24) & 0xff) as u8);
    buf.push(((x >> 16) & 0xff) as u8);
    buf.push(((x >> 8) & 0xff) as u8);
    buf.push((x & 0xff) as u8);
    assert(buf@ =~= old(buf)@ + spec_u64_be(x));
}

/// Appends the big-endian bytes of a 32-bit integer to a buffer.
pub fn push_u32_be(buf: &mut Vec<u8>, x: u32)
    ensures
        final(buf)@ == old(buf)@ + spec_u32_be(x),
{
    assert(((x >> 24) & 0xff) < 256 && ((x >> 16) & 0xff) < 256 && ((x >> 8) & 0xff) < 256 && (x
        & 0xff) < 256) by (bit_vector);
    buf.push(((x >> 24) & 0xff) as u8);
    buf.push(((x >> 16) & 0xff) as u8);
    buf.push(((x >> 8) & 0xff) as u8);
    buf.push((x & 0xff) as u8);
    assert(buf@ =~= old(buf)@ + spec_u32_be(x));
}

/// Appends all bytes of `src` to `dst`.
pub fn push_bytes(dst: &mut Vec<u8>, src: &Vec<u8>)
    ensures
        final(dst)@ == old(dst)@ + src@,
{
    let mut i: usize = 0;
    while i < src.len()
        invariant
            i <= src.len(),
            dst@ == old(dst)@ + src@.subrange(0, i as int),
        decreases src.len() - i,
    {
        dst.push(src[i]);
        assert(dst@ =~= old(dst)@ + src@.subrange(0, i + 1));
        i = i + 1;
    }
    assert(dst@ =~= old(dst)@ + src@);
}

/// Copies `len` bytes of `src` starting at `start` into a fresh vector.
pub fn copy_range(src: &Vec<u8>, start: usize, len: usize) -> (r: Vec<u8>)
    requires
        start + len <= src@.len(),
    ensures
        r@ == src@.subrange(start as int, start as int + len as int),
{
    let n: usize = src.len();
    let mut out: Vec<u8> = Vec::new();
    let mut i: usize = 0;
    while i < len
        invariant
            i <= len,
            start + len <= n == src@.len(),
            out@ == src@.subrange(start as int, start as int + i as int),
        decreases len - i,
    {
        out.push(src[start + i]);
        assert(out@ =~= src@.subrange(start as int, start as int + i + 1));
        i = i + 1;
    }
    out
}

/// Whether two byte vectors hold the same bytes.
pub fn bytes_eq(a: &Vec<u8>, b: &Vec<u8>) -> (r: bool)
    ensures
        r == (a@ == b@),
{
    if a.len() != b.len() {
        return false;
    }
    let mut i: usize = 0;
    while i < a.len()
        invariant
            i <= a.len(),
            a@.len() == b@.len(),
            forall|j: int| 0 <= j < i ==> a@[j] == b@[j],
        decreases a.len() - i,
    {
        if a[i] != b[i] {
            return false;
        }
        i = i + 1;
    }
    assert(a@ =~= b@);
    true
}

/// Reads a big-endian 64-bit integer at `pos`.
pub fn read_u64_be(buf: &Vec<u8>, pos: usize) -> (r: u64)
    requires
        pos + 8 <= buf@.len(),
    ensures
        r == spec_u64_from_be(buf@.subrange(pos as int, pos as int + 8)),
{
    let _n = buf.len();
    let r = ((buf[pos] as u64) << 56) | ((buf[pos + 1] as u64) << 48) | ((buf[pos + 2] as u64)
        << 40) | ((buf[pos + 3] as u64) << 32) | ((buf[pos + 4] as u64) << 24) | ((buf[pos
        + 5] as u64) << 16) | ((buf[pos + 6] as u64) << 8) | (buf[pos + 7] as u64);
    proof {
        let s = buf@.subrange(pos as int, pos as int + 8);
        assert(s[0] == buf@[pos as int] && s[1] == buf@[pos + 1] && s[2] == buf@[pos + 2] && s[3]
            == buf@[pos + 3] && s[4] == buf@[pos + 4] && s[5] == buf@[pos + 5] && s[6] == buf@[pos
            + 6] && s[7] == buf@[pos + 7]);
    }
    r
}

/// Reads a big-endian 32-bit integer at `pos`.
pub fn read_u32_be(buf: &Vec<u8>, pos: usize) -> (r: u32)
    requires
        pos + 4 <= buf@.len(),
    ensures
        r == spec_u32_from_be(buf@.subrange(pos as int, pos as int + 4)),
{
    let _n = buf.len();
    let r = ((buf[pos] as u32) << 24) | ((buf[pos + 1] as u32) << 16) | ((buf[pos + 2] as u32)
        << 8) | (buf[pos + 3] as u32);
    proof {
        let s = buf@.subrange(pos as int, pos as int + 4);
        assert(s[0] == buf@[pos as int] && s[1] == buf@[pos + 1] && s[2] == buf@[pos + 2] && s[3]
            == buf@[pos + 3]);
    }
    r
}

/// One log entry as a value: a timestamp in epoch milliseconds, the key
/// bytes and the value bytes. An empty value marks a tombstone.
pub struct LogEntry {
    pub timestamp: u64,
    pub key: Vec<u8>,
    pub val: Vec<u8>,
}

impl LogEntry {
    /// Builds an entry stamped with the current wall-clock time.
    pub fn new(key: Vec<u8>, val: Vec<u8>) -> (e: LogEntry)
        ensures
            e.key == key,
            e.val == val,
    {
        LogEntry { timestamp: now_millis(), key, val }
    }

    /// Encodes the entry into its on-log byte form, or reports an
    /// `EncodingError` when the key or value is longer than the four-byte
    /// length fields can hold.
    pub fn to_binary_log(&self) -> (r: Result<Vec<u8>, WalError>)
        ensures
            encodable(self.key@, self.val@) ==> (r matches Ok(b) && b@ == spec_encode(
                self.timestamp,
                self.key@,
                self.val@,
            )),
            !encodable(self.key@, self.val@) ==> r == Err::<Vec<u8>, WalError>(
                WalError::EncodingError,
            ),
    {
        if self.key.len() > u32::MAX as usize || self.val.len() > u32::MAX as usize {
            return Err(WalError::EncodingError);
        }
        let klen = self.key.len() as u32;
        let vlen = self.val.len() as u32;
        let mut buf: Vec<u8> = Vec::new();
        push_u64_be(&mut buf, self.timestamp);
        push_u32_be(&mut buf, klen);
        push_u32_be(&mut buf, vlen);
        push_bytes(&mut buf, &self.key);
        push_bytes(&mut buf, &self.val);
        assert(buf@ =~= spec_encode(self.timestamp, self.key@, self.val@));
        Ok(buf)
    }
}

/// Decodes the 16-byte header at the start of `buf`, or reports a
/// `MalformedRecord` when fewer than 16 bytes are present. Returns the
/// timestamp, the key length and the value length.
pub fn decode_header(buf: &Vec<u8>) -> (r: Result<(u64, u32, u32), WalError>)
    ensures
        buf@.len() >= 16 ==> r == Ok::<(u64, u32, u32), WalError>(
            (ts_at(buf@, 0), key_len_at(buf@, 0), val_len_at(buf@, 0)),
        ),
        buf@.len() < 16 ==> r == Err::<(u64, u32, u32), WalError>(WalError::MalformedRecord),
{
    if buf.len() < 16 {
        return Err(WalError::MalformedRecord);
    }
    let ts = read_u64_be(buf, 0);
    let klen = read_u32_be(buf, 8);
    let vlen = read_u32_be(buf, 12);
    Ok((ts, klen, vlen))
}

/// Decodes the full entry at the start of `buf`, or reports a
/// `MalformedRecord` when the header or the payload is incomplete. Bytes
/// past the entry are ignored.
pub fn decode(buf: &Vec<u8>) -> (r: Result<LogEntry, WalError>)
    ensures
        entry_ok(buf@, 0) ==> (r matches Ok(e) && e.timestamp == ts_at(buf@, 0) && e.key@ == key_at(
            buf@,
            0,
        ) && e.val@ == val_at(buf@, 0)),
        !entry_ok(buf@, 0) ==> (r matches Err(e) && e == WalError::MalformedRecord),
{
    if buf.len() < 16 {
        return Err(WalError::MalformedRecord);
    }
    let ts = read_u64_be(buf, 0);
    let klen = read_u32_be(buf, 8);
    let vlen = read_u32_be(buf, 12);
    let rest = buf.len() - 16;
    let klen_us = klen as usize;
    let vlen_us = vlen as usize;
    if klen_us > rest || vlen_us > rest - klen_us {
        return Err(WalError::MalformedRecord);
    }
    let key = copy_range(buf, 16, klen_us);
    let val = copy_range(buf, 16 + klen_us, vlen_us);
    Ok(LogEntry { timestamp: ts, key, val })
}

/// Relies on `std::time::SystemTime::now`: the milliseconds since the epoch,
/// truncated to 64 bits; nothing is assumed of the value, since the clock
/// may read anything.
#[verifier::external_body]
pub fn now_millis() -> u64 {
    match std::time::SystemTime::now().duration_since(std::time::UNIX_EPOCH) {
        Ok(d) => d.as_millis() as u64,
        Err(_) => 0,
    }
}

} // verus!

