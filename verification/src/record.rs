//! The wire format of one record: a checksum, two lengths, then key and value.
//!
//! ```text
//! checksum : u32 little-endian   (CRC-32/CKSUM of key followed by value)
//! key_len  : u32 little-endian
//! val_len  : u32 little-endian
//! key      : key_len bytes
//! value    : val_len bytes
//! ```

use byteorder::ByteOrder;
use vstd::prelude::*;
use vstd::slice::slice_subrange;

verus! {

/// Number of bytes in front of the payload of every record.
pub const HEADER_LEN: usize = 12;

/// What can go wrong when a store is created or read.
#[derive(Clone, Copy, Debug, PartialEq, Eq, Structural)]
pub enum StoreError {
    /// Exclusive creation was asked for something that is already there.
    AlreadyExists,
    /// The medium could not deliver the bytes that were asked for.
    Io,
    /// The payload that was read does not match its stored checksum.
    Corruption,
}

/// The three fixed-width fields in front of a payload.
#[derive(Clone, Copy, Debug, PartialEq, Eq, Structural)]
pub struct Header {
    pub checksum: u32,
    pub key_len: u32,
    pub val_len: u32,
}

/// The CRC-32/CKSUM checksum of a byte sequence.
pub uninterp spec fn spec_crc32(data: Seq<u8>) -> u32;

/// Calls `crc::Crc::<u32>::checksum` with the catalogue's `CRC_32_CKSUM`
/// parameters. The checksum depends on the bytes alone; the contract gives it
/// the name `spec_crc32` and claims nothing else of it.
#[verifier::external_body]
pub(crate) fn crc32(data: &[u8]) -> (sum: u32)
    ensures
        sum == spec_crc32(data@),
{
    crc::Crc::<u32>::new(&crc::CRC_32_CKSUM).checksum(data)
}

/// The four bytes of `n`, least significant first.
pub open spec fn le_bytes(n: u32) -> Seq<u8> {
    seq![
        (n & 0xff) as u8,
        ((n >> 8) & 0xff) as u8,
        ((n >> 16) & 0xff) as u8,
        ((n >> 24) & 0xff) as u8,
    ]
}

/// The number whose little-endian bytes are the first four of `s`.
pub open spec fn le_value(s: Seq<u8>) -> u32
    recommends
        s.len() >= 4,
{
    (s[0] as u32) | ((s[1] as u32) << 8) | ((s[2] as u32) << 16) | ((s[3] as u32) << 24)
}

/// Calls `byteorder::LittleEndian::write_u32` on a fresh four-byte buffer,
/// which copies `n.to_le_bytes()` into it: the least significant byte first.
#[verifier::external_body]
pub(crate) fn u32_to_le(n: u32) -> (bytes: [u8; 4])
    ensures
        bytes@ == le_bytes(n),
{
    let mut buf = [0u8; 4];
    byteorder::LittleEndian::write_u32(&mut buf, n);
    buf
}

/// Calls `byteorder::LittleEndian::read_u32`, which reads the first four
/// bytes of the buffer as a little-endian number and panics on a shorter one.
#[verifier::external_body]
pub(crate) fn u32_from_le(buf: &[u8]) -> (n: u32)
    requires
        buf@.len() >= 4,
    ensures
        n == le_value(buf@),
{
    byteorder::LittleEndian::read_u32(buf)
}

/// Decoding undoes encoding.
pub proof fn lemma_le_round_trip(n: u32)
    ensures
        le_bytes(n).len() == 4,
        le_value(le_bytes(n)) == n,
{
    let b0 = (n & 0xff) as u8;
    let b1 = ((n >> 8) & 0xff) as u8;
    let b2 = ((n >> 16) & 0xff) as u8;
    let b3 = ((n >> 24) & 0xff) as u8;
    assert((b0 as u32) | ((b1 as u32) << 8) | ((b2 as u32) << 16) | ((b3 as u32) << 24) == n) by (bit_vector)
        requires
            b0 == (n & 0xff) as u8,
            b1 == ((n >> 8) & 0xff) as u8,
            b2 == ((n >> 16) & 0xff) as u8,
            b3 == ((n >> 24) & 0xff) as u8,
    ;
}

/// All the buffers of `parts`, one after the other.
pub open spec fn concat_all(parts: Seq<&[u8]>) -> Seq<u8>
    decreases parts.len(),
{
    if parts.len() == 0 {
        Seq::empty()
    } else {
        concat_all(parts.drop_last()) + parts.last()@
    }
}

/// Concatenates the buffers in order into one contiguous buffer.
pub fn pack_data(data: &[&[u8]]) -> (res: Vec<u8>)
    ensures
        res@ == concat_all(data@),
{
    let mut res: Vec<u8> = Vec::new();
    let mut i: usize = 0;
    while i < data.len()
        invariant
            i <= data@.len(),
            res@ == concat_all(data@.take(i as int)),
        decreases data@.len() - i,
    {
        res.extend_from_slice(data[i]);
        proof {
            let next = data@.take(i + 1);
            assert(next.drop_last() == data@.take(i as int));
        }
        i += 1;
    }
    proof {
        assert(data@.take(i as int) == data@);
    }
    res
}

/// The bytes of a record with the given header fields and payload.
pub open spec fn spec_frame(checksum: u32, key_len: u32, val_len: u32, data: Seq<u8>) -> Seq<u8> {
    le_bytes(checksum) + le_bytes(key_len) + le_bytes(val_len) + data
}

/// Lays out one record: the three header fields, least significant byte
/// first, then the payload.
pub fn frame_record(checksum: u32, key_len: u32, val_len: u32, data: &[u8]) -> (rec: Vec<u8>)
    ensures
        rec@ == spec_frame(checksum, key_len, val_len, data@),
        rec@.len() == HEADER_LEN + data@.len(),
{
    let mut rec: Vec<u8> = Vec::new();
    let c = u32_to_le(checksum);
    let k = u32_to_le(key_len);
    let v = u32_to_le(val_len);
    rec.extend_from_slice(c.as_slice());
    rec.extend_from_slice(k.as_slice());
    rec.extend_from_slice(v.as_slice());
    rec.extend_from_slice(data);
    rec
}

/// The bytes of the record that holds `key` and `val`.
pub open spec fn spec_encode(key: Seq<u8>, val: Seq<u8>) -> Seq<u8> {
    spec_frame(spec_crc32(key + val), key.len() as u32, val.len() as u32, key + val)
}

/// Serializes one record: checksum, key length, value length, key, value.
pub fn encode_record(key: &[u8], val: &[u8]) -> (rec: Vec<u8>)
    requires
        key@.len() <= u32::MAX,
        val@.len() <= u32::MAX,
    ensures
        rec@ == spec_encode(key@, val@),
        rec@.len() == HEADER_LEN + key@.len() + val@.len(),
{
    let parts: [&[u8]; 2] = [key, val];
    let data = pack_data(parts.as_slice());
    proof {
        let p = parts@;
        assert(p.drop_last().drop_last().len() == 0);
        assert(concat_all(p.drop_last()) == Seq::<u8>::empty() + key@) by {
            reveal_with_fuel(concat_all, 2);
        }
        assert(Seq::<u8>::empty() + key@ == key@);
        assert(data@ == key@ + val@);
    }
    let checksum = crc32(data.as_slice());
    frame_record(checksum, key.len() as u32, val.len() as u32, data.as_slice())
}

/// The header held in the first twelve bytes of `bytes`.
pub open spec fn spec_header(bytes: Seq<u8>) -> Header
    recommends
        bytes.len() >= HEADER_LEN,
{
    Header {
        checksum: le_value(bytes.subrange(0, 4)),
        key_len: le_value(bytes.subrange(4, 8)),
        val_len: le_value(bytes.subrange(8, 12)),
    }
}

/// Decodes the three header fields, or `None` when fewer than twelve bytes
/// are at hand.
pub fn parse_header(bytes: &[u8]) -> (h: Option<Header>)
    ensures
        h == if bytes@.len() >= HEADER_LEN {
            Some(spec_header(bytes@))
        } else {
            None
        },
{
    if bytes.len() < HEADER_LEN {
        return None;
    }
    let checksum = u32_from_le(slice_subrange(bytes, 0, 4));
    let key_len = u32_from_le(slice_subrange(bytes, 4, 8));
    let val_len = u32_from_le(slice_subrange(bytes, 8, 12));
    Some(Header { checksum, key_len, val_len })
}

/// What a payload of `data` with checksum `computed` yields under header
/// `h`: a short or long read is an I/O failure, a checksum other than the
/// stored one is corruption, otherwise the value is what follows the key.
pub open spec fn spec_settle(h: Header, computed: u32, data: Seq<u8>) -> Result<
    Seq<u8>,
    StoreError,
> {
    if data.len() != h.key_len + h.val_len {
        Err(StoreError::Io)
    } else if computed != h.checksum {
        Err(StoreError::Corruption)
    } else {
        Ok(data.subrange(h.key_len as int, data.len() as int))
    }
}

/// What a payload of `data` yields under header `h`, its checksum being
/// the CRC-32/CKSUM of `data`.
pub open spec fn spec_check(h: Header, data: Seq<u8>) -> Result<Seq<u8>, StoreError> {
    spec_settle(h, spec_crc32(data), data)
}

/// `got` is the exec image of the spec-level answer `want`.
pub open spec fn same_bytes(got: Result<Vec<u8>, StoreError>, want: Result<Seq<u8>, StoreError>) -> bool {
    match want {
        Ok(v) => got is Ok && got->Ok_0@ == v,
        Err(e) => got == Err::<Vec<u8>, StoreError>(e),
    }
}

/// Decides on a payload whose checksum was computed as `computed`, and
/// splits the value off it.
pub fn settle_payload(h: &Header, computed: u32, data: &[u8]) -> (r: Result<Vec<u8>, StoreError>)
    ensures
        same_bytes(r, spec_settle(*h, computed, data@)),
{
    let want: u64 = h.key_len as u64 + h.val_len as u64;
    if data.len() as u64 != want {
        return Err(StoreError::Io);
    }
    if computed != h.checksum {
        return Err(StoreError::Corruption);
    }
    let val = slice_subrange(data, h.key_len as usize, data.len());
    Ok(vstd::slice::slice_to_vec(val))
}

/// Validates a payload against its header and splits the value off it.
pub fn check_payload(h: &Header, data: &[u8]) -> (r: Result<Vec<u8>, StoreError>)
    ensures
        same_bytes(r, spec_check(*h, data@)),
{
    let computed = crc32(data);
    settle_payload(h, computed, data)
}

/// What reading the record at offset `pos` of `log` yields.
pub open spec fn spec_read(log: Seq<u8>, pos: nat) -> Result<Seq<u8>, StoreError> {
    let start = pos as int;
    let body = start + 12;
    if body > log.len() {
        Err(StoreError::Io)
    } else {
        let h = spec_header(log.subrange(start, body));
        let end = body + h.key_len + h.val_len;
        if end > log.len() {
            Err(StoreError::Io)
        } else {
            spec_check(h, log.subrange(body, end))
        }
    }
}

/// Reads and validates the record that starts at offset `pos` of `log`.
pub fn read_record(log: &[u8], pos: u64) -> (r: Result<Vec<u8>, StoreError>)
    ensures
        same_bytes(r, spec_read(log@, pos as nat)),
{
    let len: u64 = log.len() as u64;
    if len < HEADER_LEN as u64 || pos > len - HEADER_LEN as u64 {
        return Err(StoreError::Io);
    }
    let start: usize = pos as usize;
    let body: usize = start + HEADER_LEN;
    let h = match parse_header(slice_subrange(log, start, body)) {
        Some(h) => h,
        None => { return Err(StoreError::Io); },
    };
    let want: u64 = h.key_len as u64 + h.val_len as u64;
    if want > len - body as u64 {
        return Err(StoreError::Io);
    }
    let end: usize = body + want as usize;
    check_payload(&h, slice_subrange(log, body, end))
}

/// A record that was appended to a log is read back whole from the offset at
/// which the log ended before.
pub proof fn lemma_read_appended(log: Seq<u8>, key: Seq<u8>, val: Seq<u8>, tail: Seq<u8>)
    requires
        key.len() <= u32::MAX,
        val.len() <= u32::MAX,
    ensures
        spec_read(log + spec_encode(key, val) + tail, log.len()) == Ok::<Seq<u8>, StoreError>(val),
{
    let rec = spec_encode(key, val);
    let all = log + rec + tail;
    let pos = log.len() as int;
    let c = le_bytes(spec_crc32(key + val));
    let k = le_bytes(key.len() as u32);
    let v = le_bytes(val.len() as u32);
    lemma_le_round_trip(spec_crc32(key + val));
    lemma_le_round_trip(key.len() as u32);
    lemma_le_round_trip(val.len() as u32);
    let head = all.subrange(pos, pos + 12);
    assert(head == c + k + v);
    assert(head.subrange(0, 4) == c);
    assert(head.subrange(4, 8) == k);
    assert(head.subrange(8, 12) == v);
    let h = spec_header(head);
    assert(h.key_len == key.len() && h.val_len == val.len());
    let end = pos + 12 + key.len() + val.len();
    let data = all.subrange(pos + 12, end);
    assert(data == key + val);
    assert(data.subrange(key.len() as int, data.len() as int) == val);
}

/// Bytes appended behind a record that lies wholly inside a log do not
/// change what is read from it.
pub proof fn lemma_read_stable(log: Seq<u8>, pos: nat, more: Seq<u8>)
    requires
        spec_read(log, pos) != Err::<Seq<u8>, StoreError>(StoreError::Io),
    ensures
        spec_read(log + more, pos) == spec_read(log, pos),
{
    let a = log + more;
    let start = pos as int;
    let body = start + 12;
    assert(a.subrange(start, body) == log.subrange(start, body));
    let h = spec_header(log.subrange(start, body));
    let end = body + h.key_len + h.val_len;
    assert(a.subrange(body, end) == log.subrange(body, end));
}

} // verus!
