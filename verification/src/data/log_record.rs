//! The log record and its binary format:
//!
//! ```text
//! [type: 1 byte][key length: varint][value length: varint][key][value][checksum: 4 bytes]
//! ```
//!
//! The checksum is the CRC-32 of everything before it, stored least
//! significant byte first.

use crate::error::{Errors, Result};
use crate::util::crc32::{crc32, spec_crc32};
use crate::util::varint::{
    decode_varint, encode_varint, lemma_decode_varint_len, lemma_decode_varint_of_encode,
    lemma_decode_varint_prefix,
    spec_decode_varint, spec_encode_varint,
};
use vstd::bytes::{
    lemma_auto_spec_u32_to_from_le_bytes, spec_u32_from_le_bytes, spec_u32_to_le_bytes,
    u32_from_le_bytes, u32_to_le_bytes,
};
use vstd::prelude::*;
use vstd::slice::{slice_subrange, slice_to_vec};

verus! {

/// Length of the checksum that ends a record.
pub const CHECKSUM_LEN: usize = 4;

/// The longest header: the type byte and two length fields.
pub const MAX_HEADER_LEN: usize = 21;

/// Where a record lies: the segment and the offset of its first byte.
#[derive(Clone, Copy, Debug, PartialEq, Eq, Structural)]
pub struct LogRecordPos {
    pub file_id: u32,
    pub offset: u64,
}

/// What a record means for its key.
#[derive(Clone, Copy, Debug, PartialEq, Eq, Structural)]
pub enum LogRecordType {
    /// The key has this value.
    NORMAL,
    /// The key is deleted: a tombstone.
    DELETED,
}

/// One entry of the log, as it is written to a segment.
#[derive(Debug, PartialEq, Eq)]
pub struct LogRecord {
    pub key: Vec<u8>,
    pub value: Vec<u8>,
    pub record_type: LogRecordType,
}

/// A record as a mathematical value.
pub struct LogRecordView {
    pub key: Seq<u8>,
    pub value: Seq<u8>,
    pub record_type: LogRecordType,
}

impl View for LogRecord {
    type V = LogRecordView;

    open spec fn view(&self) -> LogRecordView {
        LogRecordView { key: self.key@, value: self.value@, record_type: self.record_type }
    }
}

/// What the header of a record says.
#[derive(Clone, Copy, Debug, PartialEq, Eq, Structural)]
pub struct RecordHeader {
    pub record_type: LogRecordType,
    pub key_len: u64,
    pub value_len: u64,
    /// Length of the header itself.
    pub header_len: usize,
}

impl RecordHeader {
    /// Offset of the checksum: the length of all that it covers.
    pub open spec fn payload_end(self) -> nat {
        (self.header_len + self.key_len + self.value_len) as nat
    }

    /// Length of the whole record.
    pub open spec fn record_len(self) -> nat {
        self.payload_end() + CHECKSUM_LEN as nat
    }

    /// The length of the whole record, if it is no more than `available`
    /// and can be held in memory.
    pub fn fit(&self, available: u64) -> (size: Option<usize>)
        ensures
            size == if self.record_len() <= available && self.record_len() <= usize::MAX {
                Some(self.record_len() as usize)
            } else {
                None
            },
    {
        if self.header_len as u64 > available {
            return None;
        }
        let after_header: u64 = available - self.header_len as u64;
        if self.key_len > after_header {
            return None;
        }
        let after_key: u64 = after_header - self.key_len;
        if self.value_len > after_key {
            return None;
        }
        if after_key - self.value_len < CHECKSUM_LEN as u64 {
            return None;
        }
        let total: u64 = self.header_len as u64 + self.key_len + self.value_len
            + CHECKSUM_LEN as u64;
        if total > usize::MAX as u64 {
            return None;
        }
        Some(total as usize)
    }
}

/// The byte that stands for a record type.
pub open spec fn spec_type_byte(t: LogRecordType) -> u8 {
    match t {
        LogRecordType::NORMAL => 1,
        LogRecordType::DELETED => 2,
    }
}

/// The record type that a byte stands for.
pub open spec fn spec_type_of_byte(b: u8) -> Option<LogRecordType> {
    if b == 1 {
        Some(LogRecordType::NORMAL)
    } else if b == 2 {
        Some(LogRecordType::DELETED)
    } else {
        None
    }
}

/// The header of `r`.
pub open spec fn spec_encode_header(r: LogRecordView) -> Seq<u8> {
    seq![spec_type_byte(r.record_type)] + spec_encode_varint(r.key.len()) + spec_encode_varint(
        r.value.len(),
    )
}

/// All of the encoding of `r` that the checksum covers.
pub open spec fn spec_encode_payload(r: LogRecordView) -> Seq<u8> {
    spec_encode_header(r) + r.key + r.value
}

/// The encoding of `r`.
pub open spec fn spec_encode(r: LogRecordView) -> Seq<u8> {
    spec_encode_payload(r) + spec_u32_to_le_bytes(spec_crc32(spec_encode_payload(r)))
}

/// The header that starts `s`, if there is a whole one.
pub open spec fn spec_decode_header(s: Seq<u8>) -> Option<RecordHeader> {
    if s.len() < 1 {
        None
    } else {
        match spec_type_of_byte(s[0]) {
            None => None,
            Some(record_type) => match spec_decode_varint(s.skip(1)) {
                None => None,
                Some((key_len, kn)) => match spec_decode_varint(s.skip(1 + kn as int)) {
                    None => None,
                    Some((value_len, vn)) => Some(
                        RecordHeader {
                            record_type,
                            key_len,
                            value_len,
                            header_len: (1 + kn + vn) as usize,
                        },
                    ),
                },
            },
        }
    }
}

/// The record that starts `s` and the length of its encoding. There is none
/// where the header is malformed, where `s` ends before the record does, or
/// where the checksum does not match.
pub open spec fn spec_decode(s: Seq<u8>) -> Option<(LogRecordView, nat)> {
    match spec_decode_header(s) {
        None => None,
        Some(h) => {
            let key_end = h.header_len + h.key_len;
            let end = h.payload_end() as int;
            if s.len() < h.record_len() {
                None
            } else if spec_u32_from_le_bytes(s.subrange(end, end + 4)) != spec_crc32(
                s.subrange(0, end),
            ) {
                None
            } else {
                Some(
                    (
                        LogRecordView {
                            key: s.subrange(h.header_len as int, key_end),
                            value: s.subrange(key_end, end),
                            record_type: h.record_type,
                        },
                        h.record_len(),
                    ),
                )
            }
        },
    }
}

/// The record that starts at `offset` in `contents`, and its length.
pub open spec fn spec_record_at(contents: Seq<u8>, offset: nat) -> Option<(LogRecordView, nat)> {
    if offset <= contents.len() {
        spec_decode(contents.skip(offset as int))
    } else {
        None
    }
}

/// A header that is read lies within the sequence, and is between three and
/// `MAX_HEADER_LEN` bytes long.
pub proof fn lemma_decode_header_len(s: Seq<u8>)
    requires
        spec_decode_header(s) is Some,
    ensures
        3 <= spec_decode_header(s).unwrap().header_len <= MAX_HEADER_LEN,
        spec_decode_header(s).unwrap().header_len <= s.len(),
        ({
            let kn = spec_decode_varint(s.skip(1)).unwrap().1;
            let vn = spec_decode_varint(s.skip(1 + kn as int)).unwrap().1;
            spec_decode_header(s).unwrap().header_len == 1 + kn + vn
        }),
{
    let kn = spec_decode_varint(s.skip(1)).unwrap().1 as int;
    lemma_decode_varint_len(s.skip(1));
    lemma_decode_varint_len(s.skip(1 + kn));
}

/// Any sequence that agrees with `a` on the bytes of its header has the same
/// header.
pub proof fn lemma_decode_header_prefix(a: Seq<u8>, b: Seq<u8>)
    requires
        spec_decode_header(a) is Some,
        ({
            let n = spec_decode_header(a).unwrap().header_len as int;
            b.len() >= n && b.subrange(0, n) == a.subrange(0, n)
        }),
    ensures
        spec_decode_header(b) == spec_decode_header(a),
{
    let h = spec_decode_header(a).unwrap();
    let n = h.header_len as int;
    let kn = spec_decode_varint(a.skip(1)).unwrap().1 as int;
    let vn = spec_decode_varint(a.skip(1 + kn)).unwrap().1 as int;
    lemma_decode_header_len(a);
    assert(a.subrange(0, n)[0] == a[0]);
    assert(b.subrange(0, n)[0] == b[0]);
    assert(b.skip(1).subrange(0, kn) =~= b.subrange(0, n).subrange(1, 1 + kn));
    assert(a.skip(1).subrange(0, kn) =~= a.subrange(0, n).subrange(1, 1 + kn));
    lemma_decode_varint_prefix(a.skip(1), b.skip(1));
    assert(b.skip(1 + kn).subrange(0, vn) =~= b.subrange(0, n).subrange(1 + kn, n));
    assert(a.skip(1 + kn).subrange(0, vn) =~= a.subrange(0, n).subrange(1 + kn, n));
    lemma_decode_varint_prefix(a.skip(1 + kn), b.skip(1 + kn));
}

/// A record that is read lies within the sequence.
pub proof fn lemma_decode_len(s: Seq<u8>)
    requires
        spec_decode(s) is Some,
    ensures
        3 + CHECKSUM_LEN <= spec_decode(s).unwrap().1 <= s.len(),
        spec_decode(s).unwrap().1 == spec_decode_header(s).unwrap().record_len(),
{
    lemma_decode_header_len(s);
}

/// What follows a record does not matter: any sequence that agrees with `a`
/// on the bytes of its first record starts with the same record.
pub proof fn lemma_decode_prefix(a: Seq<u8>, b: Seq<u8>)
    requires
        spec_decode(a) is Some,
        ({
            let n = spec_decode(a).unwrap().1 as int;
            b.len() >= n && b.subrange(0, n) == a.subrange(0, n)
        }),
    ensures
        spec_decode(b) == spec_decode(a),
{
    let h = spec_decode_header(a).unwrap();
    let n = h.record_len() as int;
    let end = h.payload_end() as int;
    let hl = h.header_len as int;
    lemma_decode_header_len(a);
    assert(b.subrange(0, hl) =~= b.subrange(0, n).subrange(0, hl));
    assert(a.subrange(0, hl) =~= a.subrange(0, n).subrange(0, hl));
    lemma_decode_header_prefix(a, b);
    assert(b.subrange(end, end + 4) =~= b.subrange(0, n).subrange(end, end + 4));
    assert(a.subrange(end, end + 4) =~= a.subrange(0, n).subrange(end, end + 4));
    assert(b.subrange(0, end) =~= b.subrange(0, n).subrange(0, end));
    assert(a.subrange(0, end) =~= a.subrange(0, n).subrange(0, end));
    let key_end = hl + h.key_len;
    assert(b.subrange(hl, key_end) =~= b.subrange(0, n).subrange(hl, key_end));
    assert(a.subrange(hl, key_end) =~= a.subrange(0, n).subrange(hl, key_end));
    assert(b.subrange(key_end, end) =~= b.subrange(0, n).subrange(key_end, end));
    assert(a.subrange(key_end, end) =~= a.subrange(0, n).subrange(key_end, end));
}

/// A header is read from the first `MAX_HEADER_LEN` bytes alone.
pub proof fn lemma_decode_header_front(s: Seq<u8>, front: Seq<u8>)
    requires
        front.len() <= s.len(),
        front.len() == s.len() || front.len() >= MAX_HEADER_LEN,
        front == s.subrange(0, front.len() as int),
    ensures
        spec_decode_header(front) == spec_decode_header(s),
{
    if spec_decode_header(s) is Some {
        let n = spec_decode_header(s).unwrap().header_len as int;
        lemma_decode_header_len(s);
        assert(front.subrange(0, n) =~= s.subrange(0, n));
        lemma_decode_header_prefix(s, front);
    } else if spec_decode_header(front) is Some {
        let n = spec_decode_header(front).unwrap().header_len as int;
        lemma_decode_header_len(front);
        assert(front.subrange(0, n) =~= s.subrange(0, n));
        lemma_decode_header_prefix(front, s);
    }
}

/// A record is read from the bytes that its header counts, and from no
/// others: there is none where the sequence is shorter, and otherwise the
/// bytes behind the record may be left out.
pub proof fn lemma_decode_front(s: Seq<u8>, front: Seq<u8>)
    requires
        spec_decode_header(s) is Some,
        front.len() <= s.len(),
        front == s.subrange(0, front.len() as int),
        front.len() == s.len() || front.len() == spec_decode_header(s).unwrap().record_len(),
    ensures
        spec_decode(front) == spec_decode(s),
        s.len() < spec_decode_header(s).unwrap().record_len() ==> spec_decode(s) is None,
        spec_decode(s) is Some ==> spec_decode(s).unwrap().1 == spec_decode_header(
            s,
        ).unwrap().record_len(),
{
    let n = front.len() as int;
    if front.len() == s.len() {
        assert(front =~= s);
    } else {
        lemma_decode_header_len(s);
        let hl = spec_decode_header(s).unwrap().header_len as int;
        assert(front.subrange(0, hl) =~= s.subrange(0, hl));
        lemma_decode_header_prefix(s, front);
        if spec_decode(s) is Some {
            assert(front.subrange(0, n) =~= s.subrange(0, n));
            lemma_decode_prefix(s, front);
        } else if spec_decode(front) is Some {
            assert(front.subrange(0, n) =~= s.subrange(0, n));
            lemma_decode_prefix(front, s);
        }
    }
}

/// The header of an encoding reads back as the record's type and lengths.
pub proof fn lemma_decode_header_of_encode(r: LogRecordView, rest: Seq<u8>)
    requires
        r.key.len() <= u64::MAX,
        r.value.len() <= u64::MAX,
    ensures
        spec_decode_header(spec_encode_header(r) + rest) == Some(
            RecordHeader {
                record_type: r.record_type,
                key_len: r.key.len() as u64,
                value_len: r.value.len() as u64,
                header_len: spec_encode_header(r).len() as usize,
            },
        ),
        3 <= spec_encode_header(r).len() <= MAX_HEADER_LEN,
{
    let k = spec_encode_varint(r.key.len());
    let v = spec_encode_varint(r.value.len());
    let s = spec_encode_header(r) + rest;
    lemma_decode_varint_of_encode(r.key.len() as u64, v + rest);
    lemma_decode_varint_of_encode(r.value.len() as u64, rest);
    assert(s[0] == spec_type_byte(r.record_type));
    assert(s.skip(1) =~= k + (v + rest));
    assert(s.skip(1 + k.len() as int) =~= v + rest);
}

/// Law: decoding the encoding of a record gives the record back, and stops
/// where the encoding ends, whatever follows it.
pub proof fn lemma_decode_of_encode(r: LogRecordView, rest: Seq<u8>)
    requires
        r.key.len() <= u64::MAX,
        r.value.len() <= u64::MAX,
    ensures
        spec_decode(spec_encode(r) + rest) == Some((r, spec_encode(r).len())),
{
    let header = spec_encode_header(r);
    let payload = spec_encode_payload(r);
    let sum = spec_u32_to_le_bytes(spec_crc32(payload));
    let s = spec_encode(r) + rest;
    lemma_auto_spec_u32_to_from_le_bytes();
    lemma_decode_header_of_encode(r, r.key + r.value + sum + rest);
    assert(s =~= header + (r.key + r.value + sum + rest));
    let end = payload.len() as int;
    let hl = header.len() as int;
    assert(s.subrange(end, end + 4) =~= sum);
    assert(s.subrange(0, end) =~= payload);
    assert(s.subrange(hl, hl + r.key.len()) =~= r.key);
    assert(s.subrange(hl + r.key.len(), end) =~= r.value);
}

/// The front part of an encoding, short of the whole, is not read as a
/// record.
pub proof fn lemma_decode_torn(r: LogRecordView, k: int)
    requires
        r.key.len() <= u64::MAX,
        r.value.len() <= u64::MAX,
        0 <= k < spec_encode(r).len(),
    ensures
        spec_decode(spec_encode(r).subrange(0, k)) is None,
{
    let whole = spec_encode(r);
    let part = whole.subrange(0, k);
    lemma_decode_of_encode(r, Seq::empty());
    assert(whole + Seq::<u8>::empty() =~= whole);
    if spec_decode(part) is Some {
        lemma_decode_len(part);
        let n = spec_decode(part).unwrap().1 as int;
        assert(whole.subrange(0, n) =~= part.subrange(0, n));
        lemma_decode_prefix(part, whole);
    }
}

/// Law: an encoding whose checksum bytes were changed is not read as a
/// record.
pub proof fn lemma_damaged_checksum(r: LogRecordView, damaged: Seq<u8>, rest: Seq<u8>)
    requires
        r.key.len() <= u64::MAX,
        r.value.len() <= u64::MAX,
        damaged.len() == spec_encode(r).len(),
        damaged.subrange(0, spec_encode_payload(r).len() as int) == spec_encode_payload(r),
        damaged != spec_encode(r),
    ensures
        spec_decode(damaged + rest) is None,
{
    let payload = spec_encode_payload(r);
    let header = spec_encode_header(r);
    let s = damaged + rest;
    let end = payload.len() as int;
    lemma_auto_spec_u32_to_from_le_bytes();
    lemma_decode_header_of_encode(r, r.key + r.value);
    assert(payload =~= header + (r.key + r.value));
    let hl = header.len() as int;
    assert(s.subrange(0, hl) =~= payload.subrange(0, hl)) by {
        assert forall|i: int| 0 <= i < hl implies s[i] == payload[i] by {
            assert(damaged.subrange(0, end)[i] == payload[i]);
        }
    }
    lemma_decode_header_prefix(payload, s);
    if spec_decode(s) is Some {
        let stored = s.subrange(end, end + 4);
        assert(s.subrange(0, end) =~= payload);
        assert(spec_u32_to_le_bytes(spec_u32_from_le_bytes(stored)) == stored);
        assert(damaged =~= spec_encode(r)) by {
            assert forall|i: int| 0 <= i < damaged.len() implies damaged[i] == spec_encode(
                r,
            )[i] by {
                if i < end {
                    assert(damaged.subrange(0, end)[i] == payload[i]);
                } else {
                    assert(stored[i - end] == s[i]);
                }
            }
        }
    }
}

impl LogRecordType {
    /// The byte that stands for this type in a record.
    pub fn to_byte(self) -> (b: u8)
        ensures
            b == spec_type_byte(self),
    {
        match self {
            LogRecordType::NORMAL => 1,
            LogRecordType::DELETED => 2,
        }
    }

    /// The type that `b` stands for.
    pub fn from_byte(b: u8) -> (t: Option<LogRecordType>)
        ensures
            t == spec_type_of_byte(b),
    {
        if b == 1 {
            Some(LogRecordType::NORMAL)
        } else if b == 2 {
            Some(LogRecordType::DELETED)
        } else {
            None
        }
    }
}

impl LogRecord {
    /// Writes the record out in the binary format. The record is left as it
    /// was.
    pub fn encode(&mut self) -> (bytes: Vec<u8>)
        ensures
            *final(self) == *old(self),
            bytes@ == spec_encode(old(self)@),
    {
        let mut bytes: Vec<u8> = Vec::new();
        bytes.push(self.record_type.to_byte());
        encode_varint(self.key.len() as u64, &mut bytes);
        encode_varint(self.value.len() as u64, &mut bytes);
        bytes.extend_from_slice(self.key.as_slice());
        bytes.extend_from_slice(self.value.as_slice());
        assert(bytes@ =~= spec_encode_payload(self@));
        let sum: u32 = crc32(bytes.as_slice());
        let tail: Vec<u8> = u32_to_le_bytes(sum);
        bytes.extend_from_slice(tail.as_slice());
        bytes
    }

    /// Reads the header that starts `buf`.
    pub fn decode_header(buf: &[u8]) -> (res: Option<RecordHeader>)
        ensures
            res == spec_decode_header(buf@),
    {
        if buf.len() < 1 {
            return None;
        }
        let record_type = match LogRecordType::from_byte(buf[0]) {
            Some(t) => t,
            None => {
                return None;
            },
        };
        let (key_len, kn) = match decode_varint(slice_subrange(buf, 1, buf.len())) {
            Some(found) => found,
            None => {
                return None;
            },
        };
        proof {
            lemma_decode_varint_len(buf@.skip(1));
        }
        let (value_len, vn) = match decode_varint(slice_subrange(buf, 1 + kn, buf.len())) {
            Some(found) => found,
            None => {
                return None;
            },
        };
        proof {
            lemma_decode_varint_len(buf@.skip(1 + kn as int));
        }
        Some(RecordHeader { record_type, key_len, value_len, header_len: 1 + kn + vn })
    }

    /// Reads the record that starts `buf`, and says how many bytes it takes.
    /// Fails with `CorruptRecord` where there is no whole record with a
    /// matching checksum.
    pub fn decode(buf: &[u8]) -> (res: Result<(LogRecord, usize)>)
        ensures
            match res {
                Ok((record, n)) => spec_decode(buf@) == Some((record@, n as nat)),
                Err(e) => e == Errors::CorruptRecord && spec_decode(buf@) is None,
            },
    {
        let header = match Self::decode_header(buf) {
            Some(h) => h,
            None => {
                return Err(Errors::CorruptRecord);
            },
        };
        proof {
            lemma_decode_header_len(buf@);
        }
        let after_header: usize = buf.len() - header.header_len;
        if header.key_len > after_header as u64 {
            return Err(Errors::CorruptRecord);
        }
        let key_end: usize = header.header_len + header.key_len as usize;
        let after_key: usize = buf.len() - key_end;
        if header.value_len > after_key as u64 {
            return Err(Errors::CorruptRecord);
        }
        let end: usize = key_end + header.value_len as usize;
        if buf.len() - end < CHECKSUM_LEN {
            return Err(Errors::CorruptRecord);
        }
        let stored: u32 = u32_from_le_bytes(slice_subrange(buf, end, end + CHECKSUM_LEN));
        let actual: u32 = crc32(slice_subrange(buf, 0, end));
        if stored != actual {
            return Err(Errors::CorruptRecord);
        }
        let key: Vec<u8> = slice_to_vec(slice_subrange(buf, header.header_len, key_end));
        let value: Vec<u8> = slice_to_vec(slice_subrange(buf, key_end, end));
        Ok((LogRecord { key, value, record_type: header.record_type }, end + CHECKSUM_LEN))
    }
}

} // verus!
