//! The record format of the log.
//!
//! A record is a checksum, the key's length, the value's length, the key and the
//! value. The three numbers are little-endian `u32`s. The checksum covers all that
//! follows it. A deletion is a record whose value length is `TOMBSTONE` and that
//! has no value bytes.

use crate::crc::{checksum, crc32, lemma_crc_of_zeros};
use vstd::prelude::*;
use vstd::slice::*;

verus! {

/// Bytes before the key: checksum, key length, value length.
pub const HEADER: usize = 12;

/// The value length that marks a deletion.
pub const TOMBSTONE: u32 = 0xffff_ffff;

/// Upper bound on a single key or value. Well below `TOMBSTONE`, so the length of
/// a value is never mistaken for the mark of a deletion.
pub const MAX_KV: usize = 256 * 1024 * 1024;

/// The length of the longest record that is read back.
pub const MAX_RECORD: u64 = 12 + 2 * 256 * 1024 * 1024;

/// The four bytes of `x`, lowest first.
pub open spec fn le32(x: u32) -> Seq<u8> {
    seq![
        (x % 256) as u8,
        (x / 256 % 256) as u8,
        (x / 65536 % 256) as u8,
        (x / 16777216) as u8,
    ]
}

/// The number whose four bytes, lowest first, stand at `at`.
pub open spec fn le32_at(bytes: Seq<u8>, at: int) -> int {
    bytes[at] + 256 * bytes[at + 1] + 65536 * bytes[at + 2] + 16777216 * bytes[at + 3]
}

/// The length field of a value, or the mark of a deletion.
pub open spec fn length_field(val: Option<Seq<u8>>) -> u32 {
    match val {
        Some(v) => v.len() as u32,
        None => TOMBSTONE,
    }
}

/// The bytes that a value adds to its record: none for a deletion.
pub open spec fn value_bytes(val: Option<Seq<u8>>) -> Seq<u8> {
    match val {
        Some(v) => v,
        None => Seq::empty(),
    }
}

/// What the checksum of a record covers.
pub open spec fn body(key: Seq<u8>, val: Option<Seq<u8>>) -> Seq<u8> {
    le32(key.len() as u32) + le32(length_field(val)) + key + value_bytes(val)
}

/// The record for setting `key` to `val`, or for deleting `key`.
pub open spec fn encoded(key: Seq<u8>, val: Option<Seq<u8>>) -> Seq<u8> {
    le32(crc32(body(key, val))) + body(key, val)
}

/// What stands at the front of a byte sequence.
pub enum Front {
    /// Fewer bytes than a header has.
    ShortHeader,
    /// A header that claims a key or a value above `MAX_KV`.
    TooLong,
    /// A header with fewer bytes behind it than it claims.
    ShortBody,
    /// A record whose checksum does not match.
    Corrupt,
    /// A whole record that takes `len` bytes. `val` is `None` for a deletion.
    Whole { key: Seq<u8>, val: Option<Seq<u8>>, len: int },
}

/// The length of the key that the header claims.
pub open spec fn key_len(bytes: Seq<u8>) -> int {
    le32_at(bytes, 4)
}

/// The length of the value that the header claims: 0 for a deletion.
pub open spec fn val_len(bytes: Seq<u8>) -> int {
    if le32_at(bytes, 8) == TOMBSTONE {
        0
    } else {
        le32_at(bytes, 8)
    }
}

/// Reads the front of `bytes` as a record.
pub open spec fn front(bytes: Seq<u8>) -> Front {
    let klen = key_len(bytes);
    let vlen = val_len(bytes);
    let len = HEADER + klen + vlen;
    if bytes.len() < HEADER {
        Front::ShortHeader
    } else if klen > MAX_KV || vlen > MAX_KV {
        Front::TooLong
    } else if bytes.len() < len {
        Front::ShortBody
    } else if crc32(bytes.subrange(4, len)) != le32_at(bytes, 0) {
        Front::Corrupt
    } else {
        Front::Whole {
            key: bytes.subrange(HEADER as int, HEADER + klen),
            val: if le32_at(bytes, 8) == TOMBSTONE {
                None
            } else {
                Some(bytes.subrange(HEADER + klen, len))
            },
            len,
        }
    }
}

/// Appends the four bytes of `x`, lowest first.
fn push_le32(out: &mut Vec<u8>, x: u32)
    ensures
        final(out)@ == old(out)@ + le32(x),
{
    out.push((x % 256) as u8);
    out.push((x / 256 % 256) as u8);
    out.push((x / 65536 % 256) as u8);
    out.push((x / 16777216) as u8);
    assert(out@ =~= old(out)@ + le32(x));
}

/// Reads the four bytes at `at`, lowest first.
pub(crate) fn read_le32(bytes: &[u8], at: usize) -> (x: u32)
    requires
        at + 4 <= bytes@.len(),
    ensures
        x == le32_at(bytes@, at as int),
{
    bytes[at] as u32 + 256 * (bytes[at + 1] as u32) + 65536 * (bytes[at + 2] as u32) + 16777216 * (
    bytes[at + 3] as u32)
}

/// Appends a copy of `bytes`.
pub(crate) fn push_bytes(out: &mut Vec<u8>, bytes: &[u8])
    ensures
        final(out)@ == old(out)@ + bytes@,
{
    out.extend_from_slice(bytes);
    assert(out@ =~= old(out)@ + bytes@);
}

/// The record for setting `key` to `val`, or, where `val` is `None`, for deleting
/// `key`. A length field holds the low 32 bits of the length.
pub fn encode(key: &[u8], val: Option<&[u8]>) -> (out: Vec<u8>)
    ensures
        out@ == encoded(key@, match val {
            Some(v) => Some(v@),
            None => None,
        }),
{
    let vlen: u32 = match val {
        Some(v) => v.len() as u32,
        None => TOMBSTONE,
    };
    let mut body: Vec<u8> = Vec::new();
    push_le32(&mut body, key.len() as u32);
    push_le32(&mut body, vlen);
    push_bytes(&mut body, key);
    if let Some(v) = val {
        push_bytes(&mut body, v);
    }
    let sum = checksum(body.as_slice());
    let mut out: Vec<u8> = Vec::new();
    push_le32(&mut out, sum);
    push_bytes(&mut out, body.as_slice());
    proof {
        let v = match val {
            Some(v) => Some(v@),
            None => None,
        };
        assert(body@ =~= self::body(key@, v));
        assert(out@ =~= encoded(key@, v));
    }
    out
}

/// A record is as long as its header, its key and its value together.
pub proof fn lemma_encoded_len(key: Seq<u8>, val: Option<Seq<u8>>)
    ensures
        encoded(key, val).len() == HEADER + key.len() + value_bytes(val).len(),
{
}

proof fn lemma_le32_round_trip(x: u32)
    ensures
        le32_at(le32(x), 0) == x,
{
    let a = x as int / 256;
    let b = a / 256;
    assert(x as int / 65536 == b);
    assert(x as int / 16777216 == b / 256);
}

/// The three numbers of a record's header.
proof fn lemma_header(key: Seq<u8>, val: Option<Seq<u8>>, bytes: Seq<u8>)
    requires
        bytes.len() >= HEADER,
        bytes.take(HEADER as int) == encoded(key, val).take(HEADER as int),
    ensures
        le32_at(bytes, 0) == crc32(body(key, val)),
        le32_at(bytes, 4) == key.len() as u32,
        le32_at(bytes, 8) == length_field(val),
{
    let rec = encoded(key, val);
    let sum = le32(crc32(body(key, val)));
    let klen = le32(key.len() as u32);
    let vlen = le32(length_field(val));
    lemma_le32_round_trip(crc32(body(key, val)));
    lemma_le32_round_trip(key.len() as u32);
    lemma_le32_round_trip(length_field(val));
    assert forall|i: int| 0 <= i < HEADER implies bytes[i] == rec[i] by {
        assert(bytes.take(HEADER as int)[i] == rec.take(HEADER as int)[i]);
    }
    assert(rec =~= sum + klen + vlen + key + value_bytes(val));
    assert forall|i: int| 0 <= i < 4 implies bytes[i] == sum[i] && bytes[i + 4] == klen[i]
        && bytes[i + 8] == vlen[i] by {}
}

/// Reading a record back gives what was written, whatever follows it.
pub proof fn law_record_round_trip(key: Seq<u8>, val: Option<Seq<u8>>, rest: Seq<u8>)
    requires
        key.len() <= MAX_KV,
        value_bytes(val).len() <= MAX_KV,
    ensures
        front(encoded(key, val) + rest) == (Front::Whole {
            key,
            val,
            len: encoded(key, val).len() as int,
        }),
{
    let rec = encoded(key, val);
    let bytes = rec + rest;
    let len = rec.len() as int;
    lemma_encoded_len(key, val);
    assert(bytes.take(HEADER as int) =~= rec.take(HEADER as int));
    lemma_header(key, val, bytes);
    assert(bytes.subrange(4, len) =~= body(key, val));
    assert(bytes.subrange(HEADER as int, HEADER + key.len()) =~= key);
    assert(bytes.subrange(HEADER + key.len(), len) =~= value_bytes(val));
}

/// A record that was cut short is not read as a record, so a write that a crash
/// interrupted is never trusted.
pub proof fn law_torn_record_is_rejected(key: Seq<u8>, val: Option<Seq<u8>>, n: int)
    requires
        key.len() <= MAX_KV,
        value_bytes(val).len() <= MAX_KV,
        0 <= n < encoded(key, val).len(),
    ensures
        front(encoded(key, val).take(n)) == (if n < HEADER {
            Front::ShortHeader
        } else {
            Front::ShortBody
        }),
{
    let bytes = encoded(key, val).take(n);
    if n >= HEADER {
        lemma_encoded_len(key, val);
        assert(bytes.take(HEADER as int) =~= encoded(key, val).take(HEADER as int));
        lemma_header(key, val, bytes);
    }
}

/// What a whole record looks like does not depend on what follows it.
pub proof fn lemma_front_extends(bytes: Seq<u8>, more: Seq<u8>)
    requires
        front(bytes) is Whole,
    ensures
        front(bytes + more) == front(bytes),
        HEADER <= front(bytes)->len <= bytes.len(),
{
    let all = bytes + more;
    let klen = key_len(bytes);
    let vlen = val_len(bytes);
    let len = HEADER + klen + vlen;
    assert(all.subrange(4, len) =~= bytes.subrange(4, len));
    assert(all.subrange(HEADER as int, HEADER + klen) =~= bytes.subrange(
        HEADER as int,
        HEADER + klen,
    ));
    assert(all.subrange(HEADER + klen, len) =~= bytes.subrange(HEADER + klen, len));
}

/// Cutting bytes off the end never makes a record out of what was none, and keeps
/// a record that it does not cut into.
pub proof fn lemma_front_cut(bytes: Seq<u8>, n: int)
    requires
        0 <= n <= bytes.len(),
        front(bytes.take(n)) is Whole,
    ensures
        front(bytes.take(n)) == front(bytes),
        HEADER <= front(bytes)->len <= n,
{
    lemma_front_extends(bytes.take(n), bytes.skip(n));
    assert(bytes.take(n) + bytes.skip(n) =~= bytes);
}

/// A record that ends before the cut is read as before.
pub proof fn lemma_front_kept(bytes: Seq<u8>, n: int)
    requires
        front(bytes) is Whole,
        front(bytes)->len <= n <= bytes.len(),
    ensures
        front(bytes.take(n)) == front(bytes),
{
    let cut = bytes.take(n);
    let klen = key_len(bytes);
    let vlen = val_len(bytes);
    let len = HEADER + klen + vlen;
    assert(cut.subrange(4, len) =~= bytes.subrange(4, len));
    assert(cut.subrange(HEADER as int, HEADER + klen) =~= bytes.subrange(
        HEADER as int,
        HEADER + klen,
    ));
    assert(cut.subrange(HEADER + klen, len) =~= bytes.subrange(HEADER + klen, len));
}

/// Zeros, as some file systems leave them behind what was written, are no record.
pub proof fn law_zeros_are_no_record(bytes: Seq<u8>)
    requires
        bytes.len() >= HEADER,
        forall|i: int| 0 <= i < HEADER ==> #[trigger] bytes[i] == 0,
    ensures
        front(bytes) is Corrupt,
{
    let rest = bytes.subrange(4, HEADER as int);
    assert(bytes[0] == 0 && bytes[1] == 0 && bytes[2] == 0 && bytes[3] == 0);
    assert(bytes[4] == 0 && bytes[5] == 0 && bytes[6] == 0 && bytes[7] == 0);
    assert(bytes[8] == 0 && bytes[9] == 0 && bytes[10] == 0 && bytes[11] == 0);
    assert forall|i: int| 0 <= i < 8 implies #[trigger] rest[i] == 0 by {
        assert(rest[i] == bytes[i + 4]);
    }
    lemma_crc_of_zeros(rest);
}

/// Four bytes are those of the number that they spell.
proof fn lemma_le32_back(bytes: Seq<u8>, at: int)
    requires
        0 <= at,
        at + 4 <= bytes.len(),
    ensures
        0 <= le32_at(bytes, at) <= u32::MAX,
        le32(le32_at(bytes, at) as u32) == bytes.subrange(at, at + 4),
{
    let x = le32_at(bytes, at);
    let (a, b, c, d) = (
        bytes[at] as int,
        bytes[at + 1] as int,
        bytes[at + 2] as int,
        bytes[at + 3] as int,
    );
    assert(x == a + 256 * (b + 256 * (c + 256 * d)));
    assert(x % 256 == a);
    assert(x / 256 == b + 256 * (c + 256 * d));
    assert(x / 65536 == c + 256 * d);
    assert(x / 16777216 == d);
    assert(le32(x as u32) =~= bytes.subrange(at, at + 4));
}

/// Only what was written as a record is read as one: the bytes that are taken for a record
/// are, one for one, those that writing its key and its value gives, checksum and all, and
/// neither of the two is above the limit.
pub proof fn law_only_records_are_read(bytes: Seq<u8>)
    requires
        front(bytes) is Whole,
    ensures
        ({
            let (key, val, len) = (front(bytes)->key, front(bytes)->val, front(bytes)->len);
            &&& 0 <= len <= bytes.len()
            &&& bytes.take(len) == encoded(key, val)
            &&& key.len() <= MAX_KV
            &&& value_bytes(val).len() <= MAX_KV
        }),
{
    let (key, val, len) = (front(bytes)->key, front(bytes)->val, front(bytes)->len);
    lemma_front_extends(bytes, Seq::empty());
    lemma_le32_back(bytes, 0);
    lemma_le32_back(bytes, 4);
    lemma_le32_back(bytes, 8);
    let klen = key_len(bytes);
    assert(key.len() == klen);
    assert(length_field(val) == le32_at(bytes, 8) as u32);
    let rec = bytes.take(len);
    assert(rec.subrange(HEADER as int, HEADER + klen) =~= key);
    assert(rec.subrange(HEADER + klen, len) =~= value_bytes(val));
    assert(body(key, val) =~= bytes.subrange(4, len));
    assert(encoded(key, val) =~= rec);
}

/// The four bytes at `at` spell `x`, the lowest first.
pub open spec fn spells(bytes: Seq<u8>, at: int, x: int) -> bool {
    bytes[at] + 256 * bytes[at + 1] + 256 * 256 * bytes[at + 2] + 256 * 256 * 256 * bytes[at + 3]
        == x
}

/// How a record is laid out: the checksum of all that follows it, the length of the key,
/// that of the value or, for a deletion, the highest number that fits, each in four bytes
/// of which the lowest comes first, and then the key and the value as they are.
pub proof fn law_record_layout(key: Seq<u8>, val: Option<Seq<u8>>)
    requires
        key.len() <= MAX_KV,
        value_bytes(val).len() <= MAX_KV,
    ensures
        ({
            let rec = encoded(key, val);
            let n = 12 + key.len() as int;
            &&& rec.len() >= n
            &&& spells(rec, 0, crc32(rec.skip(4)) as int)
            &&& spells(rec, 4, key.len() as int)
            &&& rec.subrange(12, n) == key
            &&& match val {
                Some(v) => spells(rec, 8, v.len() as int) && rec.skip(n) == v,
                None => spells(rec, 8, 0xffff_ffff) && rec.len() == n,
            }
        }),
{
    let rec = encoded(key, val);
    lemma_encoded_len(key, val);
    assert(rec.take(HEADER as int) =~= encoded(key, val).take(HEADER as int));
    lemma_header(key, val, rec);
    assert(rec.skip(4) =~= body(key, val));
    assert(rec.subrange(12, 12 + key.len() as int) =~= key);
    assert(rec.skip(12 + key.len() as int) =~= value_bytes(val));
}

/// Records of different keys or values differ, and so do a value, an empty value and a
/// deletion.
pub proof fn law_records_differ(
    a: Seq<u8>,
    x: Option<Seq<u8>>,
    b: Seq<u8>,
    y: Option<Seq<u8>>,
)
    requires
        a.len() <= MAX_KV,
        value_bytes(x).len() <= MAX_KV,
        b.len() <= MAX_KV,
        value_bytes(y).len() <= MAX_KV,
        encoded(a, x) == encoded(b, y),
    ensures
        a == b,
        x == y,
{
    law_record_round_trip(a, x, Seq::empty());
    law_record_round_trip(b, y, Seq::empty());
}

/// The limits of the format: twelve bytes before the key, a mark of deletion that no length
/// reaches, and keys and values of up to 256 MiB, which the longest record is made of.
pub proof fn law_limits()
    ensures
        HEADER == 12,
        TOMBSTONE == u32::MAX,
        MAX_KV == 256 * 1024 * 1024,
        MAX_RECORD == HEADER + 2 * MAX_KV,
{
}

} // verus!
