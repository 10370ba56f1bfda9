//! The record codec: the fixed binary layout of one log entry.
//!
//! A record is stored as an 8-byte header followed by the two bodies:
//!
//! ```text
//! offset +0              u32 little-endian   key length in bytes
//! offset +4              u32 little-endian   value length in bytes
//! offset +8              key-length bytes    key
//! offset +8+key-length   value-length bytes  value
//! ```
//!
//! The total record size is `8 + key_length + value_length`.  There is no
//! checksum, magic number or version tag; a record's offset is simply the
//! byte position of its header in the log.

use vstd::prelude::*;

verus! {

use vstd::bytes::lemma_auto_spec_u32_to_from_le_bytes;
use vstd::bytes::spec_u32_from_le_bytes;
use vstd::bytes::spec_u32_to_le_bytes;
use vstd::bytes::u32_from_le_bytes;
use vstd::bytes::u32_to_le_bytes;
use vstd::slice::slice_subrange;
use vstd::slice::slice_to_vec;

/// The serialized form of one record: header, key bytes, value bytes.
pub open spec fn encode_spec(key: Seq<u8>, value: Seq<u8>) -> Seq<u8> {
    spec_u32_to_le_bytes(key.len() as u32) + spec_u32_to_le_bytes(value.len() as u32) + key + value
}

/// True when a full 8-byte header lies at `off`.
pub open spec fn has_header(log: Seq<u8>, off: int) -> bool {
    0 <= off && off + 8 <= log.len()
}

/// Key length declared by the header at `off`.
pub open spec fn key_len_at(log: Seq<u8>, off: int) -> int {
    spec_u32_from_le_bytes(log.subrange(off, off + 4)) as int
}

/// Value length declared by the header at `off`.
pub open spec fn value_len_at(log: Seq<u8>, off: int) -> int {
    spec_u32_from_le_bytes(log.subrange(off + 4, off + 8)) as int
}

/// Total on-disk size of the record at `off`: header plus both bodies.
pub open spec fn record_size_at(log: Seq<u8>, off: int) -> int {
    8 + key_len_at(log, off) + value_len_at(log, off)
}

/// True when a complete record (header, key body and value body) lies at `off`.
pub open spec fn has_record(log: Seq<u8>, off: int) -> bool {
    has_header(log, off) && off + record_size_at(log, off) <= log.len()
}

/// The key bytes of the record at `off`.
pub open spec fn key_at(log: Seq<u8>, off: int) -> Seq<u8> {
    log.subrange(off + 8, off + 8 + key_len_at(log, off))
}

/// The value bytes of the record at `off`.
pub open spec fn value_at(log: Seq<u8>, off: int) -> Seq<u8> {
    log.subrange(off + 8 + key_len_at(log, off), off + record_size_at(log, off))
}

/// Reads the little-endian `u32` stored at byte position `pos`.
pub fn read_u32_at(log: &Vec<u8>, pos: usize) -> (r: u32)
    requires
        pos + 4 <= log@.len(),
    ensures
        r == spec_u32_from_le_bytes(log@.subrange(pos as int, pos as int + 4)),
{
    let len: usize = log.len();
    proof {
        assert(pos + 4 <= len);
    }
    u32_from_le_bytes(slice_subrange(log.as_slice(), pos, pos + 4))
}

/// Copies `log[from .. to]` into a fresh vector.
pub fn copy_range(log: &Vec<u8>, from: usize, to: usize) -> (r: Vec<u8>)
    requires
        from <= to,
        to <= log@.len(),
    ensures
        r@ == log@.subrange(from as int, to as int),
{
    slice_to_vec(slice_subrange(log.as_slice(), from, to))
}

/// Serializes one record: lengths header, then key bytes, then value bytes.
pub fn encode_record(key: &[u8], value: &[u8]) -> (r: Vec<u8>)
    requires
        key@.len() <= u32::MAX,
        value@.len() <= u32::MAX,
        8 + key@.len() + value@.len() <= usize::MAX,
    ensures
        r@ == encode_spec(key@, value@),
        r@.len() == 8 + key@.len() + value@.len(),
{
    let mut r: Vec<u8> = u32_to_le_bytes(key.len() as u32);
    let mut value_len_bytes: Vec<u8> = u32_to_le_bytes(value.len() as u32);
    r.append(&mut value_len_bytes);
    let mut key_bytes: Vec<u8> = slice_to_vec(key);
    r.append(&mut key_bytes);
    let mut value_bytes: Vec<u8> = slice_to_vec(value);
    r.append(&mut value_bytes);
    proof {
        lemma_auto_spec_u32_to_from_le_bytes();
        assert(r@ =~= encode_spec(key@, value@));
    }
    r
}

/// Appending one serialized record to a log places a complete record at the
/// old end of the log, and that record decodes back to exactly the key and
/// value that were encoded.
pub proof fn lemma_encode_parses(log: Seq<u8>, key: Seq<u8>, value: Seq<u8>)
    requires
        key.len() <= u32::MAX,
        value.len() <= u32::MAX,
    ensures
        has_record(log + encode_spec(key, value), log.len() as int),
        record_size_at(log + encode_spec(key, value), log.len() as int) == 8 + key.len()
            + value.len(),
        key_at(log + encode_spec(key, value), log.len() as int) == key,
        value_at(log + encode_spec(key, value), log.len() as int) == value,
        (log + encode_spec(key, value)).len() == log.len() + 8 + key.len() + value.len(),
{
    lemma_auto_spec_u32_to_from_le_bytes();
    let full = log + encode_spec(key, value);
    let off = log.len() as int;
    assert(full.subrange(off, off + 4) =~= spec_u32_to_le_bytes(key.len() as u32));
    assert(full.subrange(off + 4, off + 8) =~= spec_u32_to_le_bytes(value.len() as u32));
    assert(key_len_at(full, off) == key.len());
    assert(value_len_at(full, off) == value.len());
    assert(key_at(full, off) =~= key);
    assert(value_at(full, off) =~= value);
}

/// Bytes appended after a complete record do not change how it decodes.
pub proof fn lemma_record_stable(log: Seq<u8>, ext: Seq<u8>, off: int)
    requires
        has_record(log, off),
    ensures
        has_record(log + ext, off),
        key_len_at(log + ext, off) == key_len_at(log, off),
        value_len_at(log + ext, off) == value_len_at(log, off),
        record_size_at(log + ext, off) == record_size_at(log, off),
        key_at(log + ext, off) == key_at(log, off),
        value_at(log + ext, off) == value_at(log, off),
{
    let full = log + ext;
    assert(full.subrange(off, off + 4) =~= log.subrange(off, off + 4));
    assert(full.subrange(off + 4, off + 8) =~= log.subrange(off + 4, off + 8));
    assert(key_at(full, off) =~= key_at(log, off));
    assert(value_at(full, off) =~= value_at(log, off));
}

} // verus!
