//! The log model: what a whole log means.
//!
//! A log is well formed when it is a concatenation of complete records; the
//! recovery scan walks it from offset 0 and rebuilds the index, later
//! records for a key overwriting earlier ones (last-write-wins).  A record
//! is indexed under the lossily-decoded text of its key bytes.  The spec
//! functions here define that walk, and the lemmas state how it behaves
//! when a record is appended: the foundation for the store's contracts.

use vstd::prelude::*;

verus! {

use crate::codec::encode_spec;
use crate::codec::has_record;
use crate::codec::key_at;
use crate::codec::lemma_encode_parses;
use crate::codec::lemma_record_stable;
use crate::codec::record_size_at;
use crate::codec::value_at;
use crate::text::lossy_of;

/// The key of the record at `off`, as the store addresses it: the
/// lossily-decoded text of the stored key bytes.
pub open spec fn key_text_at(log: Seq<u8>, off: int) -> Seq<char> {
    lossy_of(key_at(log, off))
}

/// True when the tail of the log from `off` on is a concatenation of
/// complete records: the scan started there ends exactly at the end of the
/// log.  An end of log anywhere inside a record makes the whole scan fail.
pub open spec fn scan_ok(log: Seq<u8>, off: int) -> bool
    decreases log.len() - off,
{
    if off == log.len() {
        true
    } else if !has_record(log, off) {
        false
    } else {
        scan_ok(log, off + record_size_at(log, off))
    }
}

/// The index that a scan from `off` builds on top of `acc`: each record
/// inserts its decoded key at its own offset, so a later record for the
/// same key overwrites an earlier entry.  The walk stops at the end of the
/// log, or at a truncated record.
pub open spec fn replay(log: Seq<u8>, off: int, acc: Map<Seq<char>, u64>) -> Map<Seq<char>, u64>
    decreases log.len() - off,
{
    if off == log.len() {
        acc
    } else if !has_record(log, off) {
        acc
    } else {
        replay(log, off + record_size_at(log, off), acc.insert(key_text_at(log, off), off as u64))
    }
}

/// The index of the whole log: offset of the last record for each decoded
/// key.
pub open spec fn log_map(log: Seq<u8>) -> Map<Seq<char>, u64> {
    replay(log, 0, Map::empty())
}

/// The last-written value for the decoded key, or `None` when no record
/// has it.
pub open spec fn value_of(log: Seq<u8>, key: Seq<char>) -> Option<Seq<u8>> {
    if log_map(log).contains_key(key) {
        Some(value_at(log, log_map(log)[key] as int))
    } else {
        None
    }
}

/// An index entry is valid when a complete record whose key bytes decode
/// to exactly the entry's key lies at the stored offset.
pub open spec fn entry_valid(log: Seq<u8>, key: Seq<char>, off: u64) -> bool {
    &&& has_record(log, off as int)
    &&& key_text_at(log, off as int) == key
}

proof fn lemma_replay_valid(log: Seq<u8>, off: int, acc: Map<Seq<char>, u64>)
    requires
        0 <= off <= log.len(),
        log.len() <= u64::MAX,
        scan_ok(log, off),
        forall|k: Seq<char>| #[trigger]
            acc.contains_key(k) ==> entry_valid(log, k, acc[k]),
    ensures
        forall|k: Seq<char>| #[trigger]
            replay(log, off, acc).contains_key(k) ==> entry_valid(log, k, replay(log, off, acc)[k]),
    decreases log.len() - off,
{
    if off == log.len() {
    } else {
        let next = off + record_size_at(log, off);
        let acc2 = acc.insert(key_text_at(log, off), off as u64);
        assert(has_record(log, off));
        assert(scan_ok(log, next));
        assert(replay(log, off, acc) == replay(log, next, acc2));
        assert(forall|k: Seq<char>| #[trigger]
            acc2.contains_key(k) ==> entry_valid(log, k, acc2[k]));
        lemma_replay_valid(log, next, acc2);
    }
}

/// Every entry of the index of a well-formed log points at a complete
/// record whose key bytes decode to exactly the entry's key: the rebuilt
/// index never disagrees with the log it was rebuilt from.
pub proof fn lemma_log_map_valid(log: Seq<u8>)
    requires
        scan_ok(log, 0),
        log.len() <= u64::MAX,
    ensures
        forall|k: Seq<char>| #[trigger]
            log_map(log).contains_key(k) ==> entry_valid(log, k, log_map(log)[k]),
{
    lemma_replay_valid(log, 0, Map::empty());
}

proof fn lemma_replay_append(
    log: Seq<u8>,
    key_bytes: Seq<u8>,
    value: Seq<u8>,
    off: int,
    acc: Map<Seq<char>, u64>,
)
    requires
        0 <= off <= log.len(),
        scan_ok(log, off),
        key_bytes.len() <= u32::MAX,
        value.len() <= u32::MAX,
        log.len() + 8 + key_bytes.len() + value.len() <= u64::MAX,
    ensures
        scan_ok(log + encode_spec(key_bytes, value), off),
        replay(log + encode_spec(key_bytes, value), off, acc) == replay(log, off, acc).insert(
            lossy_of(key_bytes),
            log.len() as u64,
        ),
    decreases log.len() - off,
{
    let full = log + encode_spec(key_bytes, value);
    lemma_encode_parses(log, key_bytes, value);
    if off == log.len() {
        assert(has_record(full, off));
        assert(record_size_at(full, off) == 8 + key_bytes.len() + value.len());
        assert(off + record_size_at(full, off) == full.len());
        assert(scan_ok(full, off + record_size_at(full, off)));
        assert(replay(full, off, acc) == replay(
            full,
            off + record_size_at(full, off),
            acc.insert(key_text_at(full, off), off as u64),
        ));
        assert(key_text_at(full, off) == lossy_of(key_bytes));
        assert(replay(full, off, acc) == acc.insert(lossy_of(key_bytes), log.len() as u64));
    } else {
        lemma_record_stable(log, encode_spec(key_bytes, value), off);
        let next = off + record_size_at(log, off);
        lemma_replay_append(
            log,
            key_bytes,
            value,
            next,
            acc.insert(key_text_at(log, off), off as u64),
        );
        assert(key_text_at(full, off) == key_text_at(log, off));
        assert(record_size_at(full, off) == record_size_at(log, off));
    }
}

/// Appending a record makes the last-written value of its decoded key the
/// appended value, and keeps the log well formed: the index of the grown
/// log is the old index with exactly that one binding updated.
pub proof fn lemma_append_reads_back(log: Seq<u8>, key_bytes: Seq<u8>, value: Seq<u8>)
    requires
        scan_ok(log, 0),
        key_bytes.len() <= u32::MAX,
        value.len() <= u32::MAX,
        log.len() + 8 + key_bytes.len() + value.len() <= u64::MAX,
    ensures
        scan_ok(log + encode_spec(key_bytes, value), 0),
        log_map(log + encode_spec(key_bytes, value)) == log_map(log).insert(
            lossy_of(key_bytes),
            log.len() as u64,
        ),
        value_of(log + encode_spec(key_bytes, value), lossy_of(key_bytes)) == Some(value),
{
    let full = log + encode_spec(key_bytes, value);
    lemma_replay_append(log, key_bytes, value, 0, Map::empty());
    lemma_encode_parses(log, key_bytes, value);
    assert(log_map(full)[lossy_of(key_bytes)] == log.len() as u64);
    assert(value_at(full, log.len() as int) == value);
}

/// Appending a record touches no other key: every key whose decoded text
/// differs from the appended record's reads the same value as before.
pub proof fn lemma_append_other_keys(
    log: Seq<u8>,
    key_bytes: Seq<u8>,
    value: Seq<u8>,
    other: Seq<char>,
)
    requires
        scan_ok(log, 0),
        key_bytes.len() <= u32::MAX,
        value.len() <= u32::MAX,
        log.len() + 8 + key_bytes.len() + value.len() <= u64::MAX,
    ensures
        other != lossy_of(key_bytes) ==> value_of(log + encode_spec(key_bytes, value), other)
            == value_of(log, other),
{
    let full = log + encode_spec(key_bytes, value);
    lemma_replay_append(log, key_bytes, value, 0, Map::empty());
    if other != lossy_of(key_bytes) && log_map(log).contains_key(other) {
        lemma_log_map_valid(log);
        assert(entry_valid(log, other, log_map(log)[other]));
        lemma_record_stable(log, encode_spec(key_bytes, value), log_map(log)[other] as int);
        assert(value_at(full, log_map(full)[other] as int) == value_at(
            log,
            log_map(log)[other] as int,
        ));
    }
}

/// Writing a key twice: the second value wins.  Two appended records whose
/// key bytes decode to the same text — byte-identical keys included —
/// leave the index pointing at the later record, so a read returns the
/// second value, never the first.
pub proof fn lemma_overwrite(
    log: Seq<u8>,
    key_bytes1: Seq<u8>,
    v1: Seq<u8>,
    key_bytes2: Seq<u8>,
    v2: Seq<u8>,
)
    requires
        scan_ok(log, 0),
        key_bytes1.len() <= u32::MAX,
        key_bytes2.len() <= u32::MAX,
        v1.len() <= u32::MAX,
        v2.len() <= u32::MAX,
        log.len() + 8 + key_bytes1.len() + v1.len() + 8 + key_bytes2.len() + v2.len() <= u64::MAX,
    ensures
        lossy_of(key_bytes1) == lossy_of(key_bytes2) ==> value_of(
            log + encode_spec(key_bytes1, v1) + encode_spec(key_bytes2, v2),
            lossy_of(key_bytes1),
        ) == Some(v2),
{
    lemma_encode_parses(log, key_bytes1, v1);
    lemma_append_reads_back(log, key_bytes1, v1);
    lemma_append_reads_back(log + encode_spec(key_bytes1, v1), key_bytes2, v2);
}

/// The empty log holds no key at all.
pub proof fn lemma_empty_log_absent(key: Seq<char>)
    ensures
        scan_ok(Seq::<u8>::empty(), 0),
        value_of(Seq::<u8>::empty(), key) == None::<Seq<u8>>,
{
    assert(!log_map(Seq::<u8>::empty()).contains_key(key));
}

} // verus!
