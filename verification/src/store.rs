//! The store: an append-only log of records plus the in-memory index.
//!
//! The store works on the log as a byte sequence owned in memory.  `open`
//! replays that sequence to rebuild the index; `put` appends a record and
//! updates the index; `get` looks the key up and reads its record straight
//! from the stored offset.  Keys are addressed by text: stored key bytes
//! are decoded leniently, so malformed key bytes index a record under the
//! replaced text instead of being rejected.  Bytes appended since the last
//! flush are handed out by [`KvStore::take_pending`] for the caller to
//! mirror to durable storage.

use vstd::prelude::*;

verus! {

use vstd::slice::slice_subrange;
use vstd::string::StringSliceAdditionalSpecFns;
use vstd::utf8::encode_utf8_decode_utf8;
use vstd::utf8::encode_utf8_valid_utf8;
use vstd::utf8::valid_utf8;

use crate::codec::copy_range;
use crate::codec::encode_record;
use crate::codec::encode_spec;
use crate::codec::has_record;
use crate::codec::read_u32_at;
use crate::codec::record_size_at;
use crate::codec::value_at;
use crate::error::KvError;
use crate::index::Index;
use crate::replay::entry_valid;
use crate::replay::key_text_at;
use crate::replay::lemma_append_other_keys;
use crate::replay::lemma_append_reads_back;
use crate::replay::lemma_log_map_valid;
use crate::replay::log_map;
use crate::replay::replay;
use crate::replay::scan_ok;
use crate::replay::value_of;
use crate::text::lossy_decode;
use crate::text::lossy_of;

/// Rebuilds the index by replaying the whole log from offset 0.
///
/// Each record inserts its decoded key at its own offset, so a later
/// record for a key overwrites the earlier entry: last-write-wins.  Key
/// bytes are decoded leniently — malformed ones index the record under the
/// replaced text.  The scan succeeds only when it ends exactly at the end
/// of the log; an end of log inside a record (partial header or partial
/// body) is unrecoverable.
pub fn load_index(log: &Vec<u8>) -> (r: Result<Index, KvError>)
    ensures
        r is Ok <==> scan_ok(log@, 0),
        (match r {
            Ok(index) => index.wf() && index@ == log_map(log@),
            Err(e) => e == KvError::UnexpectedEndOfLog,
        }),
{
    let mut index = Index::new();
    let mut offset: usize = 0;
    let n: usize = log.len();
    while offset < n
        invariant
            n == log@.len(),
            offset <= n,
            index.wf(),
            replay(log@, offset as int, index@) == log_map(log@),
            scan_ok(log@, 0) <==> scan_ok(log@, offset as int),
        decreases n - offset,
    {
        if n - offset < 8 {
            proof {
                assert(!has_record(log@, offset as int));
                assert(!scan_ok(log@, offset as int));
            }
            return Err(KvError::UnexpectedEndOfLog);
        }
        let key_len: usize = read_u32_at(log, offset) as usize;
        let value_len: usize = read_u32_at(log, offset + 4) as usize;
        let remaining: usize = n - offset - 8;
        if key_len > remaining || value_len > remaining - key_len {
            proof {
                assert(!has_record(log@, offset as int));
                assert(!scan_ok(log@, offset as int));
            }
            return Err(KvError::UnexpectedEndOfLog);
        }
        proof {
            assert(has_record(log@, offset as int));
            assert(record_size_at(log@, offset as int) == 8 + key_len + value_len);
        }
        let key_text = lossy_decode(
            slice_subrange(log.as_slice(), offset + 8, offset + 8 + key_len),
        );
        let ghost pre_index = index@;
        index.insert(key_text, offset as u64);
        proof {
            assert(index@ == pre_index.insert(key_text_at(log@, offset as int), offset as u64));
            assert(replay(log@, offset as int, pre_index) == replay(
                log@,
                offset + 8 + key_len + value_len,
                index@,
            ));
            assert(scan_ok(log@, offset as int) == scan_ok(
                log@,
                offset + 8 + key_len + value_len,
            ));
        }
        offset = offset + 8 + key_len + value_len;
    }
    proof {
        assert(scan_ok(log@, offset as int));
        assert(replay(log@, offset as int, index@) == index@);
    }
    Ok(index)
}

/// Reads exactly one record at `offset` and returns its value bytes, after
/// checking that the record's key decodes to the expected text.
///
/// No scanning happens here: the caller (the index) already knows the
/// offset.  A key mismatch means the index and the log disagree and is an
/// integrity fault; an end of log inside the record is corruption.
pub fn read_at(log: &Vec<u8>, offset: u64, expected_key: &str) -> (r: Result<Vec<u8>, KvError>)
    ensures
        (match r {
            Ok(v) => has_record(log@, offset as int) && key_text_at(log@, offset as int)
                == expected_key@ && v@ == value_at(log@, offset as int),
            Err(KvError::IndexIntegrityMismatch) => has_record(log@, offset as int)
                && key_text_at(log@, offset as int) != expected_key@,
            Err(KvError::UnexpectedEndOfLog) => !has_record(log@, offset as int),
            Err(_) => false,
        }),
{
    let n: usize = log.len();
    if offset > n as u64 {
        return Err(KvError::UnexpectedEndOfLog);
    }
    let off: usize = offset as usize;
    if n - off < 8 {
        return Err(KvError::UnexpectedEndOfLog);
    }
    let key_len: usize = read_u32_at(log, off) as usize;
    let value_len: usize = read_u32_at(log, off + 4) as usize;
    let remaining: usize = n - off - 8;
    if key_len > remaining || value_len > remaining - key_len {
        return Err(KvError::UnexpectedEndOfLog);
    }
    proof {
        assert(has_record(log@, offset as int));
        assert(record_size_at(log@, offset as int) == 8 + key_len + value_len);
    }
    let stored_text = lossy_decode(slice_subrange(log.as_slice(), off + 8, off + 8 + key_len));
    let expected_text: String = expected_key.to_owned();
    if stored_text != expected_text {
        return Err(KvError::IndexIntegrityMismatch);
    }
    let value = copy_range(log, off + 8 + key_len, off + 8 + key_len + value_len);
    Ok(value)
}

/// The store: the owned log, the flush watermark, and the index.
pub struct KvStore {
    log: Vec<u8>,
    flushed: usize,
    index: Index,
}

impl View for KvStore {
    type V = Map<Seq<char>, u64>;

    closed spec fn view(&self) -> Map<Seq<char>, u64> {
        self.index@
    }
}

impl KvStore {
    /// The full logical log: every byte appended so far, flushed or not.
    pub closed spec fn log_bytes(self) -> Seq<u8> {
        self.log@
    }

    /// How many leading bytes of the log the caller has already taken for
    /// durable storage; the rest is the buffered tail.
    pub closed spec fn flushed_up_to(self) -> int {
        self.flushed as int
    }

    /// The index entries in their stored order: each key's text and the
    /// offset of the key's latest record.
    pub closed spec fn spec_entries(self) -> Seq<(Seq<char>, u64)> {
        self.index.spec_entries()
    }

    /// Well-formedness: the log is a whole number of records, and the
    /// index is exactly what a recovery scan of the log rebuilds.
    pub closed spec fn wf(self) -> bool {
        &&& scan_ok(self.log_bytes(), 0)
        &&& self.index.wf()
        &&& self@ == log_map(self.log_bytes())
        &&& self.flushed_up_to() <= self.log_bytes().len()
    }

    /// Opens a store over the given log contents, rebuilding the index by
    /// a full replay.  Succeeds exactly when the log is a whole number of
    /// records; the whole log counts as already flushed.
    pub fn open(log: Vec<u8>) -> (r: Result<KvStore, KvError>)
        ensures
            r is Ok <==> scan_ok(log@, 0),
            (match r {
                Ok(s) => s.wf() && s.log_bytes() == log@ && s@ == log_map(log@)
                    && s.flushed_up_to() == log@.len(),
                Err(e) => e == KvError::UnexpectedEndOfLog,
            }),
    {
        let flushed: usize = log.len();
        match load_index(&log) {
            Ok(index) => Ok(KvStore { log, flushed, index }),
            Err(e) => Err(e),
        }
    }

    /// Appends one record for `key` and binds the key to the record's
    /// offset, overwriting any prior binding.  Returns that offset: the old
    /// end of the log, so consecutive appends return offsets that grow by
    /// exactly the previous record's size.  Nothing is flushed here.
    pub fn put(&mut self, key: &str, value: &[u8]) -> (r: u64)
        requires
            old(self).wf(),
            key.spec_bytes().len() <= u32::MAX,
            value@.len() <= u32::MAX,
            old(self).log_bytes().len() + 8 + key.spec_bytes().len() + value@.len() <= usize::MAX,
        ensures
            final(self).wf(),
            r == old(self).log_bytes().len(),
            final(self).log_bytes() == old(self).log_bytes() + encode_spec(
                key.spec_bytes(),
                value@,
            ),
            final(self).log_bytes().len() == old(self).log_bytes().len() + 8
                + key.spec_bytes().len() + value@.len(),
            final(self)@ == old(self)@.insert(key@, r),
            final(self).flushed_up_to() == old(self).flushed_up_to(),
            value_of(final(self).log_bytes(), key@) == Some(value@),
            forall|k: Seq<char>|
                k != key@ ==> #[trigger] value_of(final(self).log_bytes(), k) == value_of(
                    old(self).log_bytes(),
                    k,
                ),
    {
        let offset_now: usize = self.log.len();
        let offset: u64 = offset_now as u64;
        let key_bytes: &[u8] = key.as_bytes();
        let mut record = encode_record(key_bytes, value);
        self.log.append(&mut record);
        let key_text = lossy_decode(key_bytes);
        proof {
            // text written through this API is valid UTF-8, so its lossy
            // decoding is the key itself
            encode_utf8_valid_utf8(key@);
            encode_utf8_decode_utf8(key@);
            assert(valid_utf8(key_bytes@));
            assert(key_text@ == key@);
            assert(lossy_of(key.spec_bytes()) == key@);
        }
        self.index.insert(key_text, offset);
        proof {
            lemma_append_reads_back(old(self).log_bytes(), key.spec_bytes(), value@);
            assert forall|k: Seq<char>| k != key@ implies #[trigger] value_of(self.log@, k)
                == value_of(old(self).log@, k) by {
                lemma_append_other_keys(old(self).log@, key.spec_bytes(), value@, k);
            }
        }
        offset
    }

    /// Looks `key` up and returns a copy of its last-written value, or
    /// `None` when the key was never written — absence is a normal
    /// outcome, not an error.  The store itself is left unchanged.
    pub fn get(&mut self, key: &str) -> (r: Result<Option<Vec<u8>>, KvError>)
        requires
            old(self).wf(),
        ensures
            *final(self) == *old(self),
            (match r {
                Ok(Some(v)) => value_of(old(self).log_bytes(), key@) == Some(v@),
                Ok(None) => value_of(old(self).log_bytes(), key@) is None,
                Err(_) => false,
            }),
    {
        let key_text: String = key.to_owned();
        let log_len: usize = self.log.len();
        match self.index.lookup(&key_text) {
            None => Ok(None),
            Some(offset) => {
                proof {
                    assert(self.log@.len() == log_len);
                    lemma_log_map_valid(self.log@);
                    assert(entry_valid(self.log@, key@, offset));
                }
                match read_at(&self.log, offset, key) {
                    Ok(v) => Ok(Some(v)),
                    Err(e) => {
                        proof {
                            assert(false);
                        }
                        Err(e)
                    },
                }
            },
        }
    }

    /// Hands out the buffered tail of the log — every byte appended since
    /// the last flush — and marks the whole log flushed.  The caller
    /// appends exactly these bytes to durable storage to keep the backing
    /// file equal to the logical log.
    pub fn take_pending(&mut self) -> (r: Vec<u8>)
        requires
            old(self).wf(),
        ensures
            final(self).wf(),
            r@ == old(self).log_bytes().subrange(
                old(self).flushed_up_to(),
                old(self).log_bytes().len() as int,
            ),
            final(self).log_bytes() == old(self).log_bytes(),
            final(self)@ == old(self)@,
            final(self).flushed_up_to() == final(self).log_bytes().len(),
    {
        let r = copy_range(&self.log, self.flushed, self.log.len());
        self.flushed = self.log.len();
        r
    }

    /// The current logical end of the log: the offset that the next append
    /// will return.
    pub fn log_len(&self) -> (r: u64)
        ensures
            r == self.log_bytes().len(),
    {
        self.log.len() as u64
    }

    /// The number of keys in the index, for diagnostics.
    pub fn num_keys(&self) -> (r: usize)
        ensures
            r == self.spec_entries().len(),
    {
        self.index.len()
    }

    /// One index entry, for diagnostics: the key's text and the offset of
    /// the key's latest record.
    pub fn entry_at(&self, i: usize) -> (r: (String, u64))
        requires
            self.wf(),
            i < self.spec_entries().len(),
        ensures
            (r.0@, r.1) == self.spec_entries()[i as int],
            self@.contains_key(r.0@),
            self@[r.0@] == r.1,
    {
        self.index.entry_at(i)
    }

    /// The index entries describe the index map exactly: each listed pair
    /// is a binding of the map, no key is listed twice, and every binding
    /// is listed.  Walking `entry_at` from 0 to `num_keys` therefore dumps
    /// every binding once.
    pub proof fn lemma_entries_list_bindings(self)
        requires
            self.wf(),
        ensures
            forall|i: int| #![trigger self.spec_entries()[i]]
                0 <= i < self.spec_entries().len() ==> self@.contains_key(self.spec_entries()[i].0)
                    && self@[self.spec_entries()[i].0] == self.spec_entries()[i].1,
            forall|i: int, j: int| #![trigger self.spec_entries()[i], self.spec_entries()[j]]
                0 <= i < j < self.spec_entries().len() ==> self.spec_entries()[i].0
                    != self.spec_entries()[j].0,
            forall|k: Seq<char>| #[trigger]
                self@.contains_key(k) ==> exists|i: int|
                    0 <= i < self.spec_entries().len() && #[trigger] self.spec_entries()[i].0 == k,
    {
        self.index.lemma_entries_list_bindings();
        assert forall|k: Seq<char>| #[trigger] self@.contains_key(k) implies exists|i: int|
            0 <= i < self.spec_entries().len() && #[trigger] self.spec_entries()[i].0 == k by {
            assert(self.index@.contains_key(k));
            let i = choose|i: int|
                0 <= i < self.index.spec_entries().len() && #[trigger] self.index.spec_entries()[i].0
                    == k;
            assert(self.spec_entries()[i].0 == k);
        }
    }

    /// Durability law: what a well-formed store serves is determined by
    /// its log bytes alone.  Two stores over equal logs — in particular
    /// one reopened over the log an earlier store wrote out — hold the
    /// same index, and `get` answers for every key from `value_of` of
    /// those shared bytes, so every read agrees without re-issuing any
    /// write.
    pub proof fn lemma_log_determines_reads(s1: KvStore, s2: KvStore)
        requires
            s1.wf(),
            s2.wf(),
            s1.log_bytes() == s2.log_bytes(),
        ensures
            s1@ == s2@,
            forall|k: Seq<char>| #[trigger] value_of(s1.log_bytes(), k) == value_of(
                s2.log_bytes(),
                k,
            ),
    {
    }
}

} // verus!
