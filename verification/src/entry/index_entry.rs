//! The index record: a domain key and the offset of its record in the log.
//!
//! On disk a record is 40 bytes: the key's UTF-8 bytes, cut or zero-padded
//! to 32, then the offset as 8 bytes, least significant first.

use vstd::prelude::*;
use vstd::bytes::{spec_u64_from_le_bytes, spec_u64_to_le_bytes, u64_from_le_bytes, u64_to_le_bytes};
use vstd::std_specs::cmp::PartialEqSpecImpl;
use vstd::utf8::{encode_utf8, valid_utf8};
use crate::entry::{
    deserialize_string, lemma_strip_zeros_then_pad, padded_text, strip_zeros, zeros,
    BinarySerialization, DOMAIN_SIZE,
};
use crate::errs::VaultError;
use crate::text::same_text;

verus! {

/// Size in bytes of an index record on disk.
pub const INDEX_RECORD_SIZE: usize = 40;

/// An entry of the index.
#[derive(Debug, Clone)]
pub struct IndexEntry {
    pub key: String,
    pub value: u64,
}

/// What an index entry stands for: a key and an offset.
pub struct IndexRecord {
    pub key: Seq<char>,
    pub offset: u64,
}

impl View for IndexEntry {
    type V = IndexRecord;

    open spec fn view(&self) -> IndexRecord {
        IndexRecord { key: self.key@, offset: self.value }
    }
}

/// The 32-byte key field: the key's bytes, cut after 32 or padded with zeros.
pub open spec fn key_field(key: Seq<char>) -> Seq<u8> {
    let bytes = encode_utf8(key);
    if bytes.len() >= 32 {
        bytes.take(32)
    } else {
        bytes + zeros((32 - bytes.len()) as nat)
    }
}

/// The 40 bytes of an index record.
pub open spec fn index_record_bytes(record: IndexRecord) -> Seq<u8> {
    key_field(record.key) + spec_u64_to_le_bytes(record.offset)
}

/// The index record at the start of `data`, if `data` is long enough.
pub open spec fn index_record_of(data: Seq<u8>) -> Option<IndexRecord> {
    if data.len() < 40 {
        None
    } else {
        Some(
            IndexRecord {
                key: padded_text(data, 0, 32),
                offset: spec_u64_from_le_bytes(data.subrange(32, 40)),
            },
        )
    }
}

impl IndexEntry {
    /// An entry for `key` at offset `value`.
    pub fn new(key: &str, value: u64) -> (entry: IndexEntry)
        ensures
            entry.key@ == key@,
            entry.value == value,
    {
        IndexEntry { key: key.to_owned(), value }
    }

    /// A copy of the entry.
    pub fn duplicate(&self) -> (entry: IndexEntry)
        ensures
            entry@ == self@,
    {
        IndexEntry { key: self.key.clone(), value: self.value }
    }
}

impl PartialEq for IndexEntry {
    fn eq(&self, other: &Self) -> (r: bool) {
        same_text(self.key.as_str(), other.key.as_str()) && self.value == other.value
    }
}

impl PartialEqSpecImpl for IndexEntry {
    open spec fn obeys_eq_spec() -> bool {
        true
    }

    open spec fn eq_spec(&self, other: &Self) -> bool {
        self.key@ == other.key@ && self.value == other.value
    }
}

impl BinarySerialization for IndexEntry {
    open spec fn encoding(&self) -> Seq<u8> {
        index_record_bytes(self@)
    }

    open spec fn decodable(data: Seq<u8>) -> bool {
        data.len() >= 40
    }

    open spec fn decoded(data: Seq<u8>, value: &Self) -> bool {
        index_record_of(data) == Some(value@)
    }

    fn serialize(&self) -> (out: Vec<u8>) {
        let bytes = self.key.as_str().as_bytes();
        let mut out: Vec<u8> = Vec::new();
        let mut i: usize = 0;
        while i < DOMAIN_SIZE
            invariant
                i <= 32,
                bytes@ == encode_utf8(self.key@),
                out@.len() == i,
                forall|k: int| 0 <= k < i ==> out@[k] == key_field(self.key@)[k],
            decreases 32 - i,
        {
            if i < bytes.len() {
                out.push(bytes[i]);
            } else {
                out.push(0);
            }
            i = i + 1;
        }
        let mut tail = u64_to_le_bytes(self.value);
        out.append(&mut tail);
        proof {
            assert(out@ =~= index_record_bytes(self@));
        }
        out
    }

    fn deserialize(data: &[u8]) -> (r: Result<IndexEntry, VaultError>) {
        if data.len() < INDEX_RECORD_SIZE {
            return Err(VaultError::Deserialization);
        }
        let key = match deserialize_string(0, DOMAIN_SIZE, data) {
            Ok(key) => key,
            Err(e) => {
                return Err(e);
            },
        };
        let value = u64_from_le_bytes(vstd::slice::slice_subrange(data, DOMAIN_SIZE, INDEX_RECORD_SIZE));
        Ok(IndexEntry { key, value })
    }
}

/// A key that the 32-byte field holds in full: at most 32 bytes long and not
/// ending in a zero byte.
pub open spec fn storable_key(key: Seq<char>) -> bool {
    let bytes = encode_utf8(key);
    bytes.len() <= 32 && (bytes.len() == 0 || bytes.last() != 0)
}

/// The key that is read back from the key field of a key.
pub open spec fn reloaded_key(key: Seq<char>) -> Seq<char> {
    padded_text(key_field(key), 0, 32)
}

/// A key whose key field, once its padding is gone, holds valid UTF-8.
pub open spec fn readable_key(key: Seq<char>) -> bool {
    valid_utf8(strip_zeros(key_field(key)))
}

/// An index record is always 40 bytes long.
pub proof fn lemma_index_record_size(record: IndexRecord)
    ensures
        index_record_bytes(record).len() == 40,
{
    vstd::bytes::lemma_auto_spec_u64_to_from_le_bytes();
}

/// Reading back what was written gives the offset that was written, and
/// the key that is read back from the key field.
pub proof fn lemma_index_record_read_back(record: IndexRecord)
    ensures
        index_record_of(index_record_bytes(record)) == Some(
            IndexRecord { key: reloaded_key(record.key), offset: record.offset },
        ),
{
    vstd::bytes::lemma_auto_spec_u64_to_from_le_bytes();
    let data = index_record_bytes(record);
    let field = key_field(record.key);
    assert(data.subrange(0, 32) =~= field);
    assert(field.subrange(0, 32) =~= field);
    assert(data.subrange(32, 40) =~= spec_u64_to_le_bytes(record.offset));
}

/// A storable key is read back as it is.
pub proof fn lemma_storable_key_read_back(key: Seq<char>)
    requires
        storable_key(key),
    ensures
        reloaded_key(key) == key,
        readable_key(key),
{
    let bytes = encode_utf8(key);
    let field = key_field(key);
    assert(field =~= bytes + zeros((32 - bytes.len()) as nat));
    assert(field.subrange(0, 32) =~= field);
    crate::entry::lemma_strip_zeros_of_padded(bytes, (32 - bytes.len()) as nat);
    crate::text::lemma_text_of_encoding(key);
    vstd::utf8::encode_utf8_valid_utf8(key);
}

/// A readable key and the key that is read back from its field have the
/// same key field.
pub proof fn lemma_reloaded_key_field(key: Seq<char>)
    requires
        readable_key(key),
    ensures
        key_field(reloaded_key(key)) == key_field(key),
{
    let field = key_field(key);
    let kept = strip_zeros(field);
    assert(field.len() == 32);
    assert(field.subrange(0, 32) =~= field);
    lemma_strip_zeros_then_pad(field);
    vstd::utf8::decode_utf8_encode_utf8(kept);
    if kept.len() == 32 {
        assert(kept.take(32) =~= kept);
        assert(kept + zeros(0) =~= kept);
    }
}

/// Reading back what was written gives the record that was written, for
/// every record whose key the key field holds in full.
pub proof fn lemma_index_record_round_trip(record: IndexRecord)
    requires
        storable_key(record.key),
    ensures
        index_record_of(index_record_bytes(record)) == Some(record),
{
    lemma_index_record_read_back(record);
    lemma_storable_key_read_back(record.key);
}

} // verus!
