//! The vault engine: how the index and the log are kept fitting together
//! when an entry is stored or removed.

use vstd::prelude::*;
use crate::datastructures::sorted_indexentry_set::{
    has_key, inserted, insertion_point, lemma_insertion_point, lemma_position_of, position_of,
    shift_fits, shifted, without, IndexSet,
};
use crate::entry::index_entry::{IndexEntry, IndexRecord};
use crate::entry::vault_entry::{
    framed_record, log_record_at, log_record_bytes, record_end, storable_record, Entry, LogRecord,
};
use crate::entry::BinarySerialization;
use crate::errs::VaultError;
use crate::storage::vault::{
    compacted, lemma_append_keeps_starts, lemma_append_tiles, lemma_compaction_keeps_records,
    lemma_compaction_keeps_starts, lemma_compaction_keeps_tiling, lemma_record_start_complete,
    lemma_record_starts_apart, lemma_record_starts_stand_apart, moved, record_start, tiled,
    vault_add,
};

verus! {

/// The offset that the index gives for a key.
pub open spec fn offset_of(index: Seq<IndexRecord>, key: Seq<char>) -> u64 {
    index[position_of(index, key)].offset
}

/// Stores an entry: appends its record to the log and adds its domain to
/// the index, at the offset where the record stands.
///
/// Fails with `DuplicateKey`, and changes nothing, exactly when the domain
/// is already in the index.
pub fn store_entry(index: &mut IndexSet, log: &mut Vec<u8>, entry: &Entry) -> (r: Result<
    u64,
    VaultError,
>)
    requires
        old(index).well_formed(),
    ensures
        final(index).well_formed(),
        match r {
            Ok(offset) => {
                &&& !has_key(old(index)@, entry.domain@)
                &&& offset == old(log)@.len()
                &&& final(log)@ == old(log)@ + log_record_bytes(entry@)
                &&& final(index)@ == inserted(
                    old(index)@,
                    IndexRecord { key: entry.domain@, offset },
                )
            },
            Err(e) => {
                &&& has_key(old(index)@, entry.domain@)
                &&& e == VaultError::DuplicateKey
                &&& final(index)@ == old(index)@
                &&& final(log)@ == old(log)@
            },
        },
{
    if index.has(entry.domain.as_str()) {
        return Err(VaultError::DuplicateKey);
    }
    let record = entry.serialize();
    let offset = vault_add(log, record.as_slice());
    let item = IndexEntry::new(entry.domain.as_str(), offset);
    let _ = index.add(&item);
    Ok(offset)
}

/// The number of bytes of the record that the index gives for a key.
pub open spec fn record_size_of(index: Seq<IndexRecord>, log: Seq<u8>, key: Seq<char>) -> int {
    record_end(log, offset_of(index, key) as int)->0 - offset_of(index, key)
}

/// Whether a domain can be removed: it is in the index, a complete record
/// stands at its offset, and every entry that stands later in the log can
/// move down by the size of that record.
pub open spec fn removable(index: Seq<IndexRecord>, log: Seq<u8>, key: Seq<char>) -> bool {
    &&& has_key(index, key)
    &&& record_end(log, offset_of(index, key) as int) is Some
    &&& shift_fits(index, key, record_size_of(index, log, key) as u64)
}

/// Index and log fit together: the log is made of complete records, every
/// offset of the index is where one of them begins, and no two entries
/// share an offset.
pub open spec fn consistent(index: Seq<IndexRecord>, log: Seq<u8>) -> bool {
    &&& tiled(log)
    &&& forall|i: int| 0 <= i < index.len() ==> record_start(log, (#[trigger] index[i]).offset as int)
    &&& forall|i: int, j: int|
        0 <= i < j < index.len() ==> (#[trigger] index[i]).offset != (#[trigger] index[j]).offset
}

/// An empty index and an empty log fit together.
pub proof fn lemma_empty_consistent()
    ensures
        consistent(Seq::<IndexRecord>::empty(), Seq::<u8>::empty()),
{
}

/// Where index and log fit together, every domain of the index can be
/// removed.
pub proof fn lemma_consistent_removable(index: Seq<IndexRecord>, log: Seq<u8>, key: Seq<char>)
    requires
        consistent(index, log),
        has_key(index, key),
    ensures
        removable(index, log, key),
        0 < record_size_of(index, log, key) <= u64::MAX,
{
    lemma_position_of(index, key);
    let p = position_of(index, key);
    let removed = index[p].offset as int;
    lemma_record_start_complete(log, removed);
    let n = record_size_of(index, log, key);
    assert(0 < n <= log.len());
    assert forall|i: int|
        0 <= i < index.len() && (#[trigger] index[i]).offset > index[p].offset implies index[i].offset
        >= n as u64 by {
        lemma_record_starts_apart(log, 0, removed, index[i].offset as int);
        lemma_record_start_complete(log, index[i].offset as int);
    }
}

/// After a removal every surviving entry still leads to its record: the
/// log is shorter by exactly the size of the removed record, and reading
/// at the offset that the index now gives for a surviving entry finds the
/// bytes, and so the record, that stood at its old offset.
pub proof fn lemma_remove_keeps_records(
    index: Seq<IndexRecord>,
    log: Seq<u8>,
    key: Seq<char>,
    i: int,
)
    requires
        consistent(index, log),
        has_key(index, key),
        0 <= i < index.len() - 1,
    ensures
        ({
            let n = record_size_of(index, log, key);
            let after_log = compacted(log, offset_of(index, key) as int, n);
            let after_index = without(index, key, n as u64);
            let j = if i < position_of(index, key) {
                i
            } else {
                i + 1
            };
            let size = record_end(log, index[j].offset as int)->0 - index[j].offset;
            &&& after_log.len() == log.len() - n
            &&& after_index.len() == index.len() - 1
            &&& after_index[i].key == index[j].key
            &&& after_index[i].offset == moved(
                index[j].offset as int,
                offset_of(index, key) as int,
                n,
            )
            &&& record_end(after_log, after_index[i].offset as int) == Some(
                after_index[i].offset + size,
            )
            &&& after_log.subrange(after_index[i].offset as int, after_index[i].offset + size)
                == log.subrange(index[j].offset as int, index[j].offset + size)
            &&& log_record_at(after_log, after_index[i].offset as int) == log_record_at(
                log,
                index[j].offset as int,
            )
        }),
{
    lemma_position_of(index, key);
    lemma_consistent_removable(index, log, key);
    let p = position_of(index, key);
    let j = if i < p {
        i
    } else {
        i + 1
    };
    let removed = index[p].offset as int;
    let other = index[j].offset as int;
    assert(other != removed) by {
        if j < p {
            assert(index[j].offset != index[p].offset);
        } else {
            assert(index[p].offset != index[j].offset);
        }
    }
    lemma_record_starts_stand_apart(log, removed, other);
    lemma_compaction_keeps_records(log, removed, other);
    lemma_record_start_complete(log, removed);
    lemma_record_start_complete(log, other);
    let n = record_size_of(index, log, key);
    let after_index = without(index, key, n as u64);
    assert(after_index[i].key == index[j].key);
    assert(after_index[i].offset == shifted(index[j].offset, index[p].offset, n as u64));
    if other > removed {
        lemma_record_starts_apart(log, 0, removed, other);
    }
}

/// A removal keeps index and log fitting together.
pub proof fn lemma_remove_keeps_consistent(index: Seq<IndexRecord>, log: Seq<u8>, key: Seq<char>)
    requires
        consistent(index, log),
        has_key(index, key),
    ensures
        consistent(
            without(index, key, record_size_of(index, log, key) as u64),
            compacted(log, offset_of(index, key) as int, record_size_of(index, log, key)),
        ),
{
    lemma_position_of(index, key);
    lemma_consistent_removable(index, log, key);
    let p = position_of(index, key);
    let removed = index[p].offset as int;
    let n = record_size_of(index, log, key);
    let after_log = compacted(log, removed, n);
    let after_index = without(index, key, n as u64);
    lemma_compaction_keeps_tiling(log, removed);
    lemma_record_start_complete(log, removed);
    assert forall|i: int| 0 <= i < after_index.len() implies record_start(
        after_log,
        (#[trigger] after_index[i]).offset as int,
    ) by {
        lemma_remove_keeps_records(index, log, key, i);
        let j = if i < p {
            i
        } else {
            i + 1
        };
        assert(index[j].offset != index[p].offset) by {
            if j < p {
                assert(index[j].offset != index[p].offset);
            } else {
                assert(index[p].offset != index[j].offset);
            }
        }
        lemma_compaction_keeps_starts(log, removed, index[j].offset as int);
    }
    assert forall|a: int, b: int| 0 <= a < b < after_index.len() implies (
    #[trigger] after_index[a]).offset != (#[trigger] after_index[b]).offset by {
        lemma_remove_keeps_records(index, log, key, a);
        lemma_remove_keeps_records(index, log, key, b);
        let ja = if a < p {
            a
        } else {
            a + 1
        };
        let jb = if b < p {
            b
        } else {
            b + 1
        };
        assert(index[ja].offset != index[jb].offset);
        let first = index[ja].offset as int;
        let second = index[jb].offset as int;
        lemma_record_start_complete(log, first);
        lemma_record_start_complete(log, second);
        if first < removed && removed < second {
            lemma_record_starts_apart(log, 0, removed, second);
        }
        if second < removed && removed < first {
            lemma_record_starts_apart(log, 0, removed, first);
        }
    }
}

/// Storing a framed entry under a new domain keeps index and log fitting
/// together; where the entry is storable, the index then leads from its
/// domain to the entry as it was written.
pub proof fn lemma_store_keeps_consistent(
    index: Seq<IndexRecord>,
    log: Seq<u8>,
    record: LogRecord,
)
    requires
        consistent(index, log),
        framed_record(record),
        !has_key(index, record.domain),
        log.len() <= u64::MAX,
    ensures
        ({
            let after_index = inserted(
                index,
                IndexRecord { key: record.domain, offset: log.len() as u64 },
            );
            let after_log = log + log_record_bytes(record);
            &&& consistent(after_index, after_log)
            &&& has_key(after_index, record.domain)
            &&& offset_of(after_index, record.domain) == log.len()
            &&& storable_record(record) ==> log_record_at(after_log, log.len() as int) == Some(
                record,
            )
        }),
{
    let added = IndexRecord { key: record.domain, offset: log.len() as u64 };
    let at = insertion_point(index, record.domain);
    let after_index = index.insert(at, added);
    let after_log = log + log_record_bytes(record);
    lemma_insertion_point(index, record.domain);
    lemma_append_tiles(log, record);
    assert forall|i: int| 0 <= i < after_index.len() implies record_start(
        after_log,
        (#[trigger] after_index[i]).offset as int,
    ) by {
        if i < at {
            assert(after_index[i] == index[i]);
            lemma_append_keeps_starts(log, log_record_bytes(record), index[i].offset as int);
        } else if i > at {
            assert(after_index[i] == index[i - 1]);
            lemma_append_keeps_starts(log, log_record_bytes(record), index[i - 1].offset as int);
        }
    }
    assert forall|a: int, b: int| 0 <= a < b < after_index.len() implies (
    #[trigger] after_index[a]).offset != (#[trigger] after_index[b]).offset by {
        let ja = if a < at {
            a
        } else {
            a - 1
        };
        let jb = if b < at {
            b
        } else {
            b - 1
        };
        if a != at {
            assert(after_index[a] == index[ja]);
            lemma_record_start_complete(log, index[ja].offset as int);
        }
        if b != at {
            assert(after_index[b] == index[jb]);
            lemma_record_start_complete(log, index[jb].offset as int);
        }
        if a != at && b != at {
            assert(index[ja].offset != index[jb].offset);
        }
    }
    assert(after_index[at].key == record.domain);
    lemma_position_of(after_index, record.domain);
    let found = position_of(after_index, record.domain);
    if found != at {
        let j = if found < at {
            found
        } else {
            found - 1
        };
        assert(after_index[found] == index[j]);
        assert(index[j].key == record.domain);
    }
}

} // verus!
