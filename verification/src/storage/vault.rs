//! The log: records one after another, with no separators and no padding.
//! Its length is the offset that the next record will get.

use vstd::prelude::*;
use crate::entry::vault_entry::{
    append_bytes, find_record_end, framed_record, lemma_record_framed, lemma_record_moved,
    lemma_record_read_back, log_record_at, log_record_bytes, record_end, storable_record,
    LogRecord,
};
use crate::errs::VaultError;

verus! {

/// The log without the `n` bytes that start at `start`.
pub open spec fn compacted(log: Seq<u8>, start: int, n: int) -> Seq<u8> {
    log.subrange(0, start) + log.subrange(start + n, log.len() as int)
}

/// The length of the log: the offset at which the next record will begin.
pub fn vault_len(log: &[u8]) -> (n: u64)
    ensures
        n == log@.len(),
{
    log.len() as u64
}

/// The bytes of the record that starts at `start_byte`.
///
/// Fails when no complete record starts there: the offset is out of range,
/// or the log ends before a field that the record declares.
pub fn vault_read(log: &[u8], start_byte: u64) -> (r: Result<Vec<u8>, VaultError>)
    ensures
        match r {
            Ok(bytes) => {
                &&& record_end(log@, start_byte as int) == Some(start_byte + bytes@.len())
                &&& bytes@ == log@.subrange(start_byte as int, start_byte + bytes@.len())
            },
            Err(e) => record_end(log@, start_byte as int) is None && e
                == VaultError::Deserialization,
        },
{
    if start_byte > log.len() as u64 {
        return Err(VaultError::Deserialization);
    }
    let start: usize = start_byte as usize;
    match find_record_end(log, start) {
        Some(end) => Ok(vstd::slice::slice_to_vec(vstd::slice::slice_subrange(log, start, end))),
        None => Err(VaultError::Deserialization),
    }
}

/// Appends a record to the log and returns the offset at which it stands.
pub fn vault_add(log: &mut Vec<u8>, data: &[u8]) -> (offset: u64)
    ensures
        final(log)@ == old(log)@ + data@,
        offset == old(log)@.len(),
{
    let offset: u64 = log.len() as u64;
    append_bytes(log, data);
    offset
}

/// Removes the record that starts at `start_byte`, moves every later byte
/// down to close the gap, and returns the number of bytes removed.
///
/// Fails, and leaves the log as it was, when no complete record starts
/// there.
pub fn vault_remove(log: &mut Vec<u8>, start_byte: u64) -> (r: Result<u64, VaultError>)
    ensures
        match r {
            Ok(n) => {
                &&& record_end(old(log)@, start_byte as int) == Some(start_byte + n)
                &&& final(log)@ == compacted(old(log)@, start_byte as int, n as int)
                &&& final(log)@.len() == old(log)@.len() - n
            },
            Err(e) => {
                &&& record_end(old(log)@, start_byte as int) is None
                &&& e == VaultError::Deserialization
                &&& final(log)@ == old(log)@
            },
        },
{
    if start_byte > log.len() as u64 {
        return Err(VaultError::Deserialization);
    }
    let start: usize = start_byte as usize;
    let end: usize = match find_record_end(log.as_slice(), start) {
        Some(end) => end,
        None => {
            return Err(VaultError::Deserialization);
        },
    };
    let n: usize = end - start;
    let len: usize = log.len();
    let mut i: usize = end;
    while i < len
        invariant
            start <= end <= i <= len,
            n == end - start,
            len == old(log)@.len(),
            log@.len() == len,
            forall|k: int| 0 <= k < start ==> log@[k] == old(log)@[k],
            forall|k: int| start <= k < i - n ==> log@[k] == old(log)@[k + n],
            forall|k: int| i <= k < len ==> log@[k] == old(log)@[k],
        decreases len - i,
    {
        let byte: u8 = log[i];
        log.set(i - n, byte);
        i = i + 1;
    }
    log.truncate(len - n);
    proof {
        assert(log@ =~= compacted(old(log)@, start as int, n as int));
    }
    Ok(n as u64)
}

/// Whether `at` is where a record ends and the next may begin, going
/// through the records of the log one after another from `from`.
pub open spec fn boundary_from(log: Seq<u8>, from: int, at: int) -> bool
    decreases log.len() - from,
{
    if from < 0 || from > at {
        false
    } else if from == at {
        true
    } else {
        match record_end(log, from) {
            None => false,
            Some(end) => from < end <= log.len() && boundary_from(log, end, at),
        }
    }
}

/// Whether a record of the log begins at `offset`: the first record begins
/// at 0, each further record where the one before it ends, and a complete
/// record stands at `offset`.
pub open spec fn record_start(log: Seq<u8>, offset: int) -> bool {
    boundary_from(log, 0, offset) && record_end(log, offset) is Some
}

/// Whether the log is made of complete records and nothing else.
pub open spec fn tiled(log: Seq<u8>) -> bool {
    boundary_from(log, 0, log.len() as int)
}

/// The place of a byte of the log after the `n` bytes at `removed` were
/// taken out: what stood later stands lower by `n`.
pub open spec fn moved(at: int, removed: int, n: int) -> int {
    if at > removed {
        at - n
    } else {
        at
    }
}

/// A record ends after it begins, and within the log.
pub proof fn lemma_record_end_bounds(log: Seq<u8>, offset: int)
    requires
        record_end(log, offset) is Some,
    ensures
        0 <= offset,
        offset + 31 <= record_end(log, offset)->0 <= log.len(),
{
}

/// Where a record begins, a complete record stands.
pub proof fn lemma_record_start_complete(log: Seq<u8>, offset: int)
    requires
        record_start(log, offset),
    ensures
        0 <= offset,
        record_end(log, offset) is Some,
        offset < record_end(log, offset)->0 <= log.len(),
{
    lemma_record_end_bounds(log, offset);
}

/// The end of a record that begins at a boundary is a boundary.
pub proof fn lemma_boundary_step(log: Seq<u8>, from: int, at: int)
    requires
        boundary_from(log, from, at),
        record_end(log, at) is Some,
    ensures
        boundary_from(log, from, record_end(log, at)->0),
    decreases log.len() - from,
{
    lemma_record_end_bounds(log, at);
    let end = record_end(log, at)->0;
    if from == at {
        assert(boundary_from(log, end, end));
    } else {
        lemma_boundary_step(log, record_end(log, from)->0, at);
    }
}

/// Records do not overlap: of two boundaries of the log, a record that
/// begins at the earlier ends no later than the other.
pub proof fn lemma_record_starts_apart(log: Seq<u8>, from: int, first: int, second: int)
    requires
        boundary_from(log, from, first),
        boundary_from(log, from, second),
        first < second,
    ensures
        record_end(log, first) is Some,
        record_end(log, first)->0 <= second,
    decreases log.len() - from,
{
    let end = record_end(log, from)->0;
    if from == first {
        assert(boundary_from(log, end, second));
    } else {
        lemma_record_starts_apart(log, end, first, second);
    }
}

/// Two complete records stand apart: neither begins within the other.
pub open spec fn records_apart(log: Seq<u8>, first: int, second: int) -> bool {
    &&& record_end(log, first) is Some
    &&& record_end(log, second) is Some
    &&& record_end(log, first)->0 <= second || record_end(log, second)->0 <= first
}

/// Two different records of the log stand apart.
pub proof fn lemma_record_starts_stand_apart(log: Seq<u8>, first: int, second: int)
    requires
        record_start(log, first),
        record_start(log, second),
        first != second,
    ensures
        records_apart(log, first, second),
{
    if first < second {
        lemma_record_starts_apart(log, 0, first, second);
    } else {
        lemma_record_starts_apart(log, 0, second, first);
    }
}

/// Removing a record leaves every record that stands apart from it as it
/// was: the log is shorter by the size of the removed record, and the other
/// record stands unchanged, byte for byte, at its old offset where it stood
/// before the removed record and lower by that size where it stood after
/// it.
pub proof fn lemma_compaction_keeps_records(log: Seq<u8>, removed: int, other: int)
    requires
        records_apart(log, removed, other),
    ensures
        ({
            let n = record_end(log, removed)->0 - removed;
            let after = compacted(log, removed, n);
            let place = moved(other, removed, n);
            let size = record_end(log, other)->0 - other;
            &&& after.len() == log.len() - n
            &&& 0 <= place
            &&& record_end(after, place) == Some(place + size)
            &&& after.subrange(place, place + size) == log.subrange(other, other + size)
            &&& log_record_at(after, place) == log_record_at(log, other)
        }),
{
    lemma_record_end_bounds(log, removed);
    lemma_record_end_bounds(log, other);
    let n = record_end(log, removed)->0 - removed;
    let after = compacted(log, removed, n);
    let size = record_end(log, other)->0 - other;
    if other > removed {
        let place = other - n;
        assert(after.subrange(place, place + size) =~= log.subrange(other, other + size));
        lemma_record_moved(log, other, after, place);
    } else {
        assert(after.subrange(other, other + size) =~= log.subrange(other, other + size));
        lemma_record_moved(log, other, after, other);
    }
}

/// Removing a record keeps the boundaries of the log: what was a boundary
/// other than the start of the removed record is one still, at its new
/// place.
pub proof fn lemma_compaction_keeps_boundaries(log: Seq<u8>, removed: int, from: int, at: int)
    requires
        record_start(log, removed),
        boundary_from(log, 0, from),
        boundary_from(log, from, at),
        from != removed,
        at != removed,
    ensures
        ({
            let n = record_end(log, removed)->0 - removed;
            boundary_from(compacted(log, removed, n), moved(from, removed, n), moved(at, removed, n))
        }),
    decreases log.len() - from,
{
    lemma_record_start_complete(log, removed);
    let removed_end = record_end(log, removed)->0;
    let n = removed_end - removed;
    let after = compacted(log, removed, n);
    let new_from = moved(from, removed, n);
    if from < removed {
        lemma_record_starts_apart(log, 0, from, removed);
    } else {
        lemma_record_starts_apart(log, 0, removed, from);
    }
    if from != at {
        let end = record_end(log, from)->0;
        lemma_record_end_bounds(log, from);
        assert(boundary_from(log, end, at));
        lemma_boundary_step(log, 0, from);
        assert(after.subrange(new_from, new_from + (end - from)) =~= log.subrange(from, end));
        lemma_record_moved(log, from, after, new_from);
        assert(record_end(after, new_from) == Some(new_from + (end - from)));
        if end == removed {
            assert(boundary_from(log, removed_end, at));
            lemma_boundary_step(log, 0, removed);
            lemma_compaction_keeps_boundaries(log, removed, removed_end, at);
            assert(moved(removed_end, removed, n) == removed);
        } else {
            lemma_compaction_keeps_boundaries(log, removed, end, at);
            if end > removed {
                lemma_record_starts_apart(log, 0, removed, end);
            }
            assert(moved(end, removed, n) == new_from + (end - from));
        }
    }
}

/// Removing a record keeps the other records of the log in place as
/// records: each begins, at its new place, a record of the compacted log.
pub proof fn lemma_compaction_keeps_starts(log: Seq<u8>, removed: int, other: int)
    requires
        record_start(log, removed),
        record_start(log, other),
        other != removed,
    ensures
        ({
            let n = record_end(log, removed)->0 - removed;
            record_start(compacted(log, removed, n), moved(other, removed, n))
        }),
{
    lemma_record_start_complete(log, removed);
    lemma_record_starts_stand_apart(log, removed, other);
    lemma_compaction_keeps_records(log, removed, other);
    let removed_end = record_end(log, removed)->0;
    if removed == 0 {
        assert(boundary_from(log, removed_end, other));
        lemma_boundary_step(log, 0, removed);
        lemma_compaction_keeps_boundaries(log, removed, removed_end, other);
    } else {
        lemma_compaction_keeps_boundaries(log, removed, 0, other);
    }
}

/// Removing a record from a log made of complete records leaves a log made
/// of complete records.
pub proof fn lemma_compaction_keeps_tiling(log: Seq<u8>, removed: int)
    requires
        tiled(log),
        record_start(log, removed),
    ensures
        tiled(compacted(log, removed, record_end(log, removed)->0 - removed)),
{
    lemma_record_start_complete(log, removed);
    let removed_end = record_end(log, removed)->0;
    let len = log.len() as int;
    if removed == 0 {
        assert(boundary_from(log, removed_end, len));
        lemma_boundary_step(log, 0, removed);
        lemma_compaction_keeps_boundaries(log, removed, removed_end, len);
    } else {
        lemma_compaction_keeps_boundaries(log, removed, 0, len);
    }
}

/// Appending to the log keeps its boundaries.
pub proof fn lemma_append_keeps_boundaries(log: Seq<u8>, more: Seq<u8>, from: int, at: int)
    requires
        boundary_from(log, from, at),
    ensures
        boundary_from(log + more, from, at),
    decreases log.len() - from,
{
    if from != at {
        let end = record_end(log, from)->0;
        lemma_record_end_bounds(log, from);
        assert((log + more).subrange(from, end) =~= log.subrange(from, end));
        lemma_record_moved(log, from, log + more, from);
        lemma_append_keeps_boundaries(log, more, end, at);
    }
}

/// Appending to the log keeps its records: where a record began, the same
/// record begins.
pub proof fn lemma_append_keeps_starts(log: Seq<u8>, more: Seq<u8>, offset: int)
    requires
        record_start(log, offset),
    ensures
        record_start(log + more, offset),
        record_end(log + more, offset) == record_end(log, offset),
        log_record_at(log + more, offset) == log_record_at(log, offset),
{
    lemma_record_end_bounds(log, offset);
    let end = record_end(log, offset)->0;
    lemma_append_keeps_boundaries(log, more, 0, offset);
    assert((log + more).subrange(offset, end) =~= log.subrange(offset, end));
    lemma_record_moved(log, offset, log + more, offset);
}

/// Appending a framed record to a log made of complete records gives a
/// log made of complete records, in which a record begins where the log
/// ended; a storable record is read back there as it was written.
pub proof fn lemma_append_tiles(log: Seq<u8>, record: LogRecord)
    requires
        tiled(log),
        framed_record(record),
    ensures
        tiled(log + log_record_bytes(record)),
        record_start(log + log_record_bytes(record), log.len() as int),
        storable_record(record) ==> log_record_at(
            log + log_record_bytes(record),
            log.len() as int,
        ) == Some(record),
{
    let bytes = log_record_bytes(record);
    let after = log + bytes;
    lemma_append_keeps_boundaries(log, bytes, 0, log.len() as int);
    lemma_record_framed(log, record, Seq::<u8>::empty());
    if storable_record(record) {
        lemma_record_read_back(log, record, Seq::<u8>::empty());
    }
    assert(log + bytes + Seq::<u8>::empty() =~= after);
    lemma_boundary_step(after, 0, log.len() as int);
}

} // verus!
