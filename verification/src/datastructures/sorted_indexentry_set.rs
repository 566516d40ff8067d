//! The index: entries kept in ascending order of their keys, no key twice.
//!
//! Keys are ordered by their UTF-8 bytes. On disk the index is its entries'
//! 40-byte records one after another, in that order.

use vstd::prelude::*;
use vstd::std_specs::cmp::PartialEqSpecImpl;
use crate::entry::index_entry::{
    index_record_bytes, index_record_of, lemma_index_record_read_back, lemma_index_record_size,
    lemma_reloaded_key_field, lemma_storable_key_read_back, readable_key, reloaded_key,
    storable_key, IndexEntry, IndexRecord, INDEX_RECORD_SIZE,
};
use crate::entry::vault_entry::append_bytes;
use crate::entry::BinarySerialization;
use crate::errs::VaultError;
use crate::text::{
    lemma_lex_lt_asymmetric, lemma_lex_lt_irreflexive, lemma_lex_lt_total,
    lemma_lex_lt_transitive, lemma_utf8_injective, same_text, text_lt, text_precedes,
};
use vstd::utf8::encode_utf8;

verus! {

/// The sorted index.
///
/// `size` is the number of entries in `data`. The fields are open to
/// callers; an index that `new` or `from_binary` made, and that only the
/// methods below changed, is well formed.
#[derive(Debug)]
pub struct IndexSet {
    pub size: usize,
    pub data: Vec<IndexEntry>,
}

impl View for IndexSet {
    type V = Seq<IndexRecord>;

    open spec fn view(&self) -> Seq<IndexRecord> {
        self.data@.map_values(|e: IndexEntry| e@)
    }
}

/// Keys strictly ascending: every record's key comes before the key of each
/// record after it. A sorted sequence holds no key twice.
pub open spec fn sorted(s: Seq<IndexRecord>) -> bool {
    forall|i: int, j: int| 0 <= i < j < s.len() ==> text_lt(#[trigger] s[i].key, #[trigger] s[j].key)
}

/// Some record has the key.
pub open spec fn has_key(s: Seq<IndexRecord>, key: Seq<char>) -> bool {
    exists|i: int| 0 <= i < s.len() && #[trigger] s[i].key == key
}

/// The position of the first record with the key, or the length of the
/// sequence where there is none.
pub open spec fn position_of(s: Seq<IndexRecord>, key: Seq<char>) -> int
    decreases s.len(),
{
    if s.len() == 0 {
        0
    } else if s[0].key == key {
        0
    } else {
        1 + position_of(s.drop_first(), key)
    }
}

/// What `position_of` finds: a position in range holds the key, and no
/// earlier position does.
pub proof fn lemma_position_of(s: Seq<IndexRecord>, key: Seq<char>)
    ensures
        0 <= position_of(s, key) <= s.len(),
        position_of(s, key) < s.len() <==> has_key(s, key),
        position_of(s, key) < s.len() ==> s[position_of(s, key)].key == key,
        forall|k: int| 0 <= k < position_of(s, key) ==> (#[trigger] s[k]).key != key,
    decreases s.len(),
{
    if s.len() == 0 {
    } else if s[0].key == key {
    } else {
        let rest = s.drop_first();
        lemma_position_of(rest, key);
        let p = position_of(rest, key);
        assert forall|k: int| 0 <= k < 1 + p implies (#[trigger] s[k]).key != key by {
            if k > 0 {
                assert(s[k] == rest[k - 1]);
            }
        }
        if p < rest.len() {
            assert(s[p + 1] == rest[p]);
        }
        if has_key(s, key) {
            let i = choose|i: int| 0 <= i < s.len() && #[trigger] s[i].key == key;
            assert(rest[i - 1].key == key);
        }
    }
}

/// Where a new key goes: the position of the first record whose key comes
/// after it, or the length of the sequence where there is none.
pub open spec fn insertion_point(s: Seq<IndexRecord>, key: Seq<char>) -> int
    decreases s.len(),
{
    if s.len() == 0 {
        0
    } else if text_lt(key, s[0].key) {
        0
    } else {
        1 + insertion_point(s.drop_first(), key)
    }
}

/// The index after an attempt to add a record: unchanged where the key is
/// present, else with the record at its insertion point.
pub open spec fn inserted(s: Seq<IndexRecord>, record: IndexRecord) -> Seq<IndexRecord> {
    if has_key(s, record.key) {
        s
    } else {
        s.insert(insertion_point(s, record.key), record)
    }
}

/// Of two different keys one comes before the other.
pub proof fn lemma_text_lt_total(a: Seq<char>, b: Seq<char>)
    ensures
        text_lt(a, b) || text_lt(b, a) || a == b,
{
    lemma_lex_lt_total(encode_utf8(a), encode_utf8(b));
    if encode_utf8(a) == encode_utf8(b) {
        lemma_utf8_injective(a, b);
    }
}

/// What `insertion_point` finds: no record before it has a greater key, and
/// the record at it, if any, has one.
pub proof fn lemma_insertion_point(s: Seq<IndexRecord>, key: Seq<char>)
    ensures
        0 <= insertion_point(s, key) <= s.len(),
        forall|k: int| 0 <= k < insertion_point(s, key) ==> !text_lt(key, (#[trigger] s[k]).key),
        insertion_point(s, key) < s.len() ==> text_lt(key, s[insertion_point(s, key)].key),
    decreases s.len(),
{
    if s.len() == 0 {
    } else if text_lt(key, s[0].key) {
    } else {
        let rest = s.drop_first();
        lemma_insertion_point(rest, key);
        let p = insertion_point(rest, key);
        assert forall|k: int| 0 <= k < 1 + p implies !text_lt(key, (#[trigger] s[k]).key) by {
            if k > 0 {
                assert(s[k] == rest[k - 1]);
            }
        }
        if p < rest.len() {
            assert(s[p + 1] == rest[p]);
        }
    }
}

/// Adding a record to a sorted index leaves it sorted.
pub proof fn lemma_inserted_sorted(s: Seq<IndexRecord>, record: IndexRecord)
    requires
        sorted(s),
    ensures
        sorted(inserted(s, record)),
{
    if !has_key(s, record.key) {
        let key = record.key;
        let p = insertion_point(s, key);
        let t = s.insert(p, record);
        lemma_insertion_point(s, key);
        assert forall|i: int, j: int| 0 <= i < j < t.len() implies text_lt(
            #[trigger] t[i].key,
            #[trigger] t[j].key,
        ) by {
            if j < p {
                assert(t[i] == s[i] && t[j] == s[j]);
            } else if j == p {
                assert(t[i] == s[i]);
                assert(!text_lt(key, s[i].key));
                assert(s[i].key != key);
                lemma_text_lt_total(s[i].key, key);
            } else if i == p {
                assert(t[j] == s[j - 1]);
                if j - 1 > p {
                    assert(text_lt(s[p].key, s[j - 1].key));
                    lemma_lex_lt_transitive(
                        encode_utf8(key),
                        encode_utf8(s[p].key),
                        encode_utf8(s[j - 1].key),
                    );
                }
            } else if i < p {
                assert(t[i] == s[i] && t[j] == s[j - 1]);
            } else {
                assert(t[i] == s[i - 1] && t[j] == s[j - 1]);
            }
        }
    }
}

/// The offset of a record after `n` bytes were taken out of the log at
/// `removed`: records that stood later move down by `n`.
pub open spec fn shifted(offset: u64, removed: u64, n: u64) -> u64 {
    if offset > removed {
        (offset - n) as u64
    } else {
        offset
    }
}

/// Every record that stands after the one with the key stands at `n` or
/// later, so that it can move down by `n`.
pub open spec fn shift_fits(s: Seq<IndexRecord>, key: Seq<char>, n: u64) -> bool {
    forall|i: int|
        0 <= i < s.len() && (#[trigger] s[i]).offset > s[position_of(s, key)].offset
            ==> s[i].offset >= n
}

/// The index after the record with the key is removed together with `n`
/// bytes of the log: that record is gone, and the others keep their order
/// and have their offsets shifted.
pub open spec fn without(s: Seq<IndexRecord>, key: Seq<char>, n: u64) -> Seq<IndexRecord> {
    let p = position_of(s, key);
    if p >= s.len() {
        s
    } else {
        s.remove(p).map_values(
            |r: IndexRecord| IndexRecord { key: r.key, offset: shifted(r.offset, s[p].offset, n) },
        )
    }
}

/// Taking a record out of a sorted index, and changing offsets, leaves it
/// sorted.
pub proof fn lemma_without_sorted(s: Seq<IndexRecord>, key: Seq<char>, n: u64)
    requires
        sorted(s),
    ensures
        sorted(without(s, key, n)),
{
    let p = position_of(s, key);
    lemma_position_of(s, key);
    if p < s.len() {
        let t = without(s, key, n);
        assert forall|i: int, j: int| 0 <= i < j < t.len() implies text_lt(
            #[trigger] t[i].key,
            #[trigger] t[j].key,
        ) by {
            let si = if i < p { i } else { i + 1 };
            let sj = if j < p { j } else { j + 1 };
            assert(t[i].key == s[si].key);
            assert(t[j].key == s[sj].key);
        }
    }
}

/// The bytes of an index: the 40-byte records of its entries, in order.
pub open spec fn index_bytes(s: Seq<IndexRecord>) -> Seq<u8>
    decreases s.len(),
{
    if s.len() == 0 {
        Seq::empty()
    } else {
        index_bytes(s.drop_last()) + index_record_bytes(s.last())
    }
}

/// The records that stored bytes hold: one for each full run of 40 bytes.
pub open spec fn records_of(data: Seq<u8>) -> Seq<IndexRecord> {
    Seq::new(
        (data.len() / 40) as nat,
        |i: int| index_record_of(data.subrange(40 * i, 40 * i + 40))->0,
    )
}

/// The index that results from adding records one by one to an empty
/// index: sorted, and with the first record of each key.
pub open spec fn index_of(records: Seq<IndexRecord>) -> Seq<IndexRecord>
    decreases records.len(),
{
    if records.len() == 0 {
        Seq::empty()
    } else {
        inserted(index_of(records.drop_last()), records.last())
    }
}

impl IndexSet {
    /// The index is well formed when `size` counts its entries and the keys
    /// are strictly ascending.
    pub open spec fn well_formed(&self) -> bool {
        self.size == self.data@.len() && sorted(self@)
    }

    /// Decides whether the index is well formed.
    pub fn is_well_formed(&self) -> (r: bool)
        ensures
            r == self.well_formed(),
    {
        if self.size != self.data.len() {
            return false;
        }
        let mut i: usize = 1;
        while i < self.data.len()
            invariant
                1 <= i,
                self.size == self.data@.len(),
                forall|a: int, b: int|
                    0 <= a < b < i && b < self@.len() ==> text_lt(
                        #[trigger] self@[a].key,
                        #[trigger] self@[b].key,
                    ),
            decreases self.data@.len() - i,
        {
            if !text_precedes(self.data[i - 1].key.as_str(), self.data[i].key.as_str()) {
                proof {
                    assert(!text_lt(self@[i - 1].key, self@[i as int].key));
                }
                return false;
            }
            proof {
                assert(text_lt(self@[i - 1].key, self@[i as int].key));
                assert forall|a: int, b: int| 0 <= a < b < i + 1 && b < self@.len() implies text_lt(
                    #[trigger] self@[a].key,
                    #[trigger] self@[b].key,
                ) by {
                    if b == i && a < i - 1 {
                        assert(text_lt(self@[a].key, self@[i - 1].key));
                        lemma_lex_lt_transitive(
                            encode_utf8(self@[a].key),
                            encode_utf8(self@[i - 1].key),
                            encode_utf8(self@[b].key),
                        );
                    }
                }
            }
            i = i + 1;
        }
        true
    }

    /// An empty index.
    pub fn new() -> (set: IndexSet)
        ensures
            set@ == Seq::<IndexRecord>::empty(),
            set.well_formed(),
    {
        let set = IndexSet { size: 0, data: Vec::new() };
        proof {
            assert(set@ =~= Seq::<IndexRecord>::empty());
        }
        set
    }

    /// The position of the first entry with the key.
    pub fn find_key(&self, key: &str) -> (r: Option<usize>)
        ensures
            match r {
                Some(i) => has_key(self@, key@) && i == position_of(self@, key@),
                None => !has_key(self@, key@),
            },
    {
        let mut i: usize = 0;
        while i < self.data.len()
            invariant
                i <= self.data@.len(),
                forall|k: int| 0 <= k < i ==> (#[trigger] self@[k]).key != key@,
            decreases self.data@.len() - i,
        {
            if same_text(self.data[i].key.as_str(), key) {
                proof {
                    lemma_position_of(self@, key@);
                    assert(self@[i as int].key == key@);
                }
                return Some(i);
            }
            i = i + 1;
        }
        None
    }

    /// The first entry with the key, and its position.
    pub fn find(&self, key: &str) -> (r: Option<(usize, &IndexEntry)>)
        ensures
            match r {
                Some((i, entry)) => has_key(self@, key@) && i == position_of(self@, key@)
                    && entry@ == self@[i as int],
                None => !has_key(self@, key@),
            },
    {
        match self.find_key(key) {
            Some(i) => {
                proof {
                    lemma_position_of(self@, key@);
                }
                Some((i, &self.data[i]))
            },
            None => None,
        }
    }

    /// The first entry with the key.
    pub fn find_by_key(&self, key: &str) -> (r: Option<&IndexEntry>)
        ensures
            match r {
                Some(entry) => has_key(self@, key@) && entry@ == self@[position_of(self@, key@)],
                None => !has_key(self@, key@),
            },
    {
        match self.find(key) {
            Some((_, entry)) => Some(entry),
            None => None,
        }
    }

    /// Whether some entry has the key.
    pub fn has(&self, key: &str) -> (r: bool)
        ensures
            r == has_key(self@, key@),
    {
        self.find_key(key).is_some()
    }

    /// Whether some entry has the key.
    pub fn has_key(&self, key: &str) -> (r: bool)
        ensures
            r == has_key(self@, key@),
    {
        self.has(key)
    }

    /// Adds an entry, keeping the keys in ascending order. Returns `false`,
    /// and changes nothing, where the key is already present.
    pub fn add(&mut self, item: &IndexEntry) -> (r: bool)
        requires
            old(self).well_formed(),
        ensures
            final(self).well_formed(),
            r == !has_key(old(self)@, item.key@),
            final(self)@ == inserted(old(self)@, item@),
    {
        if self.has(item.key.as_str()) {
            return false;
        }
        let mut i: usize = 0;
        proof {
            assert(self@.skip(0) =~= self@);
        }
        while i < self.data.len() && !text_precedes(item.key.as_str(), self.data[i].key.as_str())
            invariant
                i <= self.data@.len(),
                insertion_point(self@, item.key@) == i + insertion_point(
                    self@.skip(i as int),
                    item.key@,
                ),
            decreases self.data@.len() - i,
        {
            proof {
                assert(self@.skip(i as int)[0] == self@[i as int]);
                assert(self@.skip(i as int).drop_first() =~= self@.skip(i + 1));
            }
            i = i + 1;
        }
        proof {
            if i < self.data@.len() {
                assert(self@.skip(i as int)[0] == self@[i as int]);
            }
            lemma_inserted_sorted(self@, item@);
        }
        let ghost before = self@;
        self.data.insert(i, item.duplicate());
        self.size = self.data.len();
        proof {
            assert(self@ =~= before.insert(i as int, item@));
        }
        true
    }

    /// Removes the entry with the key and returns its position, leaving the
    /// offsets of the other entries as they are.
    pub fn remove_key(&mut self, key: &str) -> (r: Option<usize>)
        requires
            old(self).well_formed(),
        ensures
            final(self).well_formed(),
            match r {
                Some(i) => has_key(old(self)@, key@) && i == position_of(old(self)@, key@)
                    && final(self)@ == old(self)@.remove(i as int),
                None => !has_key(old(self)@, key@) && final(self)@ == old(self)@,
            },
    {
        proof {
            lemma_position_of(self@, key@);
        }
        match self.find_key(key) {
            Some(i) => {
                let ghost before = self@;
                let _ = self.data.remove(i);
                self.size = self.data.len();
                proof {
                    assert(self@ =~= before.remove(i as int));
                    assert forall|a: int, b: int| 0 <= a < b < self@.len() implies text_lt(
                        #[trigger] self@[a].key,
                        #[trigger] self@[b].key,
                    ) by {
                        let sa = if a < i { a } else { a + 1 };
                        let sb = if b < i { b } else { b + 1 };
                        assert(self@[a] == before[sa]);
                        assert(self@[b] == before[sb]);
                    }
                }
                Some(i)
            },
            None => None,
        }
    }

    /// Whether `remove` may be called with this key and size: the key is
    /// absent, or every entry that stands after the one to remove can move
    /// down by `size`.
    pub fn can_remove(&self, key: &str, size: u64) -> (r: bool)
        ensures
            r == (has_key(self@, key@) ==> shift_fits(self@, key@, size)),
    {
        proof {
            lemma_position_of(self@, key@);
        }
        let removed: u64 = match self.find(key) {
            Some((_, entry)) => entry.value,
            None => {
                return true;
            },
        };
        let mut i: usize = 0;
        while i < self.data.len()
            invariant
                i <= self.data@.len(),
                has_key(self@, key@),
                0 <= position_of(self@, key@) < self@.len(),
                removed == self@[position_of(self@, key@)].offset,
                forall|k: int|
                    0 <= k < i && (#[trigger] self@[k]).offset > removed ==> self@[k].offset
                        >= size,
            decreases self.data@.len() - i,
        {
            if self.data[i].value > removed && self.data[i].value < size {
                proof {
                    assert(self@[i as int].offset > removed);
                    assert(self@[i as int].offset < size);
                }
                return false;
            }
            proof {
                assert(self@[i as int].offset == self.data@[i as int].value);
            }
            i = i + 1;
        }
        true
    }

    /// Removes the entry with the key, for a record of `size` bytes that
    /// leaves the log with it: every entry whose offset is greater than the
    /// removed entry's has its offset lowered by `size`. Returns the removed
    /// entry, or `None`, changing nothing, where the key is absent.
    pub fn remove(&mut self, key: &str, size: u64) -> (r: Option<IndexEntry>)
        requires
            old(self).well_formed(),
            has_key(old(self)@, key@) ==> shift_fits(old(self)@, key@, size),
        ensures
            final(self).well_formed(),
            final(self)@ == without(old(self)@, key@, size),
            match r {
                Some(entry) => has_key(old(self)@, key@) && entry@ == old(self)@[position_of(
                    old(self)@,
                    key@,
                )],
                None => !has_key(old(self)@, key@),
            },
    {
        proof {
            lemma_position_of(self@, key@);
            lemma_without_sorted(self@, key@, size);
        }
        let (index, entry) = match self.find(key) {
            Some((index, entry)) => (index, entry.duplicate()),
            None => {
                return None;
            },
        };
        let ghost before = self@;
        let mut i: usize = 0;
        while i < self.data.len()
            invariant
                i <= self.data@.len(),
                self@.len() == before.len(),
                self.size == self.data@.len(),
                index < before.len(),
                entry@ == before[index as int],
                index == position_of(before, key@),
                shift_fits(before, key@, size),
                forall|k: int|
                    0 <= k < i ==> #[trigger] self@[k] == (IndexRecord {
                        key: before[k].key,
                        offset: shifted(before[k].offset, entry.value, size),
                    }),
                forall|k: int| i <= k < before.len() ==> #[trigger] self@[k] == before[k],
            decreases self.data@.len() - i,
        {
            let ghost current = self@;
            proof {
                assert(current[i as int] == before[i as int]);
                assert(current[i as int].offset == self.data@[i as int].value);
                assert(current[i as int].key == self.data@[i as int].key@);
            }
            if self.data[i].value > entry.value {
                proof {
                    assert(before[i as int].offset > before[position_of(before, key@)].offset);
                }
                let lowered = IndexEntry {
                    key: self.data[i].key.clone(),
                    value: self.data[i].value - size,
                };
                self.data.set(i, lowered);
            }
            proof {
                assert forall|k: int| 0 <= k < self@.len() && k != i implies #[trigger] self@[k]
                    == current[k] by {}
                assert(self@[i as int] == (IndexRecord {
                    key: before[i as int].key,
                    offset: shifted(before[i as int].offset, entry.value, size),
                }));
            }
            i = i + 1;
        }
        let ghost shifted_all = self@;
        let _ = self.data.remove(index);
        self.size = self.data.len();
        proof {
            assert(self@ =~= shifted_all.remove(index as int));
            assert(self@ =~= without(before, key@, size));
        }
        Some(entry)
    }

    /// Builds an index from stored bytes by adding their records one by
    /// one, so that the result is sorted and holds no key twice whatever
    /// the order of the records in `data`.
    ///
    /// Fails when the length of `data` is not a multiple of 40.
    pub fn from_binary(data: &[u8]) -> (r: Result<IndexSet, VaultError>)
        ensures
            match r {
                Ok(set) => {
                    &&& data@.len() % 40 == 0
                    &&& set.well_formed()
                    &&& set@ == index_of(records_of(data@))
                },
                Err(e) => data@.len() % 40 != 0 && e == VaultError::Deserialization,
            },
    {
        if data.len() % INDEX_RECORD_SIZE != 0 {
            return Err(VaultError::Deserialization);
        }
        let count: usize = data.len() / INDEX_RECORD_SIZE;
        assert(data@.len() <= usize::MAX);
        let mut set = IndexSet::new();
        let mut j: usize = 0;
        let mut at: usize = 0;
        let ghost records = records_of(data@);
        proof {
            assert(records.take(0) =~= Seq::<IndexRecord>::empty());
        }
        while j < count
            invariant
                j <= count,
                at == 40 * j,
                data@.len() == 40 * count,
                data@.len() <= usize::MAX,
                count == data@.len() / 40,
                data@.len() % 40 == 0,
                records == records_of(data@),
                set.well_formed(),
                set@ == index_of(records.take(j as int)),
            decreases count - j,
        {
            let chunk = vstd::slice::slice_subrange(data, at, at + INDEX_RECORD_SIZE);
            let entry = match IndexEntry::deserialize(chunk) {
                Ok(entry) => entry,
                Err(e) => {
                    return Err(e);
                },
            };
            proof {
                assert(records[j as int] == entry@);
                assert(records.take(j + 1).drop_last() =~= records.take(j as int));
                assert(records.take(j + 1).last() == records[j as int]);
            }
            let _ = set.add(&entry);
            j = j + 1;
            at = at + INDEX_RECORD_SIZE;
        }
        proof {
            assert(records.take(j as int) =~= records);
        }
        Ok(set)
    }

    /// Whether the index holds no entry.
    pub fn is_empty(&self) -> (r: bool)
        ensures
            r == (self@.len() == 0),
    {
        self.data.len() == 0
    }
}

impl PartialEq for IndexSet {
    fn eq(&self, other: &Self) -> (r: bool) {
        if self.size != other.size || self.data.len() != other.data.len() {
            proof {
                assert(self@.len() == self.data@.len());
                assert(other@.len() == other.data@.len());
            }
            return false;
        }
        let mut i: usize = 0;
        while i < self.data.len()
            invariant
                i <= self.data@.len(),
                self.data@.len() == other.data@.len(),
                forall|k: int| 0 <= k < i ==> #[trigger] self@[k] == other@[k],
            decreases self.data@.len() - i,
        {
            if !(self.data[i] == other.data[i]) {
                proof {
                    assert(self@[i as int] != other@[i as int]);
                }
                return false;
            }
            proof {
                assert(self@[i as int] == other@[i as int]);
            }
            i = i + 1;
        }
        proof {
            assert(self@ =~= other@);
        }
        true
    }
}

impl PartialEqSpecImpl for IndexSet {
    open spec fn obeys_eq_spec() -> bool {
        true
    }

    open spec fn eq_spec(&self, other: &Self) -> bool {
        self.size == other.size && self@ == other@
    }
}

impl BinarySerialization for IndexSet {
    open spec fn encoding(&self) -> Seq<u8> {
        index_bytes(self@)
    }

    open spec fn decodable(data: Seq<u8>) -> bool {
        data.len() % 40 == 0
    }

    open spec fn decoded(data: Seq<u8>, value: &Self) -> bool {
        value.well_formed() && value@ == index_of(records_of(data))
    }

    fn serialize(&self) -> (out: Vec<u8>) {
        let mut out: Vec<u8> = Vec::new();
        let mut i: usize = 0;
        proof {
            assert(self@.take(0) =~= Seq::<IndexRecord>::empty());
        }
        while i < self.data.len()
            invariant
                i <= self.data@.len(),
                out@ == index_bytes(self@.take(i as int)),
            decreases self.data@.len() - i,
        {
            let record = self.data[i].serialize();
            append_bytes(&mut out, record.as_slice());
            proof {
                assert(self@.take(i + 1).drop_last() =~= self@.take(i as int));
                assert(self@.take(i + 1).last() == self.data@[i as int]@);
            }
            i = i + 1;
        }
        proof {
            assert(self@.take(i as int) =~= self@);
        }
        out
    }

    fn deserialize(data: &[u8]) -> (r: Result<IndexSet, VaultError>) {
        IndexSet::from_binary(data)
    }
}

/// However records are added, the keys of the index are strictly ascending.
pub proof fn lemma_index_of_sorted(records: Seq<IndexRecord>)
    ensures
        sorted(index_of(records)),
    decreases records.len(),
{
    if records.len() > 0 {
        lemma_index_of_sorted(records.drop_last());
        lemma_inserted_sorted(index_of(records.drop_last()), records.last());
    }
}

/// Adding the records of a sorted index in their order gives that index.
pub proof fn lemma_index_of_sorted_records(s: Seq<IndexRecord>)
    requires
        sorted(s),
    ensures
        index_of(s) == s,
    decreases s.len(),
{
    if s.len() > 0 {
        let front = s.drop_last();
        let last = s.last();
        assert forall|i: int, j: int| 0 <= i < j < front.len() implies text_lt(
            #[trigger] front[i].key,
            #[trigger] front[j].key,
        ) by {
            assert(front[i] == s[i] && front[j] == s[j]);
        }
        lemma_index_of_sorted_records(front);
        lemma_insertion_point(front, last.key);
        let p = insertion_point(front, last.key);
        assert forall|k: int| 0 <= k < front.len() implies text_lt(
            (#[trigger] front[k]).key,
            last.key,
        ) by {
            assert(front[k] == s[k]);
            assert(last == s[s.len() - 1]);
        }
        if has_key(front, last.key) {
            let i = choose|i: int| 0 <= i < front.len() && #[trigger] front[i].key == last.key;
            lemma_lex_lt_irreflexive(encode_utf8(last.key));
        }
        if p < front.len() {
            lemma_lex_lt_asymmetric(encode_utf8(front[p].key), encode_utf8(last.key));
        }
        assert(front.insert(front.len() as int, last) =~= s);
    }
}

/// The bytes of an index are 40 for each record.
pub proof fn lemma_index_bytes_len(s: Seq<IndexRecord>)
    ensures
        index_bytes(s).len() == 40 * s.len(),
    decreases s.len(),
{
    if s.len() > 0 {
        lemma_index_bytes_len(s.drop_last());
        lemma_index_record_size(s.last());
    }
}

/// Every key of the index is one that the key field holds in full.
pub open spec fn storable_keys(s: Seq<IndexRecord>) -> bool {
    forall|i: int| 0 <= i < s.len() ==> storable_key((#[trigger] s[i]).key)
}

/// Every key of the index is one whose key field holds valid UTF-8.
pub open spec fn readable_keys(s: Seq<IndexRecord>) -> bool {
    forall|i: int| 0 <= i < s.len() ==> readable_key((#[trigger] s[i]).key)
}

/// The records that are read back from the stored bytes of an index: each
/// with the key that is read back from its key field.
pub open spec fn reloaded(s: Seq<IndexRecord>) -> Seq<IndexRecord> {
    s.map_values(|r: IndexRecord| IndexRecord { key: reloaded_key(r.key), offset: r.offset })
}

/// The stored bytes of an index hold the reloaded records of the index.
pub proof fn lemma_records_of_index_bytes(s: Seq<IndexRecord>)
    ensures
        records_of(index_bytes(s)) == reloaded(s),
    decreases s.len(),
{
    lemma_index_bytes_len(s);
    if s.len() == 0 {
        assert(records_of(index_bytes(s)) =~= reloaded(s));
    } else {
        let front = s.drop_last();
        let last = s.last();
        let head = index_bytes(front);
        let tail = index_record_bytes(last);
        let data = index_bytes(s);
        lemma_index_bytes_len(front);
        lemma_index_record_size(last);
        lemma_records_of_index_bytes(front);
        let got = records_of(data);
        assert(data == head + tail);
        assert(data.len() == 40 * s.len());
        assert(got.len() == s.len());
        lemma_index_record_read_back(last);
        assert forall|i: int| 0 <= i < s.len() implies got[i] == reloaded(s)[i] by {
            let chunk = data.subrange(40 * i, 40 * i + 40);
            assert(got[i] == index_record_of(chunk)->0);
            if i < front.len() {
                assert(chunk =~= head.subrange(40 * i, 40 * i + 40));
                assert(records_of(head)[i] == reloaded(front)[i]);
                assert(front[i] == s[i]);
            } else {
                assert(chunk =~= tail);
                assert(s[i] == last);
            }
        }
        assert(got =~= reloaded(s));
    }
}

/// An index with readable keys and its reloaded records have the same
/// stored bytes.
pub proof fn lemma_reloaded_index_bytes(s: Seq<IndexRecord>)
    requires
        readable_keys(s),
    ensures
        index_bytes(reloaded(s)) == index_bytes(s),
    decreases s.len(),
{
    if s.len() > 0 {
        let front = s.drop_last();
        assert forall|i: int| 0 <= i < front.len() implies readable_key(
            (#[trigger] front[i]).key,
        ) by {
            assert(front[i] == s[i]);
        }
        lemma_reloaded_index_bytes(front);
        assert(reloaded(s).drop_last() =~= reloaded(front));
        lemma_reloaded_key_field(s.last().key);
    }
}

/// Reading back the stored bytes of a sorted index gives that index, where
/// every key is one that the key field holds in full.
pub proof fn lemma_reload_gives_index(s: Seq<IndexRecord>)
    requires
        sorted(s),
        storable_keys(s),
    ensures
        index_of(records_of(index_bytes(s))) == s,
{
    lemma_records_of_index_bytes(s);
    assert forall|i: int| 0 <= i < s.len() implies reloaded(s)[i] == s[i] by {
        lemma_storable_key_read_back(s[i].key);
    }
    assert(reloaded(s) =~= s);
    lemma_index_of_sorted_records(s);
}

/// Writing an index out, reading it back and writing it out again gives
/// the same bytes as the first writing. This holds for every index whose
/// key fields hold valid UTF-8 and whose keys, as they are read back, are
/// still strictly ascending.
pub proof fn lemma_reload_idempotent(s: Seq<IndexRecord>)
    requires
        readable_keys(s),
        sorted(reloaded(s)),
    ensures
        index_bytes(index_of(records_of(index_bytes(s)))) == index_bytes(s),
{
    lemma_records_of_index_bytes(s);
    lemma_index_of_sorted_records(reloaded(s));
    lemma_reloaded_index_bytes(s);
}

} // verus!
