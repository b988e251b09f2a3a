//! A data record: a bounded sequence of key-value entries with unique
//! keys, and the insert-or-replace, remove and numeric-merge operations
//! the repositories perform on it.

use vstd::prelude::*;

use crate::codec;
use crate::types::DataEntry;
use crate::types::Error;
use crate::types::MAX_BYTES;
use crate::types::MAX_RECORD_ENTRIES;
use crate::types::NUMERIC_WIDTH;

verus! {

/// Mathematical shape of one entry: (key bytes, value bytes).
pub type EntryModel = (Seq<u8>, Seq<u8>);

/// Some entry of the sequence carries the key.
pub open spec fn has_key(s: Seq<EntryModel>, k: Seq<u8>) -> bool {
    exists|i: int| 0 <= i < s.len() && (#[trigger] s[i]).0 == k
}

/// The index of the entry carrying the key; meaningful when the key is
/// present and the keys are unique.
pub open spec fn key_index(s: Seq<EntryModel>, k: Seq<u8>) -> int {
    choose|i: int| 0 <= i < s.len() && (#[trigger] s[i]).0 == k
}

/// No two entries share a key.
pub open spec fn unique_keys(s: Seq<EntryModel>) -> bool {
    forall|i: int, j: int|
        0 <= i < j < s.len() ==> (#[trigger] s[i]).0 != (#[trigger] s[j]).0
}

/// Every key and value fits its byte bound.
pub open spec fn entries_bounded(s: Seq<EntryModel>) -> bool {
    forall|i: int|
        0 <= i < s.len() ==> (#[trigger] s[i]).0.len() <= MAX_BYTES && s[i].1.len() <= MAX_BYTES
}

/// A record model is well formed: it fits the entry bound, keys are
/// unique, and every key and value fits the byte bound.
pub open spec fn record_model_wf(s: Seq<EntryModel>) -> bool {
    &&& s.len() <= MAX_RECORD_ENTRIES
    &&& unique_keys(s)
    &&& entries_bounded(s)
}

/// Whether an insert-or-replace of the entry fits the record's capacity:
/// a replacement always does, an append needs a free slot.
pub open spec fn update_fits(s: Seq<EntryModel>, e: EntryModel) -> bool {
    has_key(s, e.0) || s.len() < MAX_RECORD_ENTRIES
}

/// The record after an insert-or-replace: the value of a present key is
/// replaced, an absent entry is appended.
pub open spec fn record_updated(s: Seq<EntryModel>, e: EntryModel) -> Seq<EntryModel> {
    if has_key(s, e.0) {
        s.update(key_index(s, e.0), e)
    } else {
        s.push(e)
    }
}

/// The record after removing the keyed entry: the last entry takes its
/// place, so order is not preserved.
pub open spec fn record_removed(s: Seq<EntryModel>, k: Seq<u8>) -> Seq<EntryModel> {
    s.update(key_index(s, k), s.last()).drop_last()
}

/// Whether both operands of a numeric merge have the demanded width.
pub open spec fn merge_sized(s: Seq<EntryModel>, e: EntryModel) -> bool {
    s[key_index(s, e.0)].1.len() == NUMERIC_WIDTH && e.1.len() == NUMERIC_WIDTH
}

/// The record after a numeric merge: the stored value becomes the
/// little-endian encoding of the two operands' wrapping sum.
pub open spec fn record_merged(s: Seq<EntryModel>, e: EntryModel) -> Seq<EntryModel> {
    let i = key_index(s, e.0);
    s.update(i, (s[i].0, codec::le_of_word(codec::merged_word(
        codec::word_of_le(s[i].1),
        codec::word_of_le(e.1),
    ))))
}

/// When the key is present, its index is in bounds and carries the
/// key.
pub proof fn lemma_key_index_valid(s: Seq<EntryModel>, k: Seq<u8>)
    requires
        has_key(s, k),
    ensures
        0 <= key_index(s, k) < s.len(),
        s[key_index(s, k)].0 == k,
{
    let q = key_index(s, k);
    assert(0 <= q < s.len() && s[q].0 == k);
}

/// Under unique keys, any index carrying the key is the keyed index.
pub proof fn lemma_key_index_agrees(s: Seq<EntryModel>, k: Seq<u8>, i: int)
    requires
        unique_keys(s),
        0 <= i < s.len(),
        s[i].0 == k,
    ensures
        has_key(s, k),
        key_index(s, k) == i,
{
    assert(has_key(s, k));
    let j = key_index(s, k);
    assert(0 <= j < s.len() && s[j].0 == k);
}

/// An insert-or-replace keeps keys unique, makes the entry's key
/// present, and binds it to exactly the entry.
pub proof fn lemma_updated_unique(s: Seq<EntryModel>, e: EntryModel)
    requires
        unique_keys(s),
    ensures
        unique_keys(record_updated(s, e)),
        has_key(record_updated(s, e), e.0),
        record_updated(s, e)[key_index(record_updated(s, e), e.0)] == e,
{
    let r = record_updated(s, e);
    if has_key(s, e.0) {
        lemma_key_index_valid(s, e.0);
        let i = key_index(s, e.0);
        assert(r[i] == e);
        assert(unique_keys(r));
        lemma_key_index_agrees(r, e.0, i);
    } else {
        let n = s.len() as int;
        assert(r[n] == e);
        assert forall|i: int, j: int|
            0 <= i < j < r.len() implies (#[trigger] r[i]).0 != (#[trigger] r[j]).0 by {
            if j == n {
                assert(r[i] == s[i]);
                if r[i].0 == e.0 {
                    assert(has_key(s, e.0));
                }
            }
        }
        lemma_key_index_agrees(r, e.0, n);
    }
}

/// Writing the same entry twice changes nothing after the first write.
pub proof fn lemma_record_update_idempotent(s: Seq<EntryModel>, e: EntryModel)
    requires
        unique_keys(s),
    ensures
        record_updated(record_updated(s, e), e) == record_updated(s, e),
{
    let r = record_updated(s, e);
    lemma_updated_unique(s, e);
    let j = key_index(r, e.0);
    lemma_key_index_valid(r, e.0);
    assert(record_updated(r, e) =~= r);
}

/// Merging a 4-byte value with some delta and then with the delta's
/// additive inverse modulo 2^32 restores the record.
pub proof fn lemma_record_merge_round_trip(s: Seq<EntryModel>, k: Seq<u8>, a: u32, b: u32)
    requires
        unique_keys(s),
        has_key(s, k),
        s[key_index(s, k)].1.len() == NUMERIC_WIDTH,
        (a + b) % 0x1_0000_0000 == 0,
    ensures
        record_merged(record_merged(s, (k, codec::le_of_word(a))), (k, codec::le_of_word(b))) == s,
{
    lemma_key_index_valid(s, k);
    let i = key_index(s, k);
    let w0 = codec::word_of_le(s[i].1);
    codec::lemma_word_le_round_trip(a);
    codec::lemma_word_le_round_trip(b);
    let r1 = record_merged(s, (k, codec::le_of_word(a)));
    assert(r1 == s.update(i, (s[i].0, codec::le_of_word(codec::merged_word(w0, a)))));
    assert(unique_keys(r1));
    lemma_key_index_agrees(r1, k, i);
    assert(codec::word_of_le(r1[i].1) == codec::merged_word(w0, a)) by {
        codec::lemma_word_le_round_trip(codec::merged_word(w0, a));
    }
    let r2 = record_merged(r1, (k, codec::le_of_word(b)));
    assert(codec::merged_word(codec::merged_word(w0, a), b) == w0) by {
        codec::lemma_merge_cancel(w0, a, b);
    }
    assert(codec::le_of_word(w0) == s[i].1) by {
        codec::lemma_le_word_round_trip(s[i].1);
    }
    assert(r2 =~= s);
}

/// An ordered sequence of entries with unique keys, bounded in size.
#[derive(Debug)]
pub struct DataRecord {
    pub entries: Vec<DataEntry>,
}

impl View for DataRecord {
    type V = Seq<EntryModel>;

    open spec fn view(&self) -> Seq<EntryModel> {
        self.entries@.map_values(|e: DataEntry| e@)
    }
}

impl DataRecord {
    /// Size bounds hold and keys are unique.
    pub open spec fn wf(self) -> bool {
        record_model_wf(self@)
    }

    /// An empty record.
    pub fn new() -> (r: Self)
        ensures
            r@ == Seq::<EntryModel>::empty(),
            r.wf(),
    {
        let r = DataRecord { entries: Vec::new() };
        proof {
            assert(r@ =~= Seq::<EntryModel>::empty());
        }
        r
    }

    /// Finds the first entry carrying the key.
    pub fn find_key(&self, k: &Vec<u8>) -> (r: Option<usize>)
        ensures
            match r {
                Some(i) => 0 <= i < self@.len() && self@[i as int].0 == k@,
                None => !has_key(self@, k@),
            },
    {
        let n = self.entries.len();
        let mut i: usize = 0;
        while i < n
            invariant
                n == self@.len(),
                0 <= i <= n,
                forall|j: int| 0 <= j < i ==> (#[trigger] self@[j]).0 != k@,
            decreases n - i,
        {
            if bytes_eq(&self.entries[i].key, k) {
                assert(self@[i as int].0 == k@);
                return Some(i);
            }
            i += 1;
        }
        None
    }

    /// Inserts the entry, or replaces the value its key already has;
    /// fails only when an append would grow past the capacity, and then
    /// changes nothing.
    pub fn update(&mut self, entry: DataEntry) -> (r: Result<(), Error>)
        requires
            old(self).wf(),
            entry.wf(),
        ensures
            final(self).wf(),
            r is Ok <==> update_fits(old(self)@, entry@),
            r is Ok ==> final(self)@ == record_updated(old(self)@, entry@),
            r is Err ==> r == Err::<(), Error>(Error::CapacityExceeded)
                && final(self)@ == old(self)@,
    {
        let found = self.find_key(&entry.key);
        match found {
            Some(i) => {
                proof {
                    lemma_key_index_agrees(self@, entry@.0, i as int);
                }
                self.entries[i] = entry;
                proof {
                    assert(self@ =~= record_updated(old(self)@, entry@));
                }
                Ok(())
            },
            None => {
                if self.entries.len() >= MAX_RECORD_ENTRIES {
                    return Err(Error::CapacityExceeded);
                }
                self.entries.push(entry);
                proof {
                    assert(self@ =~= old(self)@.push(entry@));
                }
                Ok(())
            },
        }
    }

    /// Removes the keyed entry, moving the last entry into its place;
    /// fails with `NotFound` when the key is absent, and then changes
    /// nothing.
    pub fn remove(&mut self, k: &Vec<u8>) -> (r: Result<(), Error>)
        requires
            old(self).wf(),
        ensures
            final(self).wf(),
            r is Ok <==> has_key(old(self)@, k@),
            r is Ok ==> final(self)@ == record_removed(old(self)@, k@),
            r is Err ==> r == Err::<(), Error>(Error::NotFound) && final(self)@ == old(self)@,
    {
        let found = self.find_key(k);
        match found {
            Some(i) => {
                proof {
                    lemma_key_index_agrees(self@, k@, i as int);
                }
                self.entries.swap_remove(i);
                proof {
                    assert(self@ =~= record_removed(old(self)@, k@));
                }
                Ok(())
            },
            None => Err(Error::NotFound),
        }
    }

    /// Adds the entry's 4-byte value onto the stored 4-byte value of the
    /// same key, wrapping on overflow; fails with `NotFound` when the key
    /// is absent and with `BadSize` when either value has another width,
    /// and then changes nothing.
    pub fn merge(&mut self, entry: &DataEntry) -> (r: Result<(), Error>)
        requires
            old(self).wf(),
            entry.wf(),
        ensures
            final(self).wf(),
            !has_key(old(self)@, entry@.0) ==> r == Err::<(), Error>(Error::NotFound)
                && final(self)@ == old(self)@,
            has_key(old(self)@, entry@.0) && !merge_sized(old(self)@, entry@) ==> r == Err::<(), Error>(Error::BadSize)
                && final(self)@ == old(self)@,
            has_key(old(self)@, entry@.0) && merge_sized(old(self)@, entry@) ==> r == Ok::<(), Error>(())
                && final(self)@ == record_merged(old(self)@, entry@),
    {
        let found = self.find_key(&entry.key);
        match found {
            Some(i) => {
                proof {
                    lemma_key_index_agrees(self@, entry@.0, i as int);
                }
                if self.entries[i].value.len() != NUMERIC_WIDTH || entry.value.len()
                    != NUMERIC_WIDTH {
                    return Err(Error::BadSize);
                }
                let existing = codec::decode_word(&self.entries[i].value);
                let incoming = codec::decode_word(&entry.value);
                let merged = codec::merge_words(existing, incoming);
                self.entries[i].value = codec::encode_word(merged);
                proof {
                    assert(self@ =~= record_merged(old(self)@, entry@));
                }
                Ok(())
            },
            None => Err(Error::NotFound),
        }
    }

    /// Hands back the value stored under the key, if any.
    pub fn get(&self, k: &Vec<u8>) -> (r: Option<&Vec<u8>>)
        requires
            self.wf(),
        ensures
            match r {
                Some(v) => has_key(self@, k@) && v@ == self@[key_index(self@, k@)].1,
                None => !has_key(self@, k@),
            },
    {
        let found = self.find_key(k);
        match found {
            Some(i) => {
                proof {
                    lemma_key_index_agrees(self@, k@, i as int);
                }
                Some(&self.entries[i].value)
            },
            None => None,
        }
    }

    /// The number of entries held.
    pub fn len(&self) -> (n: usize)
        ensures
            n == self@.len(),
    {
        self.entries.len()
    }
}

/// Byte-for-byte equality of two byte vectors.
pub fn bytes_eq(a: &Vec<u8>, b: &Vec<u8>) -> (r: bool)
    ensures
        r == (a@ == b@),
{
    if a.len() != b.len() {
        return false;
    }
    let n = a.len();
    let mut i: usize = 0;
    while i < n
        invariant
            n == a@.len(),
            n == b@.len(),
            0 <= i <= n,
            forall|j: int| 0 <= j < i ==> a@[j] == b@[j],
        decreases n - i,
    {
        if a[i] != b[i] {
            return false;
        }
        i += 1;
    }
    proof {
        assert(a@ =~= b@);
    }
    true
}

} // verus!
