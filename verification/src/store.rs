//! The keyed record stores: a map from a composite key to a data
//! record, with lazy record creation on first write.  One instantiation
//! keys world data by (game, route), the other keys user data by
//! (game, user, route).

use vstd::prelude::*;

use crate::record;
use crate::record::DataRecord;
use crate::record::EntryModel;
use crate::types::DataEntry;
use crate::types::Error;
use crate::types::Route;

verus! {

/// A composite key that can decide its own equality.
pub trait RecordKey: Sized + Copy {
    /// Whether the two keys are the same.
    fn key_eq(&self, other: &Self) -> (r: bool)
        ensures
            r == (self == other),
    ;
}

/// World data is keyed by game and route.
#[derive(Clone, Copy, Debug, PartialEq, Eq, Structural)]
pub struct WorldKey {
    pub game: u64,
    pub route: Route,
}

impl RecordKey for WorldKey {
    fn key_eq(&self, other: &Self) -> (r: bool)
        ensures
            r == (self == other),
    {
        self.game == other.game && self.route == other.route
    }
}

/// User data is keyed by game, user account and route.
#[derive(Clone, Copy, Debug, PartialEq, Eq, Structural)]
pub struct UserKey {
    pub game: u64,
    pub user: u64,
    pub route: Route,
}

impl RecordKey for UserKey {
    fn key_eq(&self, other: &Self) -> (r: bool)
        ensures
            r == (self == other),
    {
        self.game == other.game && self.user == other.user && self.route == other.route
    }
}

/// One keyed record of a store.
#[derive(Debug)]
pub struct StoreRow<K> {
    pub key: K,
    pub record: DataRecord,
}

/// A map from composite keys to data records, rows keyed uniquely.
#[derive(Debug)]
pub struct Store<K> {
    pub rows: Vec<StoreRow<K>>,
}

/// Some row of the sequence carries the key.
pub open spec fn has_srow<K>(rows: Seq<StoreRow<K>>, k: K) -> bool {
    exists|i: int| 0 <= i < rows.len() && (#[trigger] rows[i]).key == k
}

/// The index of the row carrying the key; meaningful when the key is
/// present and the keys are unique.
pub open spec fn srow_index<K>(rows: Seq<StoreRow<K>>, k: K) -> int {
    choose|i: int| 0 <= i < rows.len() && (#[trigger] rows[i]).key == k
}

/// No two rows share a key.
pub open spec fn unique_srow_keys<K>(rows: Seq<StoreRow<K>>) -> bool {
    forall|i: int, j: int|
        0 <= i < j < rows.len() ==> (#[trigger] rows[i]).key != (#[trigger] rows[j]).key
}

/// The record a store holds under a key: its entry if the key is
/// present, the empty record otherwise — writes create records lazily.
pub open spec fn stored<K>(m: Map<K, Seq<EntryModel>>, k: K) -> Seq<EntryModel> {
    if m.dom().contains(k) {
        m[k]
    } else {
        Seq::<EntryModel>::empty()
    }
}

/// When the key is present, its row index is in bounds and carries the
/// key.
pub proof fn lemma_srow_index_valid<K>(rows: Seq<StoreRow<K>>, k: K)
    requires
        has_srow(rows, k),
    ensures
        0 <= srow_index(rows, k) < rows.len(),
        rows[srow_index(rows, k)].key == k,
{
    let q = srow_index(rows, k);
    assert(0 <= q < rows.len() && rows[q].key == k);
}

/// Under unique keys, any index carrying the key is the key's row
/// index.
pub proof fn lemma_srow_index_agrees<K>(rows: Seq<StoreRow<K>>, k: K, i: int)
    requires
        unique_srow_keys(rows),
        0 <= i < rows.len(),
        rows[i].key == k,
    ensures
        has_srow(rows, k),
        srow_index(rows, k) == i,
{
    assert(has_srow(rows, k));
    let j = srow_index(rows, k);
    assert(0 <= j < rows.len() && rows[j].key == k);
}

/// After replacing one row's record in place, the view is the old view
/// with that key rebound.
proof fn lemma_view_after_row_update<K>(pre: Store<K>, post: Store<K>, i: int, rec: Seq<EntryModel>)
    requires
        unique_srow_keys(pre.rows@),
        0 <= i < pre.rows@.len(),
        post.rows@.len() == pre.rows@.len(),
        forall|j: int| 0 <= j < pre.rows@.len() && j != i ==> post.rows@[j] == pre.rows@[j],
        post.rows@[i].key == pre.rows@[i].key,
        post.rows@[i].record@ == rec,
    ensures
        post@ == pre@.insert(pre.rows@[i].key, rec),
        unique_srow_keys(post.rows@),
{
    let k0 = pre.rows@[i].key;
    assert forall|p: int, q: int|
        0 <= p < q < post.rows@.len() implies (#[trigger] post.rows@[p]).key != (
    #[trigger] post.rows@[q]).key by {
        assert(post.rows@[p].key == pre.rows@[p].key);
        assert(post.rows@[q].key == pre.rows@[q].key);
    }
    assert forall|k: K| #[trigger] has_srow(post.rows@, k) implies has_srow(pre.rows@, k) by {
        lemma_srow_index_valid(post.rows@, k);
        let q = srow_index(post.rows@, k);
        assert(pre.rows@[q].key == k);
    }
    assert forall|k: K| #[trigger] has_srow(pre.rows@, k) implies has_srow(post.rows@, k) by {
        lemma_srow_index_valid(pre.rows@, k);
        let q = srow_index(pre.rows@, k);
        assert(post.rows@[q].key == k);
    }
    assert forall|k: K| has_srow(post.rows@, k) implies #[trigger] post@[k] == pre@.insert(
        k0,
        rec,
    )[k] by {
        lemma_srow_index_valid(post.rows@, k);
        let q = srow_index(post.rows@, k);
        lemma_srow_index_agrees(pre.rows@, k, q);
        if k == k0 {
            assert(q == i);
        }
    }
    assert(post@ =~= pre@.insert(k0, rec));
}

/// After appending a row with a fresh key, the view is the old view
/// with that key bound.
proof fn lemma_view_after_row_push<K>(pre: Store<K>, post: Store<K>, k0: K, rec: Seq<EntryModel>)
    requires
        unique_srow_keys(pre.rows@),
        !has_srow(pre.rows@, k0),
        post.rows@.len() == pre.rows@.len() + 1,
        forall|j: int| 0 <= j < pre.rows@.len() ==> post.rows@[j] == pre.rows@[j],
        post.rows@.last().key == k0,
        post.rows@.last().record@ == rec,
    ensures
        post@ == pre@.insert(k0, rec),
        unique_srow_keys(post.rows@),
{
    let n = pre.rows@.len() as int;
    assert forall|p: int, q: int|
        0 <= p < q < post.rows@.len() implies (#[trigger] post.rows@[p]).key != (
    #[trigger] post.rows@[q]).key by {
        if q == n {
            if post.rows@[p].key == k0 {
                assert(pre.rows@[p].key == k0);
                assert(has_srow(pre.rows@, k0));
            }
        }
    }
    assert(post.rows@[n].key == k0);
    assert(has_srow(post.rows@, k0));
    assert forall|k: K| #[trigger] has_srow(post.rows@, k) implies k == k0 || has_srow(
        pre.rows@,
        k,
    ) by {
        lemma_srow_index_valid(post.rows@, k);
        let q = srow_index(post.rows@, k);
        if q < n {
            assert(pre.rows@[q].key == k);
        }
    }
    assert forall|k: K| #[trigger] has_srow(pre.rows@, k) implies has_srow(post.rows@, k) by {
        lemma_srow_index_valid(pre.rows@, k);
        let q = srow_index(pre.rows@, k);
        assert(post.rows@[q].key == k);
    }
    assert forall|k: K| has_srow(post.rows@, k) implies #[trigger] post@[k] == pre@.insert(
        k0,
        rec,
    )[k] by {
        lemma_srow_index_valid(post.rows@, k);
        let q = srow_index(post.rows@, k);
        if k == k0 {
            assert(q == n) by {
                if q < n {
                    assert(pre.rows@[q].key == k);
                    assert(has_srow(pre.rows@, k0));
                }
            }
        } else {
            assert(q < n);
            lemma_srow_index_agrees(pre.rows@, k, q);
        }
    }
    assert(post@ =~= pre@.insert(k0, rec));
}

/// A well-formed store holds only well-formed record models.
pub proof fn lemma_store_records_wf<K: RecordKey>(s: Store<K>)
    requires
        s.wf(),
    ensures
        forall|k: K| #[trigger] s@.dom().contains(k) ==> record::record_model_wf(s@[k]),
{
    assert forall|k: K| #[trigger] s@.dom().contains(k) implies record::record_model_wf(
        s@[k],
    ) by {
        lemma_srow_index_valid(s.rows@, k);
    }
}

impl<K> View for Store<K> {
    type V = Map<K, Seq<EntryModel>>;

    open spec fn view(&self) -> Map<K, Seq<EntryModel>> {
        Map::new(
            |k: K| has_srow(self.rows@, k),
            |k: K| self.rows@[srow_index(self.rows@, k)].record@,
        )
    }
}

impl<K: RecordKey> Store<K> {
    /// Row keys are unique and every record is well formed.
    pub open spec fn wf(self) -> bool {
        &&& unique_srow_keys(self.rows@)
        &&& forall|i: int| 0 <= i < self.rows@.len() ==> (#[trigger] self.rows@[i]).record.wf()
    }

    /// An empty store.
    pub fn new() -> (r: Self)
        ensures
            r@ == Map::<K, Seq<EntryModel>>::empty(),
            r.wf(),
    {
        let r = Store { rows: Vec::new() };
        proof {
            assert(r@ =~= Map::<K, Seq<EntryModel>>::empty());
        }
        r
    }

    /// Finds the key's row.
    fn find_row(&self, k: &K) -> (r: Option<usize>)
        ensures
            match r {
                Some(i) => 0 <= i < self.rows@.len() && self.rows@[i as int].key == *k,
                None => !has_srow(self.rows@, *k),
            },
    {
        let n = self.rows.len();
        let mut i: usize = 0;
        while i < n
            invariant
                0 <= i <= n,
                forall|j: int| 0 <= j < i ==> (#[trigger] self.rows@[j]).key != *k,
            decreases n - i,
        {
            if self.rows[i].key.key_eq(k) {
                return Some(i);
            }
            i += 1;
        }
        None
    }

    /// Inserts the entry into the keyed record, or replaces the value
    /// its key already has; a record absent from the store counts as
    /// empty and is created.  Fails only when an append would grow the
    /// record past its capacity, and then changes nothing.
    pub fn update(&mut self, k: K, entry: DataEntry) -> (r: Result<(), Error>)
        requires
            old(self).wf(),
            entry.wf(),
        ensures
            final(self).wf(),
            r is Ok <==> record::update_fits(stored(old(self)@, k), entry@),
            r is Ok ==> final(self)@ == old(self)@.insert(
                k,
                record::record_updated(stored(old(self)@, k), entry@),
            ),
            r is Err ==> r == Err::<(), Error>(Error::CapacityExceeded)
                && final(self)@ == old(self)@,
    {
        match self.find_row(&k) {
            Some(i) => {
                proof {
                    lemma_srow_index_agrees(self.rows@, k, i as int);
                    assert(stored(self@, k) == self.rows@[i as int].record@);
                }
                let r = self.rows[i].record.update(entry);
                proof {
                    if r is Ok {
                        lemma_view_after_row_update(
                            *old(self),
                            *self,
                            i as int,
                            record::record_updated(stored(old(self)@, k), entry@),
                        );
                    } else {
                        lemma_view_after_row_update(
                            *old(self),
                            *self,
                            i as int,
                            stored(old(self)@, k),
                        );
                        assert(old(self)@.insert(k, stored(old(self)@, k)) =~= old(self)@);
                    }
                }
                r
            },
            None => {
                let mut rec = DataRecord::new();
                let inner = rec.update(entry);
                proof {
                    assert(inner is Ok);
                }
                self.rows.push(StoreRow { key: k, record: rec });
                proof {
                    assert(!old(self)@.dom().contains(k));
                    assert(stored(old(self)@, k) == Seq::<EntryModel>::empty());
                    lemma_view_after_row_push(
                        *old(self),
                        *self,
                        k,
                        record::record_updated(stored(old(self)@, k), entry@),
                    );
                }
                Ok(())
            },
        }
    }

    /// Removes the keyed entry from the keyed record, moving the
    /// record's last entry into its place; an emptied record stays
    /// present.  Fails with `NotFound` when the record or the entry is
    /// absent, and then changes nothing.
    pub fn remove(&mut self, k: K, key: &Vec<u8>) -> (r: Result<(), Error>)
        requires
            old(self).wf(),
        ensures
            final(self).wf(),
            r is Ok <==> record::has_key(stored(old(self)@, k), key@),
            r is Ok ==> final(self)@ == old(self)@.insert(
                k,
                record::record_removed(stored(old(self)@, k), key@),
            ),
            r is Err ==> r == Err::<(), Error>(Error::NotFound) && final(self)@ == old(self)@,
    {
        match self.find_row(&k) {
            None => {
                proof {
                    assert(!self@.dom().contains(k));
                }
                Err(Error::NotFound)
            },
            Some(i) => {
                proof {
                    lemma_srow_index_agrees(self.rows@, k, i as int);
                    assert(stored(self@, k) == self.rows@[i as int].record@);
                }
                let r = self.rows[i].record.remove(key);
                proof {
                    if r is Ok {
                        lemma_view_after_row_update(
                            *old(self),
                            *self,
                            i as int,
                            record::record_removed(stored(old(self)@, k), key@),
                        );
                    } else {
                        lemma_view_after_row_update(
                            *old(self),
                            *self,
                            i as int,
                            stored(old(self)@, k),
                        );
                        assert(old(self)@.insert(k, stored(old(self)@, k)) =~= old(self)@);
                    }
                }
                r
            },
        }
    }

    /// Adds the entry's 4-byte value onto the stored 4-byte value under
    /// the same key of the keyed record, wrapping on overflow.  Fails
    /// with `NotFound` when the record or the entry is absent and with
    /// `BadSize` when either value has another width, and then changes
    /// nothing.
    pub fn merge(&mut self, k: K, entry: &DataEntry) -> (r: Result<(), Error>)
        requires
            old(self).wf(),
            entry.wf(),
        ensures
            final(self).wf(),
            !record::has_key(stored(old(self)@, k), entry@.0) ==> r == Err::<(), Error>(
                Error::NotFound,
            ) && final(self)@ == old(self)@,
            record::has_key(stored(old(self)@, k), entry@.0) && !record::merge_sized(
                stored(old(self)@, k),
                entry@,
            ) ==> r == Err::<(), Error>(Error::BadSize) && final(self)@ == old(self)@,
            record::has_key(stored(old(self)@, k), entry@.0) && record::merge_sized(
                stored(old(self)@, k),
                entry@,
            ) ==> r == Ok::<(), Error>(()) && final(self)@ == old(self)@.insert(
                k,
                record::record_merged(stored(old(self)@, k), entry@),
            ),
    {
        match self.find_row(&k) {
            None => {
                proof {
                    assert(!self@.dom().contains(k));
                }
                Err(Error::NotFound)
            },
            Some(i) => {
                proof {
                    lemma_srow_index_agrees(self.rows@, k, i as int);
                    assert(stored(self@, k) == self.rows@[i as int].record@);
                }
                let r = self.rows[i].record.merge(entry);
                proof {
                    if r is Ok {
                        lemma_view_after_row_update(
                            *old(self),
                            *self,
                            i as int,
                            record::record_merged(stored(old(self)@, k), entry@),
                        );
                    } else {
                        lemma_view_after_row_update(
                            *old(self),
                            *self,
                            i as int,
                            stored(old(self)@, k),
                        );
                        assert(old(self)@.insert(k, stored(old(self)@, k)) =~= old(self)@);
                    }
                }
                r
            },
        }
    }

    /// Binds the key to exactly the given record, replacing whatever
    /// record it held: the store analogue of a map insert, used when
    /// seeding initial state.
    pub fn set_record(&mut self, k: K, rec: DataRecord)
        requires
            old(self).wf(),
            rec.wf(),
        ensures
            final(self).wf(),
            final(self)@ == old(self)@.insert(k, rec@),
    {
        let ghost rec_model = rec@;
        match self.find_row(&k) {
            Some(i) => {
                proof {
                    lemma_srow_index_agrees(self.rows@, k, i as int);
                }
                self.rows[i].record = rec;
                proof {
                    lemma_view_after_row_update(*old(self), *self, i as int, rec_model);
                }
            },
            None => {
                self.rows.push(StoreRow { key: k, record: rec });
                proof {
                    lemma_view_after_row_push(*old(self), *self, k, rec_model);
                }
            },
        }
    }

    /// Hands back the value stored under the entry key of the keyed
    /// record, if both exist.
    pub fn get_value(&self, k: &K, key: &Vec<u8>) -> (r: Option<&Vec<u8>>)
        requires
            self.wf(),
        ensures
            match r {
                Some(v) => record::has_key(stored(self@, *k), key@) && v@ == stored(self@, *k)[
                    record::key_index(stored(self@, *k), key@)
                ].1,
                None => !record::has_key(stored(self@, *k), key@),
            },
    {
        match self.find_row(k) {
            None => {
                proof {
                    assert(!self@.dom().contains(*k));
                }
                None
            },
            Some(i) => {
                proof {
                    lemma_srow_index_agrees(self.rows@, *k, i as int);
                    assert(stored(self@, *k) == self.rows@[i as int].record@);
                }
                self.rows[i].record.get(key)
            },
        }
    }

    /// The number of entries the keyed record holds, when it exists.
    pub fn record_len(&self, k: &K) -> (r: Option<usize>)
        requires
            self.wf(),
        ensures
            match r {
                Some(n) => self@.dom().contains(*k) && n == self@[*k].len(),
                None => !self@.dom().contains(*k),
            },
    {
        match self.find_row(k) {
            None => {
                proof {
                    assert(!self@.dom().contains(*k));
                }
                None
            },
            Some(i) => {
                proof {
                    lemma_srow_index_agrees(self.rows@, *k, i as int);
                }
                Some(self.rows[i].record.len())
            },
        }
    }
}

} // verus!
