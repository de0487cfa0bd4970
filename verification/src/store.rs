//! The store: for every collection its log and the cache that is derived
//! from it. The log is the truth and only grows; the cache holds the latest
//! text of every record that has not been deleted, with its indexed fields,
//! and can be rebuilt from the log at any time.

use crate::filter::{admits_all, filter_views, passes_all, Filter, FilterOp, FilterView};
use crate::json::{json_marker, marker_json};
use crate::jsonl::{
    entries_in, entry_ids, entry_views, is_latest, is_latest_table, latest_entries, latest_in,
    scan_log, EntryView, LogEntry, DELETED_KEY, ID_KEY, STAMP_KEY,
};
use crate::keyed::{
    has_key, keyed_map, lemma_keyed_absent, lemma_keyed_at, lemma_keyed_push, lemma_keyed_remove,
    lemma_keyed_update, place_of, unique_keys,
};
use crate::order::{
    ascending, id_lt, lemma_id_lt_irreflexive, lemma_id_lt_total, lemma_id_lt_transitive, str_lt,
};
use crate::plan::valid_filters;
use crate::record::{
    field_views, valid_collection, valid_field, valid_fields, valid_id, validate_collection, validate_field,
    validate_fields, validate_id, IndexField, IndexValue, Record, StoreError, ValueView,
};
use crate::text::{has_line_feed, lines_of, str_has_line_feed};
use vstd::prelude::*;

verus! {

/// A record as the cache holds it: its latest text and its indexed fields.
#[derive(Debug, PartialEq)]
pub struct CachedRecord {
    pub id: String,
    /// The record's JSON text.
    pub payload: String,
    pub updated_at: i64,
    /// The fields under which the record can be found. Of two fields with
    /// one name the later counts.
    pub fields: Vec<IndexField>,
}

/// A row of the cache in the abstract.
pub ghost struct RowView {
    pub id: Seq<char>,
    pub payload: Seq<char>,
    pub updated_at: i64,
    pub fields: Seq<(Seq<char>, ValueView)>,
}

impl View for CachedRecord {
    type V = RowView;

    open spec fn view(&self) -> RowView {
        RowView {
            id: self.id@,
            payload: self.payload@,
            updated_at: self.updated_at,
            fields: field_views(self.fields@),
        }
    }
}

/// A copy of a list of fields.
pub fn clone_fields(fields: &Vec<IndexField>) -> (r: Vec<IndexField>)
    ensures
        field_views(r@) == field_views(fields@),
{
    let mut r: Vec<IndexField> = Vec::new();
    let mut i: usize = 0;
    while i < fields.len()
        invariant
            i <= fields.len(),
            r.len() == i,
            forall|k: int| 0 <= k < i ==> (#[trigger] r@[k])@ == fields@[k]@,
        decreases fields.len() - i,
    {
        r.push(fields[i].clone());
        i = i + 1;
    }
    assert(field_views(r@) =~= field_views(fields@));
    r
}

impl Clone for CachedRecord {
    fn clone(&self) -> (r: Self)
        ensures
            r@ == self@,
    {
        CachedRecord {
            id: self.id.clone(),
            payload: self.payload.clone(),
            updated_at: self.updated_at,
            fields: clone_fields(&self.fields),
        }
    }
}

/// When a collection's log was last read into the cache, and how old the
/// log was then.
#[derive(Debug, Clone, Copy, PartialEq, Eq, Structural)]
pub struct SyncMark {
    pub last_sync_time: i64,
    pub log_mtime_at_sync: i64,
}

struct Collection {
    name: String,
    entries: Vec<LogEntry>,
    mtime: i64,
    synced: Option<SyncMark>,
    rows: Vec<CachedRecord>,
}

/// One collection in the abstract: the entries of its log, in the order in
/// which they were appended; when the log was last changed; the mark of the
/// last rebuild; and the cache's rows, by id.
pub ghost struct CollectionView {
    pub entries: Seq<EntryView>,
    pub mtime: i64,
    pub synced: Option<SyncMark>,
    pub rows: Map<Seq<char>, RowView>,
}

/// The key of a row: its id.
spec fn row_key() -> spec_fn(CachedRecord) -> Seq<char> {
    |r: CachedRecord| r.id@
}

/// What a row stands for: its view.
spec fn row_val() -> spec_fn(CachedRecord) -> RowView {
    |r: CachedRecord| r@
}

spec fn coll_key() -> spec_fn(Collection) -> Seq<char> {
    |c: Collection| c.name@
}

spec fn coll_val() -> spec_fn(Collection) -> CollectionView {
    |c: Collection| c.view()
}

impl Collection {
    spec fn view(&self) -> CollectionView {
        CollectionView {
            entries: entry_views(self.entries@),
            mtime: self.mtime,
            synced: self.synced,
            rows: keyed_map(self.rows@, row_key(), row_val()),
        }
    }

    spec fn wf(&self) -> bool {
        unique_keys(self.rows@, row_key())
    }
}

/// The store: its collections, each with its log and its part of the cache.
pub struct Store {
    collections: Vec<Collection>,
}

/// The store in the abstract: its collections by name.
pub type StoreView = Map<Seq<char>, CollectionView>;

/// A collection that nothing was written to yet.
pub open spec fn empty_collection() -> CollectionView {
    CollectionView { entries: Seq::empty(), mtime: 0, synced: None, rows: Map::empty() }
}

/// The collection called `name`; an empty one where the store has none.
pub open spec fn collection_in(v: StoreView, name: Seq<char>) -> CollectionView {
    if v.dom().contains(name) {
        v[name]
    } else {
        empty_collection()
    }
}

/// The row that the cache holds of `id` in `collection`.
pub open spec fn row_in(v: StoreView, collection: Seq<char>, id: Seq<char>) -> Option<RowView> {
    let c = collection_in(v, collection);
    if c.rows.dom().contains(id) {
        Some(c.rows[id])
    } else {
        None
    }
}

/// The log entry that stands for a row.
pub open spec fn entry_of_row(row: RowView) -> EntryView {
    EntryView { id: row.id, updated_at: row.updated_at, deleted: false, payload: row.payload }
}

/// The store after `row` was written to `collection` at the time `now`: the
/// log has one more entry, and the cache holds the row in place of any
/// other of that id.
pub open spec fn written(v: StoreView, collection: Seq<char>, row: RowView, now: i64) -> StoreView {
    let c = collection_in(v, collection);
    v.insert(
        collection,
        CollectionView {
            entries: c.entries.push(entry_of_row(row)),
            mtime: now,
            synced: c.synced,
            rows: c.rows.insert(row.id, row),
        },
    )
}

/// The log entry that marks `id` as deleted at the time `now`.
pub open spec fn tombstone(id: Seq<char>, now: i64) -> EntryView {
    EntryView {
        id,
        updated_at: now,
        deleted: true,
        payload: json_marker(ID_KEY@, id, STAMP_KEY@, now, DELETED_KEY@, true),
    }
}

/// The store after `id` was deleted from `collection` at the time `now`:
/// the log has one more entry, a tombstone, and the cache has no row of
/// that id.
pub open spec fn erased(v: StoreView, collection: Seq<char>, id: Seq<char>, now: i64) -> StoreView {
    let c = collection_in(v, collection);
    v.insert(
        collection,
        CollectionView {
            entries: c.entries.push(tombstone(id, now)),
            mtime: now,
            synced: c.synced,
            rows: c.rows.remove(id),
        },
    )
}

/// Why a record cannot be written, if it cannot: the first of its
/// collection name, its id, its field names and its text that breaks a
/// rule.
pub open spec fn write_refusal(
    collection: Seq<char>,
    id: Seq<char>,
    payload: Seq<char>,
    fields: Seq<(Seq<char>, ValueView)>,
) -> Option<StoreError> {
    if !valid_collection(collection) {
        Some(StoreError::InvalidCollection)
    } else if !valid_id(id) {
        Some(StoreError::InvalidId)
    } else if !valid_fields(fields) {
        Some(StoreError::InvalidField)
    } else if has_line_feed(payload) {
        Some(StoreError::InvalidPayload)
    } else {
        None
    }
}

/// Why a record cannot be named, if it cannot.
pub open spec fn key_refusal(collection: Seq<char>, id: Seq<char>) -> Option<StoreError> {
    if !valid_collection(collection) {
        Some(StoreError::InvalidCollection)
    } else if !valid_id(id) {
        Some(StoreError::InvalidId)
    } else {
        None
    }
}

/// The order of a listing: the newer row first, and of two equally new
/// rows the one with the smaller id.
pub open spec fn row_before(a: RowView, b: RowView) -> bool {
    a.updated_at > b.updated_at || (a.updated_at == b.updated_at && id_lt(a.id, b.id))
}

/// Rows in the order of a listing.
pub open spec fn newest_first(rows: Seq<RowView>) -> bool {
    forall|i: int, j: int| 0 <= i < j < rows.len() ==> row_before(#[trigger] rows[i], #[trigger] rows[j])
}

/// `rows` is the listing of the collection `c` under `filters`: in the
/// order of a listing, exactly the rows of `c` that pass every filter.
pub open spec fn is_listing(rows: Seq<RowView>, c: CollectionView, filters: Seq<FilterView>) -> bool {
    &&& newest_first(rows)
    &&& forall|k: int|
        0 <= k < rows.len() ==> {
            &&& c.rows.dom().contains((#[trigger] rows[k]).id)
            &&& c.rows[rows[k].id] == rows[k]
            &&& passes_all(rows[k].fields, filters)
        }
    &&& forall|id: Seq<char>|
        c.rows.dom().contains(id) && passes_all((#[trigger] c.rows[id]).fields, filters)
            ==> exists|k: int| 0 <= k < rows.len() && (#[trigger] rows[k]).id == id
}

/// The listing of the collection `c` under `filters`. Every collection
/// that holds each row under the row's own id has one.
pub open spec fn listing_of(c: CollectionView, filters: Seq<FilterView>) -> Seq<RowView> {
    choose|rows: Seq<RowView>| is_listing(rows, c, filters)
}

/// The views of a sequence of rows.
pub open spec fn row_views(rows: Seq<CachedRecord>) -> Seq<RowView> {
    rows.map_values(|r: CachedRecord| r@)
}

/// The store after each of `ids` was deleted from `collection`, one after
/// the other, at the time `now`.
pub open spec fn erased_all(v: StoreView, collection: Seq<char>, ids: Seq<Seq<char>>, now: i64) -> StoreView
    decreases ids.len(),
{
    if ids.len() == 0 {
        v
    } else {
        erased(erased_all(v, collection, ids.drop_last(), now), collection, ids.last(), now)
    }
}

/// The ids of a sequence of rows.
pub open spec fn row_ids(rows: Seq<RowView>) -> Seq<Seq<char>> {
    rows.map_values(|r: RowView| r.id)
}

/// The row that the cache makes of a log entry. A rebuild does not know
/// the record's type and files no fields.
pub open spec fn row_of_entry(e: EntryView) -> RowView {
    RowView { id: e.id, payload: e.payload, updated_at: e.updated_at, fields: Seq::empty() }
}

/// The rows that a log gives: of each id the latest entry, unless that is a
/// tombstone.
pub open spec fn materialized(entries: Seq<EntryView>) -> Map<Seq<char>, RowView> {
    Map::new(
        |id: Seq<char>| latest_in(entries, id) is Some && !latest_in(entries, id)->Some_0.deleted,
        |id: Seq<char>| row_of_entry(latest_in(entries, id)->Some_0),
    )
}

/// A collection after its cache was rebuilt from its log at the time `now`.
pub open spec fn rebuilt(c: CollectionView, now: i64) -> CollectionView {
    CollectionView {
        entries: c.entries,
        mtime: c.mtime,
        synced: Some(SyncMark { last_sync_time: now, log_mtime_at_sync: c.mtime }),
        rows: materialized(c.entries),
    }
}

/// The store after the cache of every collection was rebuilt at `now`.
pub open spec fn synced(v: StoreView, now: i64) -> StoreView {
    Map::new(|name: Seq<char>| v.dom().contains(name), |name: Seq<char>| rebuilt(v[name], now))
}

/// A collection's cache may be behind its log: it was never rebuilt, or the
/// log has changed since.
pub open spec fn needs_sync(c: CollectionView) -> bool {
    match c.synced {
        None => true,
        Some(m) => c.mtime > m.log_mtime_at_sync,
    }
}

/// The store is stale when the cache of any collection may be behind its
/// log.
pub open spec fn stale(v: StoreView) -> bool {
    exists|name: Seq<char>| v.dom().contains(name) && needs_sync(#[trigger] v[name])
}

/// Two stores that differ at most in the fields under which records are
/// indexed.
pub open spec fn same_but_fields(a: StoreView, b: StoreView) -> bool {
    &&& a.dom() == b.dom()
    &&& forall|name: Seq<char>|
        a.dom().contains(name) ==> {
            &&& (#[trigger] a[name]).entries == b[name].entries
            &&& a[name].mtime == b[name].mtime
            &&& a[name].synced == b[name].synced
            &&& a[name].rows.dom() == b[name].rows.dom()
            &&& forall|id: Seq<char>|
                a[name].rows.dom().contains(id) ==> {
                    &&& (#[trigger] a[name].rows[id]).id == b[name].rows[id].id
                    &&& a[name].rows[id].payload == b[name].rows[id].payload
                    &&& a[name].rows[id].updated_at == b[name].rows[id].updated_at
                }
        }
}

/// The store after the fields of the row `id` of `collection` were set.
pub open spec fn reindexed(
    v: StoreView,
    collection: Seq<char>,
    id: Seq<char>,
    fields: Seq<(Seq<char>, ValueView)>,
) -> StoreView {
    let c = collection_in(v, collection);
    let row = c.rows[id];
    v.insert(
        collection,
        CollectionView {
            entries: c.entries,
            mtime: c.mtime,
            synced: c.synced,
            rows: c.rows.insert(
                id,
                RowView { id: row.id, payload: row.payload, updated_at: row.updated_at, fields },
            ),
        },
    )
}

/// The store after the log of `collection` was read anew from its text.
pub open spec fn reloaded(v: StoreView, collection: Seq<char>, text: Seq<char>, mtime: i64) -> StoreView {
    let c = collection_in(v, collection);
    v.insert(
        collection,
        CollectionView {
            entries: entries_in(lines_of(text)),
            mtime,
            synced: c.synced,
            rows: c.rows,
        },
    )
}

impl View for Store {
    type V = StoreView;

    closed spec fn view(&self) -> StoreView {
        keyed_map(self.collections@, coll_key(), coll_val())
    }
}

impl Store {
    /// The store holds each collection once, and of each record one row.
    pub closed spec fn wf(&self) -> bool {
        &&& unique_keys(self.collections@, coll_key())
        &&& forall|i: int| 0 <= i < self.collections.len() ==> (#[trigger] self.collections@[i]).wf()
    }

    /// A store holds every row under the row's own id.
    pub proof fn lemma_rows_by_id(&self, collection: Seq<char>, id: Seq<char>)
        requires
            self.wf(),
            row_in(self@, collection, id) is Some,
        ensures
            row_in(self@, collection, id)->Some_0.id == id,
    {
        let at = place_of(self.collections@, coll_key(), collection);
        lemma_keyed_at(self.collections@, coll_key(), coll_val(), at);
        let rows = self.collections@[at].rows@;
        let k = place_of(rows, row_key(), id);
        lemma_keyed_at(rows, row_key(), row_val(), k);
    }

    /// A store without collections.
    pub fn open() -> (s: Store)
        ensures
            s.wf(),
            s@ == Map::<Seq<char>, CollectionView>::empty(),
    {
        let s = Store { collections: Vec::new() };
        assert(s@ =~= Map::<Seq<char>, CollectionView>::empty());
        s
    }

    fn find_collection(&self, name: &str) -> (r: Option<usize>)
        ensures
            match r {
                Some(i) => i < self.collections.len() && self.collections@[i as int].name@ == name@,
                None => forall|i: int|
                    0 <= i < self.collections.len() ==> (#[trigger] self.collections@[i]).name@
                        != name@,
            },
    {
        let wanted = String::from_str(name);
        let mut i: usize = 0;
        while i < self.collections.len()
            invariant
                i <= self.collections.len(),
                wanted@ == name@,
                forall|k: int| 0 <= k < i ==> (#[trigger] self.collections@[k]).name@ != name@,
            decreases self.collections.len() - i,
        {
            if self.collections[i].name == wanted {
                return Some(i);
            }
            i = i + 1;
        }
        None
    }

    /// The record `id` of `collection` as the cache holds it. A record that
    /// is not there is no error; a name or an id that could never be stored
    /// is.
    pub fn get(&self, collection: &str, id: &str) -> (r: Result<Option<CachedRecord>, StoreError>)
        requires
            self.wf(),
        ensures
            match r {
                Ok(found) => {
                    &&& valid_collection(collection@)
                    &&& valid_id(id@)
                    &&& match found {
                        Some(row) => row_in(self@, collection@, id@) == Some(row@),
                        None => row_in(self@, collection@, id@) is None,
                    }
                },
                Err(e) => if !valid_collection(collection@) {
                    e == StoreError::InvalidCollection
                } else {
                    e == StoreError::InvalidId && !valid_id(id@)
                },
            },
    {
        if validate_collection(collection).is_err() {
            return Err(StoreError::InvalidCollection);
        }
        if validate_id(id).is_err() {
            return Err(StoreError::InvalidId);
        }
        match self.find_collection(collection) {
            None => {
                proof {
                    lemma_keyed_absent(self.collections@, coll_key(), coll_val(), collection@);
                }
                Ok(None)
            },
            Some(i) => {
                let c = &self.collections[i];
                proof {
                    lemma_keyed_at(self.collections@, coll_key(), coll_val(), i as int);
                }
                match find_row(&c.rows, id) {
                    None => {
                        proof {
                            lemma_keyed_absent(c.rows@, row_key(), row_val(), id@);
                        }
                        Ok(None)
                    },
                    Some(k) => {
                        proof {
                            lemma_keyed_at(c.rows@, row_key(), row_val(), k as int);
                        }
                        Ok(Some(c.rows[k].clone()))
                    },
                }
            },
        }
    }

    /// Lists the records of a collection that pass every filter; all of
    /// them where there is no filter. The newest comes first, and of equally
    /// new ones the one with the smaller id. The collection name and the
    /// filters' field names are checked first.
    pub fn list(&self, collection: &str, filters: &Vec<Filter>) -> (r: Result<
        Vec<CachedRecord>,
        StoreError,
    >)
        requires
            self.wf(),
        ensures
            match r {
                Ok(rows) => {
                    &&& valid_collection(collection@)
                    &&& valid_filters(filter_views(filters@))
                    &&& is_listing(
                        row_views(rows@),
                        collection_in(self@, collection@),
                        filter_views(filters@),
                    )
                    &&& row_views(rows@) == listing_of(
                        collection_in(self@, collection@),
                        filter_views(filters@),
                    )
                },
                Err(e) => if !valid_collection(collection@) {
                    e == StoreError::InvalidCollection
                } else {
                    e == StoreError::InvalidField && !valid_filters(filter_views(filters@))
                },
            },
    {
        if validate_collection(collection).is_err() {
            return Err(StoreError::InvalidCollection);
        }
        let ghost fv = filter_views(filters@);
        let mut i: usize = 0;
        while i < filters.len()
            invariant
                i <= filters.len(),
                valid_collection(collection@),
                fv == filter_views(filters@),
                forall|k: int| 0 <= k < i ==> valid_field((#[trigger] fv[k]).field),
            decreases filters.len() - i,
        {
            assert(fv[i as int] == filters@[i as int]@);
            if validate_field(filters[i].field.as_str()).is_err() {
                return Err(StoreError::InvalidField);
            }
            i = i + 1;
        }
        match self.find_collection(collection) {
            None => {
                proof {
                    lemma_keyed_absent(self.collections@, coll_key(), coll_val(), collection@);
                }
                let rows: Vec<CachedRecord> = Vec::new();
                assert(row_views(rows@) =~= Seq::empty());
                proof {
                    lemma_listing_of(row_views(rows@), collection_in(self@, collection@), fv);
                }
                Ok(rows)
            },
            Some(at) => {
                let c = &self.collections[at];
                proof {
                    lemma_keyed_at(self.collections@, coll_key(), coll_val(), at as int);
                }
                let rows = select_rows(&c.rows, filters);
                proof {
                    let cv = c.view();
                    let rv = row_views(rows@);
                    assert forall|k: int| 0 <= k < rv.len() implies {
                        &&& cv.rows.dom().contains((#[trigger] rv[k]).id)
                        &&& cv.rows[rv[k].id] == rv[k]
                        &&& passes_all(rv[k].fields, fv)
                    } by {
                        assert(rv[k] == rows@[k]@);
                        assert(holds_row(c.rows@, rows@[k]@));
                        let j = choose|j: int|
                            0 <= j < c.rows.len() && (#[trigger] c.rows@[j])@ == rows@[k]@;
                        lemma_keyed_at(c.rows@, row_key(), row_val(), j);
                    }
                    assert forall|id: Seq<char>|
                        cv.rows.dom().contains(id) && passes_all(
                            (#[trigger] cv.rows[id]).fields,
                            fv,
                        ) implies exists|k: int| 0 <= k < rv.len() && (#[trigger] rv[k]).id == id by {
                        let j = place_of(c.rows@, row_key(), id);
                        lemma_keyed_at(c.rows@, row_key(), row_val(), j);
                        assert(holds_row(rows@, c.rows@[j]@));
                        let k = choose|k: int|
                            0 <= k < rows.len() && (#[trigger] rows@[k])@ == c.rows@[j]@;
                        assert(rv[k] == rows@[k]@);
                    }
                    lemma_listing_of(rv, cv, fv);
                }
                Ok(rows)
            },
        }
    }

    /// Takes the collection called `name` out of the store, or makes an
    /// empty one of that name.
    fn detach(&mut self, name: &str) -> (c: Collection)
        requires
            old(self).wf(),
        ensures
            final(self).wf(),
            c.wf(),
            c.name@ == name@,
            c.view() == collection_in(old(self)@, name@),
            final(self)@ == old(self)@.remove(name@),
            forall|i: int|
                0 <= i < final(self).collections.len() ==> (
                #[trigger] final(self).collections@[i]).name@ != name@,
    {
        match self.find_collection(name) {
            Some(i) => {
                proof {
                    lemma_keyed_at(self.collections@, coll_key(), coll_val(), i as int);
                    lemma_keyed_remove(self.collections@, coll_key(), coll_val(), i as int);
                }
                let ghost before = self.collections@;
                let c = self.collections.remove(i);
                proof {
                    assert forall|k: int| 0 <= k < self.collections.len() implies (
                    #[trigger] self.collections@[k]).name@ != name@ && self.collections@[k].wf() by {
                        let b = if k < i { k } else { k + 1 };
                        assert(self.collections@[k] == before[b]);
                    }
                }
                c
            },
            None => {
                proof {
                    lemma_keyed_absent(self.collections@, coll_key(), coll_val(), name@);
                    assert(self@.remove(name@) =~= self@);
                }
                let c = Collection {
                    name: String::from_str(name),
                    entries: Vec::new(),
                    mtime: 0,
                    synced: None,
                    rows: Vec::new(),
                };
                proof {
                    assert(c.view().entries =~= Seq::empty());
                    assert(c.view().rows =~= Map::empty());
                }
                c
            },
        }
    }

    /// Puts a collection into the store that holds none of its name.
    fn attach(&mut self, c: Collection)
        requires
            old(self).wf(),
            c.wf(),
            forall|i: int|
                0 <= i < old(self).collections.len() ==> (#[trigger] old(self).collections@[i]).name@
                    != c.name@,
        ensures
            final(self).wf(),
            final(self)@ == old(self)@.insert(c.name@, c.view()),
    {
        proof {
            lemma_keyed_push(self.collections@, coll_key(), coll_val(), c);
        }
        let ghost before = self.collections@;
        self.collections.push(c);
        proof {
            assert forall|i: int| 0 <= i < self.collections.len() implies (
            #[trigger] self.collections@[i]).wf() by {
                if i < before.len() {
                    assert(self.collections@[i] == before[i]);
                }
            }
        }
    }

    /// Writes a record: its text becomes the newest entry of the log of its
    /// collection, and its row in the cache is put in place, with its
    /// indexed fields in place of those that the row had. Collection name,
    /// id, field names and text are checked first, in this order; a record
    /// that is refused leaves the store as it was.
    pub fn create(
        &mut self,
        collection: &str,
        id: &str,
        updated_at: i64,
        payload: &str,
        fields: Vec<IndexField>,
        now: i64,
    ) -> (r: Result<String, StoreError>)
        requires
            old(self).wf(),
        ensures
            final(self).wf(),
            match r {
                Ok(rid) => {
                    &&& write_refusal(collection@, id@, payload@, field_views(fields@)) is None
                    &&& rid@ == id@
                    &&& final(self)@ == written(
                        old(self)@,
                        collection@,
                        RowView {
                            id: id@,
                            payload: payload@,
                            updated_at,
                            fields: field_views(fields@),
                        },
                        now,
                    )
                },
                Err(e) => write_refusal(collection@, id@, payload@, field_views(fields@)) == Some(e)
                    && final(self)@ == old(self)@,
            },
    {
        if validate_collection(collection).is_err() {
            return Err(StoreError::InvalidCollection);
        }
        if validate_id(id).is_err() {
            return Err(StoreError::InvalidId);
        }
        if validate_fields(&fields).is_err() {
            return Err(StoreError::InvalidField);
        }
        if str_has_line_feed(payload) {
            return Err(StoreError::InvalidPayload);
        }
        let mut c = self.detach(collection);
        let entry = LogEntry {
            id: String::from_str(id),
            updated_at,
            deleted: false,
            payload: String::from_str(payload),
        };
        let row = CachedRecord {
            id: String::from_str(id),
            payload: String::from_str(payload),
            updated_at,
            fields,
        };
        proof {
            assert(entry_views(c.entries@.push(entry)) =~= entry_views(c.entries@).push(entry@));
        }
        c.entries.push(entry);
        c.mtime = now;
        put_row(&mut c.rows, row);
        self.attach(c);
        proof {
            assert(final(self)@ =~= written(
                old(self)@,
                collection@,
                RowView { id: id@, payload: payload@, updated_at, fields: field_views(fields@) },
                now,
            ));
        }
        Ok(String::from_str(id))
    }

    /// Writes a record that the cache holds already; one that it does not
    /// hold is not written, and `NotFound` says so.
    pub fn update(
        &mut self,
        collection: &str,
        id: &str,
        updated_at: i64,
        payload: &str,
        fields: Vec<IndexField>,
        now: i64,
    ) -> (r: Result<String, StoreError>)
        requires
            old(self).wf(),
        ensures
            final(self).wf(),
            match r {
                Ok(rid) => {
                    &&& write_refusal(collection@, id@, payload@, field_views(fields@)) is None
                    &&& row_in(old(self)@, collection@, id@) is Some
                    &&& rid@ == id@
                    &&& final(self)@ == written(
                        old(self)@,
                        collection@,
                        RowView {
                            id: id@,
                            payload: payload@,
                            updated_at,
                            fields: field_views(fields@),
                        },
                        now,
                    )
                },
                Err(e) => final(self)@ == old(self)@ && match write_refusal(
                    collection@,
                    id@,
                    payload@,
                    field_views(fields@),
                ) {
                    Some(why) => e == why,
                    None => e == StoreError::NotFound && row_in(old(self)@, collection@, id@)
                        is None,
                },
            },
    {
        if validate_collection(collection).is_err() {
            return Err(StoreError::InvalidCollection);
        }
        if validate_id(id).is_err() {
            return Err(StoreError::InvalidId);
        }
        if validate_fields(&fields).is_err() {
            return Err(StoreError::InvalidField);
        }
        if str_has_line_feed(payload) {
            return Err(StoreError::InvalidPayload);
        }
        match self.get(collection, id) {
            Ok(Some(_)) => self.create(collection, id, updated_at, payload, fields, now),
            _ => Err(StoreError::NotFound),
        }
    }

    /// Deletes a record: a tombstone becomes the newest entry of the log of
    /// its collection, and the cache drops its row with its indexed fields.
    /// Deleting what is not there is no error; the tombstone is written all
    /// the same.
    pub fn delete(&mut self, collection: &str, id: &str, now: i64) -> (r: Result<(), StoreError>)
        requires
            old(self).wf(),
        ensures
            final(self).wf(),
            match r {
                Ok(_) => key_refusal(collection@, id@) is None && final(self)@ == erased(
                    old(self)@,
                    collection@,
                    id@,
                    now,
                ),
                Err(e) => key_refusal(collection@, id@) == Some(e) && final(self)@ == old(self)@,
            },
    {
        if validate_collection(collection).is_err() {
            return Err(StoreError::InvalidCollection);
        }
        if validate_id(id).is_err() {
            return Err(StoreError::InvalidId);
        }
        self.erase(collection, id, now);
        Ok(())
    }

    fn erase(&mut self, collection: &str, id: &str, now: i64)
        requires
            old(self).wf(),
        ensures
            final(self).wf(),
            final(self)@ == erased(old(self)@, collection@, id@, now),
    {
        let mut c = self.detach(collection);
        let entry = tombstone_entry(id, now);
        proof {
            assert(entry_views(c.entries@.push(entry)) =~= entry_views(c.entries@).push(entry@));
        }
        c.entries.push(entry);
        c.mtime = now;
        drop_row(&mut c.rows, id);
        self.attach(c);
        proof {
            assert(final(self)@ =~= erased(old(self)@, collection@, id@, now));
        }
    }

    /// Deletes every record of `collection` whose field `field` equals
    /// `value`, one after the other, and says how many there were.
    pub fn delete_by_index(&mut self, collection: &str, field: &str, value: IndexValue, now: i64) -> (r:
        Result<usize, StoreError>)
        requires
            old(self).wf(),
        ensures
            final(self).wf(),
            match r {
                Ok(n) => {
                    let rows = listing_of(
                        collection_in(old(self)@, collection@),
                        seq![FilterView { field: field@, op: FilterOp::Eq, value: value@ }],
                    );
                    &&& valid_collection(collection@)
                    &&& valid_field(field@)
                    &&& n == rows.len()
                    &&& final(self)@ == erased_all(old(self)@, collection@, row_ids(rows), now)
                },
                Err(e) => final(self)@ == old(self)@ && if !valid_collection(collection@) {
                    e == StoreError::InvalidCollection
                } else {
                    e == StoreError::InvalidField && !valid_field(field@)
                },
            },
    {
        let mut filters: Vec<Filter> = Vec::new();
        filters.push(Filter { field: String::from_str(field), op: FilterOp::Eq, value });
        let ghost fv = seq![FilterView { field: field@, op: FilterOp::Eq, value: value@ }];
        proof {
            assert(filter_views(filters@) =~= fv);
            assert(fv[0].field == field@);
        }
        let rows = match self.list(collection, &filters) {
            Ok(rows) => rows,
            Err(e) => {
                proof {
                    if valid_collection(collection@) {
                        let k = choose|k: int| 0 <= k < fv.len() && !valid_field((#[trigger] fv[k]).field);
                        assert(fv[k].field == field@);
                    }
                }
                return Err(e);
            },
        };
        let ghost rv = row_views(rows@);
        let ghost ids = row_ids(rv);
        let mut i: usize = 0;
        proof {
            assert(ids.take(0) =~= Seq::empty());
            lemma_listing_of(rv, collection_in(self@, collection@), fv);
        }
        while i < rows.len()
            invariant
                i <= rows.len(),
                self.wf(),
                rv == row_views(rows@),
                ids == row_ids(rv),
                self@ == erased_all(old(self)@, collection@, ids.take(i as int), now),
            decreases rows.len() - i,
        {
            proof {
                assert(ids.take(i + 1).drop_last() =~= ids.take(i as int));
                assert(ids.take(i + 1).last() == rows@[i as int].id@);
            }
            self.erase(collection, rows[i].id.as_str(), now);
            i = i + 1;
        }
        proof {
            assert(ids.take(i as int) =~= ids);
        }
        Ok(rows.len())
    }

    /// The entries of the log of `collection`, in the order in which they
    /// were appended; none where the store has no such collection.
    pub fn log_entries(&self, collection: &str) -> (r: Vec<LogEntry>)
        requires
            self.wf(),
        ensures
            entry_views(r@) == collection_in(self@, collection@).entries,
    {
        match self.find_collection(collection) {
            None => {
                proof {
                    lemma_keyed_absent(self.collections@, coll_key(), coll_val(), collection@);
                }
                let r: Vec<LogEntry> = Vec::new();
                assert(entry_views(r@) =~= Seq::empty());
                r
            },
            Some(at) => {
                proof {
                    lemma_keyed_at(self.collections@, coll_key(), coll_val(), at as int);
                }
                let c = &self.collections[at];
                let mut r: Vec<LogEntry> = Vec::new();
                let mut i: usize = 0;
                while i < c.entries.len()
                    invariant
                        i <= c.entries.len(),
                        r.len() == i,
                        forall|k: int| 0 <= k < i ==> (#[trigger] r@[k])@ == c.entries@[k]@,
                    decreases c.entries.len() - i,
                {
                    r.push(c.entries[i].clone());
                    i = i + 1;
                }
                assert(entry_views(r@) =~= entry_views(c.entries@));
                r
            },
        }
    }

    /// When `collection` was last rebuilt, if it ever was.
    pub fn sync_mark(&self, collection: &str) -> (r: Option<SyncMark>)
        requires
            self.wf(),
        ensures
            r == collection_in(self@, collection@).synced,
    {
        match self.find_collection(collection) {
            None => {
                proof {
                    lemma_keyed_absent(self.collections@, coll_key(), coll_val(), collection@);
                }
                None
            },
            Some(at) => {
                proof {
                    lemma_keyed_at(self.collections@, coll_key(), coll_val(), at as int);
                }
                self.collections[at].synced
            },
        }
    }

    /// Whether the cache of any collection may be behind its log.
    pub fn is_stale(&self) -> (r: bool)
        requires
            self.wf(),
        ensures
            r == stale(self@),
    {
        let mut i: usize = 0;
        while i < self.collections.len()
            invariant
                i <= self.collections.len(),
                self.wf(),
                forall|k: int| 0 <= k < i ==> !needs_sync((#[trigger] self.collections@[k]).view()),
            decreases self.collections.len() - i,
        {
            let c = &self.collections[i];
            if needs_rebuild(c.mtime, c.synced) {
                proof {
                    lemma_keyed_at(self.collections@, coll_key(), coll_val(), i as int);
                }
                return true;
            }
            i = i + 1;
        }
        proof {
            if stale(self@) {
                let name = choose|name: Seq<char>|
                    self@.dom().contains(name) && needs_sync(#[trigger] self@[name]);
                let k = place_of(self.collections@, coll_key(), name);
                lemma_keyed_at(self.collections@, coll_key(), coll_val(), k);
            }
        }
        false
    }

    /// Rebuilds the cache from the logs: every collection's rows become what
    /// its log gives, without indexed fields, and the collection is marked as
    /// read at `now`. The logs stay as they are.
    pub fn sync(&mut self, now: i64)
        requires
            old(self).wf(),
        ensures
            final(self).wf(),
            final(self)@ == synced(old(self)@, now),
    {
        let ghost before = self.collections@;
        let n = self.collections.len();
        let mut i: usize = 0;
        while i < n
            invariant
                i <= n,
                n == before.len(),
                self.collections.len() == n,
                forall|k: int|
                    0 <= k < n ==> (#[trigger] self.collections@[k]).name@ == before[k].name@
                        && self.collections@[k].wf(),
                forall|k: int|
                    0 <= k < i ==> (#[trigger] self.collections@[k]).view() == rebuilt(
                        before[k].view(),
                        now,
                    ),
                forall|k: int| i <= k < n ==> (#[trigger] self.collections@[k]) == before[k],
            decreases n - i,
        {
            let ghost mid = self.collections@;
            let c = self.collections.remove(i);
            let c2 = rebuild(c, now);
            self.collections.insert(i, c2);
            proof {
                assert(self.collections@ =~= mid.update(i as int, c2));
            }
            i = i + 1;
        }
        proof {
            let after = self.collections@;
            assert forall|a: int, b: int|
                0 <= a < after.len() && 0 <= b < after.len() && coll_key()(#[trigger] after[a])
                    == coll_key()(#[trigger] after[b]) implies a == b by {
                assert(coll_key()(before[a]) == coll_key()(before[b]));
            }
            let x = keyed_map(after, coll_key(), coll_val());
            let y = synced(keyed_map(before, coll_key(), coll_val()), now);
            assert forall|name: Seq<char>| x.dom().contains(name) <==> y.dom().contains(name) by {
                if has_key(after, coll_key(), name) {
                    let k = place_of(after, coll_key(), name);
                    assert(coll_key()(before[k]) == name);
                }
                if has_key(before, coll_key(), name) {
                    let k = place_of(before, coll_key(), name);
                    assert(coll_key()(after[k]) == name);
                }
            }
            assert forall|name: Seq<char>| x.dom().contains(name) implies x[name] == y[name] by {
                let k = place_of(after, coll_key(), name);
                assert(coll_key()(before[k]) == name);
                lemma_keyed_at(after, coll_key(), coll_val(), k);
                lemma_keyed_at(before, coll_key(), coll_val(), k);
            }
            assert(x =~= y);
        }
    }

    /// Takes the log of `collection` anew from its text, as it was last
    /// changed at `mtime`. Lines that are not JSON or name no id are passed
    /// over, and their numbers are handed back, those that are not JSON
    /// first. The cache is left as it is.
    pub fn load_log(&mut self, collection: &str, text: &str, mtime: i64) -> (r: Result<
        Vec<usize>,
        StoreError,
    >)
        requires
            old(self).wf(),
        ensures
            final(self).wf(),
            match r {
                Ok(skipped) => {
                    &&& valid_collection(collection@)
                    &&& final(self)@ == reloaded(old(self)@, collection@, text@, mtime)
                    &&& skipped@ == crate::jsonl::malformed_in(lines_of(text@))
                        + crate::jsonl::anonymous_in(lines_of(text@))
                },
                Err(e) => !valid_collection(collection@) && e == StoreError::InvalidCollection
                    && final(self)@ == old(self)@,
            },
    {
        if validate_collection(collection).is_err() {
            return Err(StoreError::InvalidCollection);
        }
        let scan = scan_log(text);
        let mut c = self.detach(collection);
        c.entries = scan.entries;
        c.mtime = mtime;
        self.attach(c);
        let mut skipped = scan.malformed;
        let mut rest = scan.anonymous;
        skipped.append(&mut rest);
        proof {
            assert(final(self)@ =~= reloaded(old(self)@, collection@, text@, mtime));
        }
        Ok(skipped)
    }

    /// Writes a record of a storable type, given with its JSON text: to the
    /// collection of its type, under the id and the time of change that the
    /// record gives of itself, with the fields that it asks to be indexed.
    /// The outcome is that of `create` on what the record gave: one record
    /// written with the text that was handed in, or the refusal of it.
    pub fn create_record<T: Record>(&mut self, record: &T, payload: &str, now: i64) -> (r: Result<
        String,
        StoreError,
    >)
        requires
            old(self).wf(),
        ensures
            final(self).wf(),
            exists|collection: Seq<char>, row: RowView|
                row.payload == payload@ && #[trigger] is_created(
                    old(self)@,
                    final(self)@,
                    r,
                    collection,
                    row,
                    now,
                ),
    {
        let fields = record.indexed_fields();
        let collection = T::collection_name();
        let id = record.id();
        let updated_at = record.updated_at();
        let ghost row = RowView { id: id@, payload: payload@, updated_at, fields: field_views(fields@) };
        let r = self.create(collection, id, updated_at, payload, fields, now);
        proof {
            // what the record gave of itself bears the outcome out
            let given = collection@;
            assert(row.payload == payload@);
            assert(is_created(old(self)@, final(self)@, r, given, row, now));
        }
        r
    }

    /// Writes a record of a storable type that the cache holds already.
    /// The outcome is that of `update` on what the record gave: one record
    /// written over a row that was there, with the text that was handed
    /// in, or the refusal of it, `NotFound` where no row was there.
    pub fn update_record<T: Record>(&mut self, record: &T, payload: &str, now: i64) -> (r: Result<
        String,
        StoreError,
    >)
        requires
            old(self).wf(),
        ensures
            final(self).wf(),
            exists|collection: Seq<char>, row: RowView|
                row.payload == payload@ && #[trigger] is_updated(
                    old(self)@,
                    final(self)@,
                    r,
                    collection,
                    row,
                    now,
                ),
    {
        let fields = record.indexed_fields();
        let collection = T::collection_name();
        let id = record.id();
        let updated_at = record.updated_at();
        let ghost row = RowView { id: id@, payload: payload@, updated_at, fields: field_views(fields@) };
        let r = self.update(collection, id, updated_at, payload, fields, now);
        proof {
            // what the record gave of itself bears the outcome out
            let given = collection@;
            assert(row.payload == payload@);
            assert(row.id == id@);
            assert(is_updated(old(self)@, final(self)@, r, given, row, now));
        }
        r
    }

    /// Files anew the indexed fields of the given records of one type, as a
    /// rebuild of the cache leaves them unfiled: one filing for each record,
    /// in the records' order, all in the collection of the type. A record
    /// whose row the cache does not hold, or whose field names are refused,
    /// is passed over. Says how many records were filed.
    pub fn rebuild_indexes<T: Record>(&mut self, records: &Vec<T>) -> (n: usize)
        requires
            old(self).wf(),
        ensures
            final(self).wf(),
            same_but_fields(old(self)@, final(self)@),
            n <= records.len(),
            exists|filings: Seq<Filing>| #[trigger]
                is_refiled(old(self)@, final(self)@, n as nat, records.len() as nat, filings),
    {
        let collection = T::collection_name();
        let ghost mut filings: Seq<Filing> = Seq::empty();
        let mut n: usize = 0;
        let mut i: usize = 0;
        proof {
            lemma_same_reflexive(self@);
        }
        while i < records.len()
            invariant
                i <= records.len(),
                n <= i,
                self.wf(),
                same_but_fields(old(self)@, self@),
                filings.len() == i,
                forall|k: int|
                    0 <= k < filings.len() ==> (#[trigger] filings[k]).collection == collection@,
                self@ == filed_all(old(self)@, filings),
                n == filed_count(old(self)@, filings),
            decreases records.len() - i,
        {
            let ghost mid = self@;
            let fields = records[i].indexed_fields();
            let ghost fv = field_views(fields@);
            let id = records[i].id();
            let ghost filing = Filing { collection: collection@, id: id@, fields: fv };
            let r = self.set_fields(collection, id, fields);
            proof {
                if r is Ok {
                    lemma_reindexed_same(mid, collection@, id@, fv);
                } else {
                    lemma_same_reflexive(mid);
                }
                lemma_same_transitive(old(self)@, mid, self@);
                assert(r is Ok <==> files(mid, filing));
                assert(self@ == filed(mid, filing));
                let next = filings.push(filing);
                assert(next.drop_last() =~= filings);
                assert(next.last() == filing);
                filings = next;
            }
            if r.is_ok() {
                n = n + 1;
            }
            i = i + 1;
        }
        proof {
            assert(is_refiled(old(self)@, self@, n as nat, records.len() as nat, filings));
        }
        n
    }

    /// Sets the fields under which the row `id` of `collection` is indexed.
    /// Nothing is written to the log. A row that the cache does not hold is
    /// `NotFound`.
    pub fn set_fields(&mut self, collection: &str, id: &str, fields: Vec<IndexField>) -> (r: Result<
        (),
        StoreError,
    >)
        requires
            old(self).wf(),
        ensures
            final(self).wf(),
            match r {
                Ok(_) => {
                    &&& valid_fields(field_views(fields@))
                    &&& row_in(old(self)@, collection@, id@) is Some
                    &&& final(self)@ == reindexed(
                        old(self)@,
                        collection@,
                        id@,
                        field_views(fields@),
                    )
                },
                Err(e) => final(self)@ == old(self)@ && if !valid_fields(field_views(fields@)) {
                    e == StoreError::InvalidField
                } else {
                    e == StoreError::NotFound && row_in(old(self)@, collection@, id@) is None
                },
            },
    {
        if validate_fields(&fields).is_err() {
            return Err(StoreError::InvalidField);
        }
        if self.find_collection(collection).is_none() {
            proof {
                lemma_keyed_absent(self.collections@, coll_key(), coll_val(), collection@);
            }
            return Err(StoreError::NotFound);
        }
        let mut c = self.detach(collection);
        let ghost held_rows = c.rows@;
        match find_row(&c.rows, id) {
            None => {
                proof {
                    lemma_keyed_absent(c.rows@, row_key(), row_val(), id@);
                }
                self.attach(c);
                proof {
                    assert(final(self)@ =~= old(self)@);
                }
                Err(StoreError::NotFound)
            },
            Some(k) => {
                proof {
                    lemma_keyed_at(held_rows, row_key(), row_val(), k as int);
                    lemma_keyed_remove(held_rows, row_key(), row_val(), k as int);
                }
                let held = c.rows.remove(k);
                let row = CachedRecord {
                    id: held.id,
                    payload: held.payload,
                    updated_at: held.updated_at,
                    fields,
                };
                put_row(&mut c.rows, row);
                proof {
                    let m = keyed_map(held_rows, row_key(), row_val());
                    assert(m.remove(id@).insert(id@, row@) =~= m.insert(id@, row@));
                }
                self.attach(c);
                proof {
                    assert(final(self)@ =~= reindexed(
                        old(self)@,
                        collection@,
                        id@,
                        field_views(fields@),
                    ));
                }
                Ok(())
            },
        }
    }
}

/// The rows of the entries that are no tombstones, in the entries' order.
spec fn live_rows(tv: Seq<EntryView>) -> Seq<RowView>
    decreases tv.len(),
{
    if tv.len() == 0 {
        Seq::empty()
    } else {
        let rest = live_rows(tv.drop_last());
        if tv.last().deleted {
            rest
        } else {
            rest.push(row_of_entry(tv.last()))
        }
    }
}

/// `r` is the row of an entry of `tv` that is no tombstone.
spec fn from_live(tv: Seq<EntryView>, r: RowView) -> bool {
    exists|j: int| 0 <= j < tv.len() && !(#[trigger] tv[j]).deleted && r == row_of_entry(tv[j])
}

/// `rs` holds `r`.
spec fn in_rows(rs: Seq<RowView>, r: RowView) -> bool {
    exists|m: int| 0 <= m < rs.len() && #[trigger] rs[m] == r
}

proof fn lemma_live_rows(tv: Seq<EntryView>)
    ensures
        forall|m: int| 0 <= m < live_rows(tv).len() ==> from_live(tv, #[trigger] live_rows(tv)[m]),
        forall|j: int|
            0 <= j < tv.len() && !(#[trigger] tv[j]).deleted ==> in_rows(
                live_rows(tv),
                row_of_entry(tv[j]),
            ),
        ascending(entry_ids(tv)) ==> ascending(row_ids(live_rows(tv))),
    decreases tv.len(),
{
    if tv.len() > 0 {
        let head = tv.drop_last();
        let rest = live_rows(head);
        let live = live_rows(tv);
        lemma_live_rows(head);
        assert forall|m: int| 0 <= m < live.len() implies from_live(tv, #[trigger] live[m]) by {
            if m < rest.len() {
                assert(live[m] == rest[m]);
                assert(from_live(head, rest[m]));
                let j = choose|j: int|
                    0 <= j < head.len() && !(#[trigger] head[j]).deleted && rest[m] == row_of_entry(
                        head[j],
                    );
                assert(tv[j] == head[j]);
            } else {
                assert(!tv[tv.len() - 1].deleted);
            }
        }
        assert forall|j: int| 0 <= j < tv.len() && !(#[trigger] tv[j]).deleted implies in_rows(
            live,
            row_of_entry(tv[j]),
        ) by {
            if j < head.len() {
                assert(tv[j] == head[j]);
                assert(in_rows(rest, row_of_entry(head[j])));
                let m = choose|m: int| 0 <= m < rest.len() && #[trigger] rest[m] == row_of_entry(head[j]);
                assert(live[m] == rest[m]);
            } else {
                assert(live[rest.len() as int] == row_of_entry(tv[j]));
            }
        }
        if ascending(entry_ids(tv)) {
            let ids = entry_ids(tv);
            assert forall|a: int, b: int| 0 <= a < b < head.len() implies id_lt(
                #[trigger] entry_ids(head)[a],
                #[trigger] entry_ids(head)[b],
            ) by {
                assert(entry_ids(head)[a] == ids[a]);
                assert(entry_ids(head)[b] == ids[b]);
            }
            let lids = row_ids(live);
            assert forall|a: int, b: int| 0 <= a < b < lids.len() implies id_lt(
                #[trigger] lids[a],
                #[trigger] lids[b],
            ) by {
                if b < rest.len() {
                    assert(lids[a] == row_ids(rest)[a]);
                    assert(lids[b] == row_ids(rest)[b]);
                } else {
                    assert(live[a] == rest[a]);
                    assert(from_live(head, rest[a]));
                    let j = choose|j: int|
                        0 <= j < head.len() && !(#[trigger] head[j]).deleted && rest[a]
                            == row_of_entry(head[j]);
                    assert(ids[j] == head[j].id);
                    assert(ids[tv.len() - 1] == tv.last().id);
                    assert(id_lt(ids[j], ids[tv.len() - 1]));
                }
            }
        }
    }
}

/// Rows that are the live rows of a table of latest entries are what the
/// log gives.
proof fn lemma_live_is_materialized(rows: Seq<CachedRecord>, tv: Seq<EntryView>, ev: Seq<EntryView>)
    requires
        row_views(rows) == live_rows(tv),
        is_latest_table(tv, ev),
    ensures
        unique_keys(rows, row_key()),
        keyed_map(rows, row_key(), row_val()) == materialized(ev),
{
    let live = live_rows(tv);
    lemma_live_rows(tv);
    let lids = row_ids(live);
    assert forall|a: int, b: int|
        0 <= a < rows.len() && 0 <= b < rows.len() && row_key()(#[trigger] rows[a]) == row_key()(
            #[trigger] rows[b],
        ) implies a == b by {
        assert(live[a] == rows[a]@);
        assert(live[b] == rows[b]@);
        assert(lids[a] == rows[a].id@);
        assert(lids[b] == rows[b].id@);
        lemma_id_lt_irreflexive(lids[a]);
        if a < b {
            assert(id_lt(lids[a], lids[b]));
        } else if b < a {
            assert(id_lt(lids[b], lids[a]));
        }
    }
    let x = keyed_map(rows, row_key(), row_val());
    let y = materialized(ev);
    assert forall|id: Seq<char>| x.dom().contains(id) <==> y.dom().contains(id) by {
        if has_key(rows, row_key(), id) {
            let m = place_of(rows, row_key(), id);
            assert(live[m] == rows[m]@);
            assert(from_live(tv, live[m]));
            let j = choose|j: int|
                0 <= j < tv.len() && !(#[trigger] tv[j]).deleted && live[m] == row_of_entry(tv[j]);
            assert(latest_in(ev, tv[j].id) == Some(tv[j]));
        }
        if y.dom().contains(id) {
            let j = choose|j: int| 0 <= j < tv.len() && (#[trigger] tv[j]).id == id;
            assert(latest_in(ev, tv[j].id) == Some(tv[j]));
            assert(in_rows(live, row_of_entry(tv[j])));
            let m = choose|m: int| 0 <= m < live.len() && #[trigger] live[m] == row_of_entry(tv[j]);
            assert(live[m] == rows[m]@);
            assert(row_key()(rows[m]) == id);
        }
    }
    assert forall|id: Seq<char>| x.dom().contains(id) implies x[id] == y[id] by {
        let m = place_of(rows, row_key(), id);
        lemma_keyed_at(rows, row_key(), row_val(), m);
        assert(live[m] == rows[m]@);
        assert(from_live(tv, live[m]));
        let j = choose|j: int|
            0 <= j < tv.len() && !(#[trigger] tv[j]).deleted && live[m] == row_of_entry(tv[j]);
        assert(latest_in(ev, tv[j].id) == Some(tv[j]));
    }
    assert(x =~= y);
}

/// The rows that a log gives.
fn materialize(entries: &Vec<LogEntry>) -> (rows: Vec<CachedRecord>)
    ensures
        unique_keys(rows@, row_key()),
        keyed_map(rows@, row_key(), row_val()) == materialized(entry_views(entries@)),
{
    let ghost ev = entry_views(entries@);
    let table = latest_entries(entries);
    let ghost tv = entry_views(table@);
    let mut rows: Vec<CachedRecord> = Vec::new();
    let mut k: usize = 0;
    proof {
        assert(tv.take(0) =~= Seq::empty());
        assert(row_views(rows@) =~= Seq::empty());
    }
    while k < table.len()
        invariant
            k <= table.len(),
            tv == entry_views(table@),
            row_views(rows@) == live_rows(tv.take(k as int)),
        decreases table.len() - k,
    {
        let e = &table[k];
        proof {
            assert(tv.take(k + 1).drop_last() =~= tv.take(k as int));
            assert(tv.take(k + 1).last() == e@);
        }
        if !e.deleted {
            let row = CachedRecord {
                id: e.id.clone(),
                payload: e.payload.clone(),
                updated_at: e.updated_at,
                fields: Vec::new(),
            };
            proof {
                assert(field_views(row.fields@) =~= Seq::empty());
                assert(row_views(rows@.push(row)) =~= row_views(rows@).push(row@));
            }
            rows.push(row);
        }
        k = k + 1;
    }
    proof {
        assert(tv.take(k as int) =~= tv);
        lemma_live_is_materialized(rows@, tv, ev);
    }
    rows
}

/// A collection with its cache rebuilt from its log.
fn rebuild(c: Collection, now: i64) -> (r: Collection)
    ensures
        r.wf(),
        r.name@ == c.name@,
        r.view() == rebuilt(c.view(), now),
{
    let rows = materialize(&c.entries);
    Collection {
        name: c.name,
        entries: c.entries,
        mtime: c.mtime,
        synced: Some(SyncMark { last_sync_time: now, log_mtime_at_sync: c.mtime }),
        rows,
    }
}

pub(crate) fn before(a: &CachedRecord, b: &CachedRecord) -> (r: bool)
    ensures
        r == row_before(a@, b@),
{
    a.updated_at > b.updated_at || (a.updated_at == b.updated_at && str_lt(
        a.id.as_str(),
        b.id.as_str(),
    ))
}

/// Whether `rows` holds a row that reads as `r`.
spec fn holds_row(rows: Seq<CachedRecord>, r: RowView) -> bool {
    exists|j: int| 0 <= j < rows.len() && (#[trigger] rows[j])@ == r
}

/// The rows at the positions `order`.
spec fn chosen(rows: Seq<CachedRecord>, order: Seq<usize>) -> Seq<RowView> {
    order.map_values(|i: usize| rows[i as int]@)
}

/// The order of a listing is transitive.
pub proof fn lemma_row_before_transitive(a: RowView, b: RowView, c: RowView)
    requires
        row_before(a, b),
        row_before(b, c),
    ensures
        row_before(a, c),
{
    if a.updated_at == b.updated_at && b.updated_at == c.updated_at {
        lemma_id_lt_transitive(a.id, b.id, c.id);
    }
}

proof fn lemma_row_before_total(a: RowView, b: RowView)
    requires
        a.id != b.id,
    ensures
        row_before(a, b) || row_before(b, a),
{
    lemma_id_lt_total(a.id, b.id);
}

/// Puts the position `i` into `order` where its row belongs in a listing.
fn insert_ordered(rows: &Vec<CachedRecord>, order: &mut Vec<usize>, i: usize) -> (pos: usize)
    requires
        unique_keys(rows@, row_key()),
        i < rows.len(),
        forall|k: int| 0 <= k < old(order).len() ==> (#[trigger] old(order)@[k]) < i,
        newest_first(chosen(rows@, old(order)@)),
    ensures
        pos <= old(order).len(),
        final(order)@ == old(order)@.insert(pos as int, i),
        newest_first(chosen(rows@, final(order)@)),
{
    let ghost before_rows = chosen(rows@, order@);
    let mut pos: usize = 0;
    while pos < order.len() && before(&rows[order[pos]], &rows[i])
        invariant
            pos <= order.len(),
            order@ == old(order)@,
            i < rows.len(),
            forall|k: int| 0 <= k < order.len() ==> (#[trigger] order@[k]) < i,
            forall|k: int| 0 <= k < pos ==> row_before(#[trigger] before_rows[k], rows@[i as int]@),
            before_rows == chosen(rows@, order@),
        decreases order.len() - pos,
    {
        assert(before_rows[pos as int] == rows@[order@[pos as int] as int]@);
        pos = pos + 1;
    }
    proof {
        let x = rows@[i as int]@;
        assert forall|k: int| pos <= k < order.len() implies row_before(
            x,
            #[trigger] before_rows[k],
        ) by {
            let p = order@[pos as int] as int;
            assert(before_rows[pos as int] == rows@[p]@);
            assert(p < i);
            assert(row_key()(rows@[p]) == rows@[p].id@);
            assert(row_key()(rows@[i as int]) == rows@[i as int].id@);
            if rows@[p].id@ == rows@[i as int].id@ {
                assert(p == i);
            }
            lemma_row_before_total(x, before_rows[pos as int]);
            if k > pos {
                lemma_row_before_transitive(x, before_rows[pos as int], before_rows[k]);
            }
        }
    }
    order.insert(pos, i);
    proof {
        let after = chosen(rows@, order@);
        assert forall|a: int, b: int| 0 <= a < b < after.len() implies row_before(
            #[trigger] after[a],
            #[trigger] after[b],
        ) by {
            let oa = if a < pos { a } else { a - 1 };
            let ob = if b < pos { b } else { b - 1 };
            if a != pos {
                assert(after[a] == before_rows[oa]);
            }
            if b != pos {
                assert(after[b] == before_rows[ob]);
            }
            if a != pos && b != pos {
                assert(row_before(before_rows[oa], before_rows[ob]));
            }
        }
    }
    pos
}

/// The rows that pass every filter, in the order of a listing.
fn select_rows(rows: &Vec<CachedRecord>, filters: &Vec<Filter>) -> (out: Vec<CachedRecord>)
    requires
        unique_keys(rows@, row_key()),
    ensures
        newest_first(row_views(out@)),
        forall|k: int| 0 <= k < out.len() ==> holds_row(rows@, (#[trigger] out@[k])@),
        forall|k: int|
            0 <= k < out.len() ==> passes_all((#[trigger] out@[k])@.fields, filter_views(filters@)),
        forall|j: int|
            0 <= j < rows.len() && passes_all((#[trigger] rows@[j])@.fields, filter_views(filters@))
                ==> holds_row(out@, rows@[j]@),
{
    let ghost fv = filter_views(filters@);
    let mut order: Vec<usize> = Vec::new();
    let mut i: usize = 0;
    assert(chosen(rows@, order@) =~= Seq::empty());
    while i < rows.len()
        invariant
            i <= rows.len(),
            unique_keys(rows@, row_key()),
            fv == filter_views(filters@),
            forall|k: int| 0 <= k < order.len() ==> (#[trigger] order@[k]) < i,
            newest_first(chosen(rows@, order@)),
            forall|k: int|
                0 <= k < order.len() ==> passes_all(rows@[(#[trigger] order@[k]) as int]@.fields, fv),
            forall|j: int|
                0 <= j < i && passes_all((#[trigger] rows@[j])@.fields, fv) ==> exists|k: int|
                    0 <= k < order.len() && order@[k] == j,
        decreases rows.len() - i,
    {
        if admits_all(filters, &rows[i].fields) {
            let ghost old_order = order@;
            let pos = insert_ordered(rows, &mut order, i);
            proof {
                assert forall|k: int| 0 <= k < order.len() implies (#[trigger] order@[k]) < i + 1
                    && passes_all(rows@[order@[k] as int]@.fields, fv) by {
                    if k < pos {
                        assert(order@[k] == old_order[k]);
                    } else if k > pos {
                        assert(order@[k] == old_order[k - 1]);
                    }
                }
                assert forall|j: int|
                    0 <= j < i + 1 && passes_all(
                        (#[trigger] rows@[j])@.fields,
                        fv,
                    ) implies exists|k: int| 0 <= k < order.len() && order@[k] == j by {
                    if j < i {
                        let k = choose|k: int| 0 <= k < old_order.len() && old_order[k] == j;
                        let k2 = if k < pos { k } else { k + 1 };
                        assert(order@[k2] == j);
                    } else {
                        assert(order@[pos as int] == j);
                    }
                }
            }
        }
        i = i + 1;
    }
    let mut out: Vec<CachedRecord> = Vec::new();
    let mut k: usize = 0;
    while k < order.len()
        invariant
            k <= order.len(),
            out.len() == k,
            fv == filter_views(filters@),
            forall|m: int| 0 <= m < order.len() ==> (#[trigger] order@[m]) < rows.len(),
            forall|m: int| 0 <= m < k ==> (#[trigger] out@[m])@ == rows@[order@[m] as int]@,
            forall|m: int|
                0 <= m < order.len() ==> passes_all(rows@[(#[trigger] order@[m]) as int]@.fields, fv),
            forall|j: int|
                0 <= j < rows.len() && passes_all((#[trigger] rows@[j])@.fields, fv) ==> exists|
                    m: int,
                | 0 <= m < order.len() && order@[m] == j,
        decreases order.len() - k,
    {
        out.push(rows[order[k]].clone());
        k = k + 1;
    }
    proof {
        assert(row_views(out@) =~= chosen(rows@, order@));
        assert forall|m: int| 0 <= m < out.len() implies holds_row(rows@, (#[trigger] out@[m])@)
            && passes_all(out@[m]@.fields, fv) by {
            let j = order@[m] as int;
            assert(rows@[j]@ == out@[m]@);
        }
        assert forall|j: int|
            0 <= j < rows.len() && passes_all((#[trigger] rows@[j])@.fields, fv) implies holds_row(
            out@,
            rows@[j]@,
        ) by {
            let m = choose|m: int| 0 <= m < order.len() && order@[m] == j;
            assert(out@[m]@ == rows@[j]@);
        }
    }
    out
}

/// The log entry that marks `id` as deleted at the time `now`; its text is
/// the line to append to the log.
pub fn tombstone_entry(id: &str, now: i64) -> (e: LogEntry)
    ensures
        e@ == tombstone(id@, now),
{
    LogEntry {
        id: String::from_str(id),
        updated_at: now,
        deleted: true,
        payload: marker_json(ID_KEY, id, STAMP_KEY, now, DELETED_KEY, true),
    }
}

/// Whether the cache of a collection may be behind its log, which was last
/// changed at `mtime`: it was never rebuilt, or the log has changed since.
pub fn needs_rebuild(mtime: i64, mark: Option<SyncMark>) -> (r: bool)
    ensures
        r == needs_sync(
            CollectionView { entries: Seq::empty(), mtime, synced: mark, rows: Map::empty() },
        ),
{
    match mark {
        None => true,
        Some(m) => mtime > m.log_mtime_at_sync,
    }
}

/// Puts a row in the place of the row of its id, or at the end.
fn put_row(rows: &mut Vec<CachedRecord>, row: CachedRecord)
    requires
        unique_keys(old(rows)@, row_key()),
    ensures
        unique_keys(final(rows)@, row_key()),
        keyed_map(final(rows)@, row_key(), row_val()) == keyed_map(
            old(rows)@,
            row_key(),
            row_val(),
        ).insert(row.id@, row@),
{
    match find_row(rows, row.id.as_str()) {
        Some(k) => {
            proof {
                lemma_keyed_update(rows@, row_key(), row_val(), k as int, row);
            }
            rows.set(k, row);
        },
        None => {
            proof {
                lemma_keyed_push(rows@, row_key(), row_val(), row);
            }
            rows.push(row);
        },
    }
}

/// Takes the row of `id` out, if there is one.
fn drop_row(rows: &mut Vec<CachedRecord>, id: &str)
    requires
        unique_keys(old(rows)@, row_key()),
    ensures
        unique_keys(final(rows)@, row_key()),
        keyed_map(final(rows)@, row_key(), row_val()) == keyed_map(
            old(rows)@,
            row_key(),
            row_val(),
        ).remove(id@),
{
    match find_row(rows, id) {
        Some(k) => {
            proof {
                lemma_keyed_remove(rows@, row_key(), row_val(), k as int);
            }
            rows.remove(k);
        },
        None => {
            proof {
                lemma_keyed_absent(rows@, row_key(), row_val(), id@);
                assert(keyed_map(rows@, row_key(), row_val()).remove(id@) =~= keyed_map(
                    rows@,
                    row_key(),
                    row_val(),
                ));
            }
        },
    }
}

fn find_row(rows: &Vec<CachedRecord>, id: &str) -> (r: Option<usize>)
    ensures
        match r {
            Some(i) => i < rows.len() && rows@[i as int].id@ == id@,
            None => forall|i: int| 0 <= i < rows.len() ==> (#[trigger] rows@[i]).id@ != id@,
        },
{
    let wanted = String::from_str(id);
    let mut i: usize = 0;
    while i < rows.len()
        invariant
            i <= rows.len(),
            wanted@ == id@,
            forall|k: int| 0 <= k < i ==> (#[trigger] rows@[k]).id@ != id@,
        decreases rows.len() - i,
    {
        if rows[i].id == wanted {
            return Some(i);
        }
        i = i + 1;
    }
    None
}

proof fn lemma_same_reflexive(a: StoreView)
    ensures
        same_but_fields(a, a),
{
}

proof fn lemma_same_transitive(a: StoreView, b: StoreView, c: StoreView)
    requires
        same_but_fields(a, b),
        same_but_fields(b, c),
    ensures
        same_but_fields(a, c),
{
    assert forall|name: Seq<char>| a.dom().contains(name) implies {
        &&& (#[trigger] a[name]).entries == c[name].entries
        &&& a[name].mtime == c[name].mtime
        &&& a[name].synced == c[name].synced
        &&& a[name].rows.dom() == c[name].rows.dom()
        &&& forall|id: Seq<char>|
            a[name].rows.dom().contains(id) ==> {
                &&& (#[trigger] a[name].rows[id]).id == c[name].rows[id].id
                &&& a[name].rows[id].payload == c[name].rows[id].payload
                &&& a[name].rows[id].updated_at == c[name].rows[id].updated_at
            }
    } by {
        assert(b.dom().contains(name));
        let x = a[name];
        let y = b[name];
        let z = c[name];
        assert(x.entries == y.entries && y.entries == z.entries);
        assert forall|id: Seq<char>| x.rows.dom().contains(id) implies {
            &&& (#[trigger] x.rows[id]).id == z.rows[id].id
            &&& x.rows[id].payload == z.rows[id].payload
            &&& x.rows[id].updated_at == z.rows[id].updated_at
        } by {
            assert(y.rows.dom().contains(id));
            assert(x.rows[id].id == y.rows[id].id);
            assert(y.rows[id].id == z.rows[id].id);
        }
    }
}

proof fn lemma_reindexed_same(
    v: StoreView,
    collection: Seq<char>,
    id: Seq<char>,
    fields: Seq<(Seq<char>, ValueView)>,
)
    requires
        row_in(v, collection, id) is Some,
    ensures
        same_but_fields(v, reindexed(v, collection, id, fields)),
{
    let w = reindexed(v, collection, id, fields);
    assert(v.dom().contains(collection));
    assert(w.dom() =~= v.dom());
    assert forall|name: Seq<char>| v.dom().contains(name) implies {
        &&& (#[trigger] v[name]).entries == w[name].entries
        &&& v[name].mtime == w[name].mtime
        &&& v[name].synced == w[name].synced
        &&& v[name].rows.dom() == w[name].rows.dom()
        &&& forall|k: Seq<char>|
            v[name].rows.dom().contains(k) ==> {
                &&& (#[trigger] v[name].rows[k]).id == w[name].rows[k].id
                &&& v[name].rows[k].payload == w[name].rows[k].payload
                &&& v[name].rows[k].updated_at == w[name].rows[k].updated_at
            }
    } by {
        if name == collection {
            assert(w[name].rows.dom() =~= v[name].rows.dom());
        }
    }
}

/// What was written is what is read: after a record is written, the cache
/// holds of its id exactly the row that was written.
pub proof fn law_create_then_get(v: StoreView, collection: Seq<char>, row: RowView, now: i64)
    ensures
        row_in(written(v, collection, row, now), collection, row.id) == Some(row),
{
}

/// After a record is deleted the cache holds nothing of its id.
pub proof fn law_delete_then_get(v: StoreView, collection: Seq<char>, id: Seq<char>, now: i64)
    ensures
        row_in(erased(v, collection, id, now), collection, id) is None,
{
}

/// Writing to one id leaves every other row of the cache as it was.
pub proof fn law_write_is_local(
    v: StoreView,
    collection: Seq<char>,
    row: RowView,
    now: i64,
    other_collection: Seq<char>,
    other_id: Seq<char>,
)
    requires
        other_collection != collection || other_id != row.id,
    ensures
        row_in(written(v, collection, row, now), other_collection, other_id) == row_in(
            v,
            other_collection,
            other_id,
        ),
{
}

/// A deleted id comes back: after a record is deleted and then written
/// again, the cache holds the row that was written.
pub proof fn law_delete_then_create(
    v: StoreView,
    collection: Seq<char>,
    row: RowView,
    deleted_at: i64,
    now: i64,
)
    ensures
        row_in(
            written(erased(v, collection, row.id, deleted_at), collection, row, now),
            collection,
            row.id,
        ) == Some(row),
{
}

/// An entry that is newer than every entry of its id is, once appended, the
/// latest of its id.
pub proof fn lemma_newer_is_latest(entries: Seq<EntryView>, e: EntryView)
    requires
        forall|i: int|
            0 <= i < entries.len() && (#[trigger] entries[i]).id == e.id ==> entries[i].updated_at
                < e.updated_at,
    ensures
        latest_in(entries.push(e), e.id) == Some(e),
{
    let all = entries.push(e);
    let keys = crate::jsonl::entry_keys(all);
    let last = entries.len() as int;
    assert forall|j: int| 0 <= j < keys.len() && (#[trigger] keys[j]).0 == keys[last].0 implies keys[j].1
        < keys[last].1 || (keys[j].1 == keys[last].1 && last <= j) by {
        if j < last {
            assert(all[j] == entries[j]);
        }
    }
    assert(is_latest(keys, last));
    crate::jsonl::lemma_latest_in(all, last);
}

/// The log bears the cache out: where a record is written with a time of
/// change newer than every entry that the log holds of its id, a rebuild of
/// the cache from the log gives the row that was written, but for its
/// indexed fields, which a rebuild does not file.
pub proof fn law_write_survives_sync(
    v: StoreView,
    collection: Seq<char>,
    row: RowView,
    now: i64,
    later: i64,
)
    requires
        forall|i: int|
            0 <= i < collection_in(v, collection).entries.len() && (#[trigger] collection_in(
                v,
                collection,
            ).entries[i]).id == row.id ==> collection_in(v, collection).entries[i].updated_at
                < row.updated_at,
    ensures
        row_in(synced(written(v, collection, row, now), later), collection, row.id) == Some(
            row_of_entry(entry_of_row(row)),
        ),
{
    lemma_newer_is_latest(collection_in(v, collection).entries, entry_of_row(row));
}

/// The log bears a deletion out: where a record is deleted at a time newer
/// than every entry that the log holds of its id, a rebuild of the cache
/// from the log gives no row of that id.
pub proof fn law_delete_survives_sync(
    v: StoreView,
    collection: Seq<char>,
    id: Seq<char>,
    now: i64,
    later: i64,
)
    requires
        forall|i: int|
            0 <= i < collection_in(v, collection).entries.len() && (#[trigger] collection_in(
                v,
                collection,
            ).entries[i]).id == id ==> collection_in(v, collection).entries[i].updated_at < now,
    ensures
        row_in(synced(erased(v, collection, id, now), later), collection, id) is None,
{
    lemma_newer_is_latest(collection_in(v, collection).entries, tombstone(id, now));
}

/// A deleted id comes back for good: where a record is deleted and then
/// written again with a time of change newer than the deletion and than
/// every entry that the log held of its id, a rebuild of the cache from the
/// log gives the row that was written last.
pub proof fn law_resurrection_survives_sync(
    v: StoreView,
    collection: Seq<char>,
    row: RowView,
    deleted_at: i64,
    now: i64,
    later: i64,
)
    requires
        deleted_at < row.updated_at,
        forall|i: int|
            0 <= i < collection_in(v, collection).entries.len() && (#[trigger] collection_in(
                v,
                collection,
            ).entries[i]).id == row.id ==> collection_in(v, collection).entries[i].updated_at
                < row.updated_at,
    ensures
        row_in(
            synced(
                written(erased(v, collection, row.id, deleted_at), collection, row, now),
                later,
            ),
            collection,
            row.id,
        ) == Some(row_of_entry(entry_of_row(row))),
{
    let before = collection_in(v, collection).entries;
    let mid = before.push(tombstone(row.id, deleted_at));
    assert(collection_in(erased(v, collection, row.id, deleted_at), collection).entries == mid);
    assert forall|i: int| 0 <= i < mid.len() && (#[trigger] mid[i]).id == row.id implies mid[i].updated_at
        < row.updated_at by {
        if i < before.len() {
            assert(mid[i] == before[i]);
        }
    }
    lemma_newer_is_latest(mid, entry_of_row(row));
}

/// A rebuild of the cache depends on the logs alone: rebuilding once more,
/// at whatever time, gives the same rows.
pub proof fn law_sync_idempotent(v: StoreView, first: i64, second: i64)
    ensures
        synced(synced(v, first), second).dom() == synced(v, first).dom(),
        forall|name: Seq<char>|
            v.dom().contains(name) ==> (#[trigger] synced(synced(v, first), second)[name]).rows
                == synced(v, first)[name].rows && synced(synced(v, first), second)[name].entries
                == v[name].entries,
{
    assert(synced(synced(v, first), second).dom() =~= synced(v, first).dom());
}

/// After a rebuild the store is not stale.
pub proof fn law_sync_freshens(v: StoreView, now: i64)
    ensures
        !stale(synced(v, now)),
{
}

/// A listing is a function of the collection and the filters: two
/// listings of one collection under the same filters are the same.
pub proof fn law_listing_is_determined(
    x: Seq<RowView>,
    y: Seq<RowView>,
    c: CollectionView,
    filters: Seq<FilterView>,
)
    requires
        is_listing(x, c, filters),
        is_listing(y, c, filters),
    ensures
        x == y,
{
    let lt = |a: RowView, b: RowView| row_before(a, b);
    assert forall|a: RowView| !#[trigger] lt(a, a) by {
        lemma_id_lt_irreflexive(a.id);
    }
    assert forall|a: RowView, b: RowView, d: RowView|
        #![trigger lt(a, b), lt(b, d)]
        lt(a, b) && lt(b, d) implies lt(a, d) by {
        lemma_row_before_transitive(a, b, d);
    }
    assert forall|r: RowView| x.contains(r) <==> y.contains(r) by {
        if x.contains(r) {
            let k = choose|k: int| 0 <= k < x.len() && x[k] == r;
            assert(c.rows[x[k].id] == r);
            let m = choose|m: int| 0 <= m < y.len() && (#[trigger] y[m]).id == r.id;
            assert(c.rows[y[m].id] == y[m]);
        }
        if y.contains(r) {
            let k = choose|k: int| 0 <= k < y.len() && y[k] == r;
            assert(c.rows[y[k].id] == r);
            let m = choose|m: int| 0 <= m < x.len() && (#[trigger] x[m]).id == r.id;
            assert(c.rows[x[m].id] == x[m]);
        }
    }
    crate::order::lemma_sorted_unique(x, y, lt);
}

/// Rows that are a listing are the listing.
pub proof fn lemma_listing_of(rows: Seq<RowView>, c: CollectionView, filters: Seq<FilterView>)
    requires
        is_listing(rows, c, filters),
    ensures
        rows == listing_of(c, filters),
{
    law_listing_is_determined(rows, listing_of(c, filters), c, filters);
}

/// The cache of a collection agrees with its log: it holds a row of
/// exactly the ids that the log gives one of, with the text and the time of
/// change that the log gives. The indexed fields are the cache's own.
pub open spec fn agrees_with_log(c: CollectionView) -> bool {
    &&& c.rows.dom() == materialized(c.entries).dom()
    &&& forall|id: Seq<char>|
        c.rows.dom().contains(id) ==> {
            &&& (#[trigger] c.rows[id]).id == materialized(c.entries)[id].id
            &&& c.rows[id].payload == materialized(c.entries)[id].payload
            &&& c.rows[id].updated_at == materialized(c.entries)[id].updated_at
        }
}

/// An entry that is appended to a log leaves the latest entry of every
/// other id as it was.
pub proof fn lemma_other_ids_keep_their_latest(entries: Seq<EntryView>, e: EntryView, id: Seq<char>)
    requires
        id != e.id,
    ensures
        latest_in(entries.push(e), id) == latest_in(entries, id),
{
    let all = entries.push(e);
    let ka = crate::jsonl::entry_keys(all);
    let k = crate::jsonl::entry_keys(entries);
    assert forall|i: int| 0 <= i < entries.len() && entries[i].id == id implies (is_latest(ka, i)
        <==> is_latest(k, i)) by {
        assert(ka[i] == k[i]);
        if is_latest(ka, i) {
            assert forall|j: int| 0 <= j < k.len() && (#[trigger] k[j]).0 == k[i].0 implies k[j].1
                < k[i].1 || (k[j].1 == k[i].1 && i <= j) by {
                assert(ka[j] == k[j]);
            }
        }
        if is_latest(k, i) {
            assert forall|j: int| 0 <= j < ka.len() && (#[trigger] ka[j]).0 == ka[i].0 implies ka[j].1
                < ka[i].1 || (ka[j].1 == ka[i].1 && i <= j) by {
                if j < k.len() {
                    assert(ka[j] == k[j]);
                } else {
                    assert(ka[j].0 == e.id);
                }
            }
        }
    }
    if exists|i: int| is_latest(ka, i) && all[i].id == id {
        let i = choose|i: int| is_latest(ka, i) && all[i].id == id;
        assert(i < entries.len());
        assert(all[i] == entries[i]);
        assert(is_latest(k, i));
        crate::jsonl::lemma_latest_in(entries, i);
        crate::jsonl::lemma_latest_in(all, i);
    } else if exists|i: int| is_latest(k, i) && entries[i].id == id {
        let i = choose|i: int| is_latest(k, i) && entries[i].id == id;
        assert(all[i] == entries[i]);
        assert(is_latest(ka, i));
    }
}

/// A rebuild makes the cache agree with the log, in every collection.
pub proof fn law_sync_agrees(v: StoreView, now: i64)
    ensures
        forall|name: Seq<char>|
            v.dom().contains(name) ==> agrees_with_log(#[trigger] synced(v, now)[name]),
{
}

/// A write keeps the cache in agreement with the log, provided that the
/// record's time of change is newer than every entry that the log holds of
/// its id.
pub proof fn law_write_keeps_agreement(v: StoreView, collection: Seq<char>, row: RowView, now: i64)
    requires
        agrees_with_log(collection_in(v, collection)),
        forall|i: int|
            0 <= i < collection_in(v, collection).entries.len() && (#[trigger] collection_in(
                v,
                collection,
            ).entries[i]).id == row.id ==> collection_in(v, collection).entries[i].updated_at
                < row.updated_at,
    ensures
        agrees_with_log(collection_in(written(v, collection, row, now), collection)),
{
    let c = collection_in(v, collection);
    let d = collection_in(written(v, collection, row, now), collection);
    let e = entry_of_row(row);
    lemma_newer_is_latest(c.entries, e);
    assert forall|id: Seq<char>| d.rows.dom().contains(id) <==> materialized(
        d.entries,
    ).dom().contains(id) by {
        if id != row.id {
            lemma_other_ids_keep_their_latest(c.entries, e, id);
            assert(c.rows.dom().contains(id) <==> materialized(c.entries).dom().contains(id));
        }
    }
    assert(d.rows.dom() =~= materialized(d.entries).dom());
    assert forall|id: Seq<char>| d.rows.dom().contains(id) implies {
        &&& (#[trigger] d.rows[id]).id == materialized(d.entries)[id].id
        &&& d.rows[id].payload == materialized(d.entries)[id].payload
        &&& d.rows[id].updated_at == materialized(d.entries)[id].updated_at
    } by {
        if id != row.id {
            lemma_other_ids_keep_their_latest(c.entries, e, id);
            assert(c.rows.dom().contains(id));
            assert(c.rows[id].id == materialized(c.entries)[id].id);
        }
    }
}

/// A deletion keeps the cache in agreement with the log, provided that it
/// is made at a time newer than every entry that the log holds of the id.
pub proof fn law_delete_keeps_agreement(v: StoreView, collection: Seq<char>, id: Seq<char>, now: i64)
    requires
        agrees_with_log(collection_in(v, collection)),
        forall|i: int|
            0 <= i < collection_in(v, collection).entries.len() && (#[trigger] collection_in(
                v,
                collection,
            ).entries[i]).id == id ==> collection_in(v, collection).entries[i].updated_at < now,
    ensures
        agrees_with_log(collection_in(erased(v, collection, id, now), collection)),
{
    let c = collection_in(v, collection);
    let d = collection_in(erased(v, collection, id, now), collection);
    let e = tombstone(id, now);
    lemma_newer_is_latest(c.entries, e);
    assert forall|x: Seq<char>| d.rows.dom().contains(x) <==> materialized(
        d.entries,
    ).dom().contains(x) by {
        if x != id {
            lemma_other_ids_keep_their_latest(c.entries, e, x);
            assert(c.rows.dom().contains(x) <==> materialized(c.entries).dom().contains(x));
        }
    }
    assert(d.rows.dom() =~= materialized(d.entries).dom());
    assert forall|x: Seq<char>| d.rows.dom().contains(x) implies {
        &&& (#[trigger] d.rows[x]).id == materialized(d.entries)[x].id
        &&& d.rows[x].payload == materialized(d.entries)[x].payload
        &&& d.rows[x].updated_at == materialized(d.entries)[x].updated_at
    } by {
        lemma_other_ids_keep_their_latest(c.entries, e, x);
        assert(c.rows.dom().contains(x));
        assert(c.rows[x].id == materialized(c.entries)[x].id);
    }
}

/// Filing fields anew keeps the cache in agreement with the log: what
/// differs at most in indexed fields agrees with the log as before.
pub proof fn law_reindex_keeps_agreement(a: StoreView, b: StoreView, collection: Seq<char>)
    requires
        same_but_fields(a, b),
        agrees_with_log(collection_in(a, collection)),
    ensures
        agrees_with_log(collection_in(b, collection)),
{
    if a.dom().contains(collection) {
        let c = a[collection];
        let d = b[collection];
        assert(b.dom().contains(collection));
        assert(c.entries == d.entries);
        assert forall|id: Seq<char>| d.rows.dom().contains(id) implies {
            &&& (#[trigger] d.rows[id]).id == materialized(d.entries)[id].id
            &&& d.rows[id].payload == materialized(d.entries)[id].payload
            &&& d.rows[id].updated_at == materialized(d.entries)[id].updated_at
        } by {
            assert(c.rows.dom().contains(id));
            assert(c.rows[id].id == d.rows[id].id);
        }
    } else {
        assert(!b.dom().contains(collection));
    }
}

/// How writing `row` to `collection` ends: with the record written and its
/// id handed back where nothing about it breaks a rule; else with the
/// store as it was and the rule that it breaks.
pub open spec fn is_created(
    before: StoreView,
    after: StoreView,
    r: Result<String, StoreError>,
    collection: Seq<char>,
    row: RowView,
    now: i64,
) -> bool {
    match r {
        Ok(id) => {
            &&& write_refusal(collection, row.id, row.payload, row.fields) is None
            &&& id@ == row.id
            &&& after == written(before, collection, row, now)
        },
        Err(e) => {
            &&& write_refusal(collection, row.id, row.payload, row.fields) == Some(e)
            &&& after == before
        },
    }
}

/// How writing `row` over the row of its id in `collection` ends: as a
/// write does where the cache holds such a row and nothing breaks a rule;
/// else with the store as it was, and with the rule that is broken or, where
/// none is, with `NotFound`.
pub open spec fn is_updated(
    before: StoreView,
    after: StoreView,
    r: Result<String, StoreError>,
    collection: Seq<char>,
    row: RowView,
    now: i64,
) -> bool {
    match r {
        Ok(id) => {
            &&& write_refusal(collection, row.id, row.payload, row.fields) is None
            &&& row_in(before, collection, row.id) is Some
            &&& id@ == row.id
            &&& after == written(before, collection, row, now)
        },
        Err(e) => {
            &&& after == before
            &&& match write_refusal(collection, row.id, row.payload, row.fields) {
                Some(why) => e == why,
                None => e == StoreError::NotFound && row_in(before, collection, row.id) is None,
            }
        },
    }
}

/// The fields that one record asks to be filed under: for the row of its
/// id in its collection.
pub ghost struct Filing {
    pub collection: Seq<char>,
    pub id: Seq<char>,
    pub fields: Seq<(Seq<char>, ValueView)>,
}

/// Whether a filing is made: its field names are valid, and the cache
/// holds the row that it is for.
pub open spec fn files(v: StoreView, f: Filing) -> bool {
    valid_fields(f.fields) && row_in(v, f.collection, f.id) is Some
}

/// The store after a filing: with the fields of the row set where the
/// filing is made, as it was where it is not.
pub open spec fn filed(v: StoreView, f: Filing) -> StoreView {
    if files(v, f) {
        reindexed(v, f.collection, f.id, f.fields)
    } else {
        v
    }
}

/// The store after filings, one after the other.
pub open spec fn filed_all(v: StoreView, filings: Seq<Filing>) -> StoreView
    decreases filings.len(),
{
    if filings.len() == 0 {
        v
    } else {
        filed(filed_all(v, filings.drop_last()), filings.last())
    }
}

/// How many of the filings are made, each on the store as the filings
/// before it left it.
pub open spec fn filed_count(v: StoreView, filings: Seq<Filing>) -> nat
    decreases filings.len(),
{
    if filings.len() == 0 {
        0
    } else {
        filed_count(v, filings.drop_last()) + if files(
            filed_all(v, filings.drop_last()),
            filings.last(),
        ) {
            1nat
        } else {
            0nat
        }
    }
}

/// `after` is `before` with the fields of `len` records filed anew, `n` of
/// them made: the filings are as many as the records, all for one
/// collection, and were made in their order.
pub open spec fn is_refiled(
    before: StoreView,
    after: StoreView,
    n: nat,
    len: nat,
    filings: Seq<Filing>,
) -> bool {
    &&& filings.len() == len
    &&& forall|i: int, j: int|
        0 <= i < filings.len() && 0 <= j < filings.len() ==> (#[trigger] filings[i]).collection == (
        #[trigger] filings[j]).collection
    &&& after == filed_all(before, filings)
    &&& n == filed_count(before, filings)
}

} // verus!
