//! The query planner: every statement that the relational cache is asked to
//! run, as a text with `?` for each value and the values to bind, in order.
//! Names and values never become part of a statement's text; only the column
//! that a filter compares is chosen by the type of its value.

use crate::filter::{column_text, filter_views, Filter, FilterOp, FilterView};
use crate::record::{
    field_views, valid_collection, valid_field, valid_fields, valid_id, validate_collection,
    validate_field, validate_fields, validate_id, IndexField, IndexValue, StoreError, ValueView,
};
use crate::text::{chars_of, decimal};
use vstd::prelude::*;

verus! {

/// The tables of the cache: the latest text of every record, the indexed
/// fields of every record, which go when their record goes, and for every
/// collection the state of its log when the cache was last rebuilt.
pub const SCHEMA_SQL: &'static str =
    "CREATE TABLE IF NOT EXISTS records (collection TEXT NOT NULL, id TEXT NOT NULL, payload_json TEXT NOT NULL, updated_at INTEGER NOT NULL, PRIMARY KEY (collection, id)); CREATE TABLE IF NOT EXISTS index_entries (collection TEXT NOT NULL, id TEXT NOT NULL, field_name TEXT NOT NULL, value_str TEXT, value_int INTEGER, value_bool INTEGER, PRIMARY KEY (collection, id, field_name), FOREIGN KEY (collection, id) REFERENCES records(collection, id) ON DELETE CASCADE); CREATE TABLE IF NOT EXISTS sync_metadata (collection TEXT PRIMARY KEY, last_sync_time INTEGER NOT NULL, log_mtime_at_sync INTEGER NOT NULL);";

/// Reads the text of one record.
pub const GET_SQL: &'static str =
    "SELECT payload_json FROM records WHERE collection = ? AND id = ?";

/// Puts the row of one record in place.
pub const UPSERT_SQL: &'static str =
    "INSERT INTO records (collection, id, payload_json, updated_at) VALUES (?, ?, ?, ?) ON CONFLICT(collection, id) DO UPDATE SET payload_json = excluded.payload_json, updated_at = excluded.updated_at";

/// Drops the index entries of one record.
pub const UNINDEX_SQL: &'static str = "DELETE FROM index_entries WHERE collection = ? AND id = ?";

/// Files one indexed field whose value is a string.
pub const INDEX_STR_SQL: &'static str =
    "INSERT OR REPLACE INTO index_entries (collection, id, field_name, value_str) VALUES (?, ?, ?, ?)";

/// Files one indexed field whose value is an integer.
pub const INDEX_INT_SQL: &'static str =
    "INSERT OR REPLACE INTO index_entries (collection, id, field_name, value_int) VALUES (?, ?, ?, ?)";

/// Files one indexed field whose value is a boolean.
pub const INDEX_BOOL_SQL: &'static str =
    "INSERT OR REPLACE INTO index_entries (collection, id, field_name, value_bool) VALUES (?, ?, ?, ?)";

/// Removes the row of one record; its index entries go with it.
pub const DELETE_SQL: &'static str = "DELETE FROM records WHERE collection = ? AND id = ?";

/// Empties the index.
pub const CLEAR_INDEX_SQL: &'static str = "DELETE FROM index_entries";

/// Empties the table of records.
pub const CLEAR_RECORDS_SQL: &'static str = "DELETE FROM records";

/// Notes when a collection's log was read into the cache.
pub const MARK_SYNCED_SQL: &'static str =
    "INSERT OR REPLACE INTO sync_metadata (collection, last_sync_time, log_mtime_at_sync) VALUES (?, ?, ?)";

/// The start of every listing statement: the rows of one collection.
pub const LIST_HEAD_SQL: &'static str =
    "SELECT r.id, r.payload_json, r.updated_at FROM records r WHERE r.collection = ?";

/// The end of every listing statement: the newest first, and of equally
/// new rows the one with the smaller id.
pub const LIST_TAIL_SQL: &'static str = " ORDER BY r.updated_at DESC, r.id ASC";

/// The start of the part of a listing statement that stands for one
/// filter, up to the name of the column.
pub const CLAUSE_HEAD_SQL: &'static str =
    " AND EXISTS (SELECT 1 FROM index_entries i WHERE i.collection = r.collection AND i.id = r.id AND i.field_name = ? AND i.";

/// What follows a pattern, so that `\\` marks the characters to take
/// literally.
pub const ESCAPE_SQL: &'static str = " ESCAPE '\\'";

/// A statement and the values to bind to its `?`, in order. A query is made
/// by the planner alone, so that no name reaches a statement unchecked.
#[derive(Debug, PartialEq)]
pub struct Query {
    sql: String,
    params: Vec<IndexValue>,
}

/// A query in the abstract.
pub ghost struct QueryView {
    pub sql: Seq<char>,
    pub params: Seq<ValueView>,
}

impl View for Query {
    type V = QueryView;

    closed spec fn view(&self) -> QueryView {
        QueryView { sql: self.sql@, params: self.params@.map_values(|p: IndexValue| p@) }
    }
}

impl Query {
    /// The text of the statement.
    pub fn sql(&self) -> (r: &str)
        ensures
            r@ == self@.sql,
    {
        self.sql.as_str()
    }

    /// The values to bind, in the order of the statement's `?`.
    pub fn params(&self) -> (r: &Vec<IndexValue>)
        ensures
            r@.map_values(|p: IndexValue| p@) == self@.params,
    {
        &self.params
    }
}

/// The views of a sequence of queries.
pub open spec fn query_views(queries: Seq<Query>) -> Seq<QueryView> {
    queries.map_values(|q: Query| q@)
}

/// The column that holds values of this value's type.
pub open spec fn column_of(v: ValueView) -> Seq<char> {
    match v {
        ValueView::Text(_) => "value_str"@,
        ValueView::Int(_) => "value_int"@,
        ValueView::Bool(_) => "value_bool"@,
    }
}

/// A text with every `%`, `_` and `\` marked by a `\` before it, so that a
/// pattern takes each of its characters literally.
pub open spec fn escaped(s: Seq<char>) -> Seq<char>
    decreases s.len(),
{
    if s.len() == 0 {
        Seq::empty()
    } else {
        let c = s.last();
        let rest = escaped(s.drop_last());
        if c == '%' || c == '_' || c == '\\' {
            rest.push('\\').push(c)
        } else {
            rest.push(c)
        }
    }
}

/// The pattern that finds `text` anywhere in a column.
pub open spec fn pattern_of(text: Seq<char>) -> Seq<char> {
    seq!['%'] + escaped(text) + seq!['%']
}

/// The part of a listing statement that stands for one filter.
pub open spec fn clause_sql(f: FilterView) -> Seq<char> {
    CLAUSE_HEAD_SQL@ + column_of(f.value) + seq![' '] + f.op.sql() + " ?"@ + (if f.op
        == FilterOp::Contains {
        ESCAPE_SQL@
    } else {
        Seq::empty()
    }) + seq![')']
}

/// The parts of a listing statement that stand for its filters.
pub open spec fn clauses_sql(filters: Seq<FilterView>) -> Seq<char>
    decreases filters.len(),
{
    if filters.len() == 0 {
        Seq::empty()
    } else {
        clauses_sql(filters.drop_last()) + clause_sql(filters.last())
    }
}

/// The statement that lists the records of a collection that pass every
/// filter, the newest first.
pub open spec fn list_sql(filters: Seq<FilterView>) -> Seq<char> {
    LIST_HEAD_SQL@ + clauses_sql(filters) + LIST_TAIL_SQL@
}

/// The value that a filter compares a column with: for `Contains` the
/// pattern of the value's text, else the value itself.
pub open spec fn filter_param(f: FilterView) -> ValueView {
    if f.op == FilterOp::Contains {
        ValueView::Text(pattern_of(column_text(f.value)))
    } else {
        f.value
    }
}

/// The values that the filters' parts of a listing statement bind: for each
/// filter its field name and its value.
pub open spec fn clause_params(filters: Seq<FilterView>) -> Seq<ValueView>
    decreases filters.len(),
{
    if filters.len() == 0 {
        Seq::empty()
    } else {
        clause_params(filters.drop_last()).push(ValueView::Text(filters.last().field)).push(
            filter_param(filters.last()),
        )
    }
}

/// Whether every filter names a valid field.
pub open spec fn valid_filters(filters: Seq<FilterView>) -> bool {
    forall|i: int| 0 <= i < filters.len() ==> valid_field((#[trigger] filters[i]).field)
}

fn text_param(s: &str) -> (p: IndexValue)
    ensures
        p@ == ValueView::Text(s@),
{
    IndexValue::String(String::from_str(s))
}

fn column_name(v: &IndexValue) -> (r: &'static str)
    ensures
        r@ == column_of(v@),
{
    match v {
        IndexValue::String(_) => "value_str",
        IndexValue::Int(_) => "value_int",
        IndexValue::Bool(_) => "value_bool",
    }
}

/// Marks every `%`, `_` and `\` of a text with a `\` before it.
pub fn escape_like(s: &str) -> (r: String)
    ensures
        r@ == escaped(s@),
{
    let v = chars_of(s);
    let mut r = String::new();
    let mut i: usize = 0;
    while i < v.len()
        invariant
            i <= v.len(),
            v@ == s@,
            r@ == escaped(v@.take(i as int)),
        decreases v.len() - i,
    {
        let c = v[i];
        proof {
            assert(v@.take(i + 1).drop_last() =~= v@.take(i as int));
            assert(v@.take(i + 1).last() == c);
        }
        if c == '%' || c == '_' || c == '\\' {
            r.push('\\');
        }
        r.push(c);
        i = i + 1;
    }
    proof {
        assert(v@.take(i as int) =~= v@);
    }
    r
}

fn param_of(f: &Filter) -> (p: IndexValue)
    ensures
        p@ == filter_param(f@),
{
    match f.op {
        FilterOp::Contains => {
            let text = match &f.value {
                IndexValue::String(s) => s.clone(),
                IndexValue::Int(i) => decimal(*i),
                IndexValue::Bool(b) => {
                    let mut s = String::new();
                    if *b {
                        s.push('1');
                    } else {
                        s.push('0');
                    }
                    assert(s@ =~= column_text(f.value@));
                    s
                },
            };
            let mut p = String::new();
            p.push('%');
            p.append(escape_like(text.as_str()).as_str());
            p.push('%');
            assert(p@ =~= pattern_of(column_text(f.value@)));
            IndexValue::String(p)
        },
        _ => f.value.clone(),
    }
}

/// Plans the listing of a collection: all its records where there is no
/// filter, else those that pass every filter; the newest first, and of
/// equally new ones the smaller id first. The collection name and every
/// field name are checked before anything is planned.
pub fn plan_list(collection: &str, filters: &Vec<Filter>) -> (r: Result<Query, StoreError>)
    ensures
        match r {
            Ok(q) => {
                &&& valid_collection(collection@)
                &&& valid_filters(filter_views(filters@))
                &&& q@.sql == list_sql(filter_views(filters@))
                &&& q@.params == seq![ValueView::Text(collection@)] + clause_params(
                    filter_views(filters@),
                )
            },
            Err(e) => if !valid_collection(collection@) {
                e == StoreError::InvalidCollection
            } else {
                e == StoreError::InvalidField && !valid_filters(filter_views(filters@))
            },
        },
{
    if validate_collection(collection).is_err() {
        return Err(StoreError::InvalidCollection);
    }
    let ghost fv = filter_views(filters@);
    let mut sql = String::from_str(LIST_HEAD_SQL);
    let mut params: Vec<IndexValue> = Vec::new();
    params.push(text_param(collection));
    let mut i: usize = 0;
    proof {
        assert(fv.take(0) =~= Seq::empty());
        assert(sql@ =~= LIST_HEAD_SQL@ + clauses_sql(fv.take(0)));
        assert(params@.map_values(|p: IndexValue| p@) =~= seq![ValueView::Text(collection@)]
            + clause_params(fv.take(0)));
    }
    while i < filters.len()
        invariant
            i <= filters.len(),
            valid_collection(collection@),
            fv == filter_views(filters@),
            forall|k: int| 0 <= k < i ==> valid_field((#[trigger] fv[k]).field),
            sql@ == LIST_HEAD_SQL@ + clauses_sql(fv.take(i as int)),
            params@.map_values(|p: IndexValue| p@) == seq![ValueView::Text(collection@)]
                + clause_params(fv.take(i as int)),
        decreases filters.len() - i,
    {
        let f = &filters[i];
        proof {
            assert(fv[i as int] == f@);
            assert(fv.take(i + 1).drop_last() =~= fv.take(i as int));
            assert(fv.take(i + 1).last() == f@);
        }
        if validate_field(f.field.as_str()).is_err() {
            assert(!valid_field(fv[i as int].field));
            return Err(StoreError::InvalidField);
        }
        let ghost before = sql@;
        let ghost bound = params@.map_values(|p: IndexValue| p@);
        sql.append(CLAUSE_HEAD_SQL);
        sql.append(column_name(&f.value));
        sql.push(' ');
        sql.append(f.op.to_sql());
        sql.append(" ?");
        match f.op {
            FilterOp::Contains => {
                sql.append(ESCAPE_SQL);
            },
            _ => {},
        }
        sql.push(')');
        let name = text_param(f.field.as_str());
        let value = param_of(f);
        proof {
            assert(sql@ =~= before + clause_sql(f@));
            assert(before + clause_sql(f@) =~= LIST_HEAD_SQL@ + (clauses_sql(fv.take(i as int))
                + clause_sql(f@)));
            assert(params@.push(name).push(value).map_values(|p: IndexValue| p@) =~= bound.push(
                name@,
            ).push(value@));
            assert(bound.push(name@).push(value@) =~= seq![ValueView::Text(collection@)] + (
            clause_params(fv.take(i as int)).push(name@).push(value@)));
        }
        params.push(name);
        params.push(value);
        i = i + 1;
    }
    proof {
        assert(fv.take(i as int) =~= fv);
    }
    sql.append(LIST_TAIL_SQL);
    Ok(Query { sql, params })
}

/// Plans the lookup of one record's text.
pub fn plan_get(collection: &str, id: &str) -> (r: Result<Query, StoreError>)
    ensures
        match r {
            Ok(q) => valid_collection(collection@) && valid_id(id@) && q@.sql == GET_SQL@
                && q@.params == seq![ValueView::Text(collection@), ValueView::Text(id@)],
            Err(e) => if !valid_collection(collection@) {
                e == StoreError::InvalidCollection
            } else {
                e == StoreError::InvalidId && !valid_id(id@)
            },
        },
{
    if validate_collection(collection).is_err() {
        return Err(StoreError::InvalidCollection);
    }
    if validate_id(id).is_err() {
        return Err(StoreError::InvalidId);
    }
    let mut params: Vec<IndexValue> = Vec::new();
    params.push(text_param(collection));
    params.push(text_param(id));
    assert(params@.map_values(|p: IndexValue| p@) =~= seq![
        ValueView::Text(collection@),
        ValueView::Text(id@),
    ]);
    Ok(Query { sql: String::from_str(GET_SQL), params })
}

/// The statement that files one indexed field, by the type of its value.
pub open spec fn index_sql(v: ValueView) -> Seq<char> {
    match v {
        ValueView::Text(_) => INDEX_STR_SQL@,
        ValueView::Int(_) => INDEX_INT_SQL@,
        ValueView::Bool(_) => INDEX_BOOL_SQL@,
    }
}

/// The statements that file the fields `fields[..n]` of a record.
pub open spec fn index_queries(
    collection: Seq<char>,
    id: Seq<char>,
    fields: Seq<(Seq<char>, ValueView)>,
) -> Seq<QueryView>
    decreases fields.len(),
{
    if fields.len() == 0 {
        Seq::empty()
    } else {
        index_queries(collection, id, fields.drop_last()).push(
            QueryView {
                sql: index_sql(fields.last().1),
                params: seq![
                    ValueView::Text(collection),
                    ValueView::Text(id),
                    ValueView::Text(fields.last().0),
                    fields.last().1,
                ],
            },
        )
    }
}

/// What the cache is asked to do, in one transaction, when a record is
/// created or updated: put the record's row in place, drop the index entries
/// that it had, and file those that it has now.
pub open spec fn write_queries(
    collection: Seq<char>,
    id: Seq<char>,
    payload: Seq<char>,
    updated_at: i64,
    fields: Seq<(Seq<char>, ValueView)>,
) -> Seq<QueryView> {
    seq![
        QueryView {
            sql: UPSERT_SQL@,
            params: seq![
                ValueView::Text(collection),
                ValueView::Text(id),
                ValueView::Text(payload),
                ValueView::Int(updated_at),
            ],
        },
        QueryView {
            sql: UNINDEX_SQL@,
            params: seq![ValueView::Text(collection), ValueView::Text(id)],
        },
    ] + index_queries(collection, id, fields)
}

fn index_statement(v: &IndexValue) -> (r: &'static str)
    ensures
        r@ == index_sql(v@),
{
    match v {
        IndexValue::String(_) => INDEX_STR_SQL,
        IndexValue::Int(_) => INDEX_INT_SQL,
        IndexValue::Bool(_) => INDEX_BOOL_SQL,
    }
}

fn query2(sql: &str, a: &str, b: &str) -> (q: Query)
    ensures
        q@ == (QueryView { sql: sql@, params: seq![ValueView::Text(a@), ValueView::Text(b@)] }),
{
    let mut params: Vec<IndexValue> = Vec::new();
    params.push(text_param(a));
    params.push(text_param(b));
    let q = Query { sql: String::from_str(sql), params };
    assert(q@.params =~= seq![ValueView::Text(a@), ValueView::Text(b@)]);
    q
}

/// What the cache is asked to do when the fields of a record are filed
/// anew: drop the index entries that it had, and file those that it has
/// now.
pub open spec fn reindex_queries(
    collection: Seq<char>,
    id: Seq<char>,
    fields: Seq<(Seq<char>, ValueView)>,
) -> Seq<QueryView> {
    seq![
        QueryView {
            sql: UNINDEX_SQL@,
            params: seq![ValueView::Text(collection), ValueView::Text(id)],
        },
    ] + index_queries(collection, id, fields)
}

fn reindex_statements(collection: &str, id: &str, fields: &Vec<IndexField>) -> (qs: Vec<Query>)
    ensures
        query_views(qs@) == reindex_queries(collection@, id@, field_views(fields@)),
{
    let ghost fv = field_views(fields@);
    let unindex = query2(UNINDEX_SQL, collection, id);
    let ghost head = seq![unindex@];
    let mut qs: Vec<Query> = Vec::new();
    qs.push(unindex);
    let mut i: usize = 0;
    proof {
        assert(fv.take(0) =~= Seq::empty());
        assert(query_views(qs@) =~= head + index_queries(collection@, id@, fv.take(0)));
    }
    while i < fields.len()
        invariant
            i <= fields.len(),
            fv == field_views(fields@),
            query_views(qs@) == head + index_queries(collection@, id@, fv.take(i as int)),
        decreases fields.len() - i,
    {
        let f = &fields[i];
        proof {
            assert(fv[i as int] == f@);
            assert(fv.take(i + 1).drop_last() =~= fv.take(i as int));
            assert(fv.take(i + 1).last() == f@);
        }
        let mut p: Vec<IndexValue> = Vec::new();
        p.push(text_param(collection));
        p.push(text_param(id));
        p.push(text_param(f.name.as_str()));
        p.push(f.value.clone());
        let q = Query { sql: String::from_str(index_statement(&f.value)), params: p };
        proof {
            assert(q@.params =~= seq![
                ValueView::Text(collection@),
                ValueView::Text(id@),
                ValueView::Text(f@.0),
                f@.1,
            ]);
            assert(query_views(qs@.push(q)) =~= query_views(qs@).push(q@));
            assert(query_views(qs@).push(q@) =~= head + index_queries(
                collection@,
                id@,
                fv.take(i as int),
            ).push(q@));
        }
        qs.push(q);
        i = i + 1;
    }
    proof {
        assert(fv.take(i as int) =~= fv);
    }
    qs
}

/// Plans the transaction that files the fields of one record anew.
/// Collection name, id and field names are checked first, in this order.
pub fn plan_index(collection: &str, id: &str, fields: &Vec<IndexField>) -> (r: Result<
    Vec<Query>,
    StoreError,
>)
    ensures
        match r {
            Ok(qs) => {
                &&& valid_collection(collection@)
                &&& valid_id(id@)
                &&& valid_fields(field_views(fields@))
                &&& query_views(qs@) == reindex_queries(collection@, id@, field_views(fields@))
            },
            Err(e) => if !valid_collection(collection@) {
                e == StoreError::InvalidCollection
            } else if !valid_id(id@) {
                e == StoreError::InvalidId
            } else {
                e == StoreError::InvalidField && !valid_fields(field_views(fields@))
            },
        },
{
    if validate_collection(collection).is_err() {
        return Err(StoreError::InvalidCollection);
    }
    if validate_id(id).is_err() {
        return Err(StoreError::InvalidId);
    }
    if validate_fields(fields).is_err() {
        return Err(StoreError::InvalidField);
    }
    Ok(reindex_statements(collection, id, fields))
}

/// Plans the transaction that writes one record into the cache. Collection
/// name, id and field names are checked first, in this order.
pub fn plan_write(
    collection: &str,
    id: &str,
    payload: &str,
    updated_at: i64,
    fields: &Vec<IndexField>,
) -> (r: Result<Vec<Query>, StoreError>)
    ensures
        match r {
            Ok(qs) => {
                &&& valid_collection(collection@)
                &&& valid_id(id@)
                &&& valid_fields(field_views(fields@))
                &&& query_views(qs@) == write_queries(
                    collection@,
                    id@,
                    payload@,
                    updated_at,
                    field_views(fields@),
                )
            },
            Err(e) => if !valid_collection(collection@) {
                e == StoreError::InvalidCollection
            } else if !valid_id(id@) {
                e == StoreError::InvalidId
            } else {
                e == StoreError::InvalidField && !valid_fields(field_views(fields@))
            },
        },
{
    if validate_collection(collection).is_err() {
        return Err(StoreError::InvalidCollection);
    }
    if validate_id(id).is_err() {
        return Err(StoreError::InvalidId);
    }
    if validate_fields(fields).is_err() {
        return Err(StoreError::InvalidField);
    }
    let upsert = upsert_statement(collection, id, payload, updated_at);
    let mut qs: Vec<Query> = Vec::new();
    qs.push(upsert);
    let mut rest = reindex_statements(collection, id, fields);
    let ghost tail = query_views(rest@);
    qs.append(&mut rest);
    proof {
        assert(query_views(qs@) =~= seq![upsert@] + tail);
        assert(seq![upsert@] + tail =~= write_queries(
            collection@,
            id@,
            payload@,
            updated_at,
            field_views(fields@),
        ));
    }
    Ok(qs)
}

/// Plans the row of one entry of a log as a rebuild of the cache puts it in
/// place: with the id, the text and the time of change that the log gives,
/// and without index entries. The collection name is checked; the id is
/// taken as the log has it.
pub fn plan_restore(collection: &str, id: &str, payload: &str, updated_at: i64) -> (r: Result<
    Query,
    StoreError,
>)
    ensures
        match r {
            Ok(q) => valid_collection(collection@) && q@ == (QueryView {
                sql: UPSERT_SQL@,
                params: seq![
                    ValueView::Text(collection@),
                    ValueView::Text(id@),
                    ValueView::Text(payload@),
                    ValueView::Int(updated_at),
                ],
            }),
            Err(e) => !valid_collection(collection@) && e == StoreError::InvalidCollection,
        },
{
    if validate_collection(collection).is_err() {
        return Err(StoreError::InvalidCollection);
    }
    Ok(upsert_statement(collection, id, payload, updated_at))
}

fn upsert_statement(collection: &str, id: &str, payload: &str, updated_at: i64) -> (q: Query)
    ensures
        q@ == (QueryView {
            sql: UPSERT_SQL@,
            params: seq![
                ValueView::Text(collection@),
                ValueView::Text(id@),
                ValueView::Text(payload@),
                ValueView::Int(updated_at),
            ],
        }),
{
    let mut params: Vec<IndexValue> = Vec::new();
    params.push(text_param(collection));
    params.push(text_param(id));
    params.push(text_param(payload));
    params.push(IndexValue::Int(updated_at));
    let q = Query { sql: String::from_str(UPSERT_SQL), params };
    assert(q@.params =~= seq![
        ValueView::Text(collection@),
        ValueView::Text(id@),
        ValueView::Text(payload@),
        ValueView::Int(updated_at),
    ]);
    q
}

/// Plans the removal of one record's row; its index entries go with it.
pub fn plan_delete(collection: &str, id: &str) -> (r: Result<Query, StoreError>)
    ensures
        match r {
            Ok(q) => valid_collection(collection@) && valid_id(id@) && q@ == (QueryView {
                sql: DELETE_SQL@,
                params: seq![ValueView::Text(collection@), ValueView::Text(id@)],
            }),
            Err(e) => if !valid_collection(collection@) {
                e == StoreError::InvalidCollection
            } else {
                e == StoreError::InvalidId && !valid_id(id@)
            },
        },
{
    if validate_collection(collection).is_err() {
        return Err(StoreError::InvalidCollection);
    }
    if validate_id(id).is_err() {
        return Err(StoreError::InvalidId);
    }
    Ok(query2(DELETE_SQL, collection, id))
}

/// Plans the note that a collection's log, last changed at `log_mtime`, was
/// read into the cache at `now`.
pub fn plan_mark_synced(collection: &str, now: i64, log_mtime: i64) -> (q: Query)
    ensures
        q@ == (QueryView {
            sql: MARK_SYNCED_SQL@,
            params: seq![
                ValueView::Text(collection@),
                ValueView::Int(now),
                ValueView::Int(log_mtime),
            ],
        }),
{
    let mut params: Vec<IndexValue> = Vec::new();
    params.push(text_param(collection));
    params.push(IndexValue::Int(now));
    params.push(IndexValue::Int(log_mtime));
    let q = Query { sql: String::from_str(MARK_SYNCED_SQL), params };
    assert(q@.params =~= seq![
        ValueView::Text(collection@),
        ValueView::Int(now),
        ValueView::Int(log_mtime),
    ]);
    q
}

} // verus!
