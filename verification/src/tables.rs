//! The relational cache in the abstract: its tables, what each statement of
//! the planner does to them, and why the transactions that the planner
//! makes do to the tables what the store does to its rows.

use crate::filter::{field_value, meets, passes, passes_all, FilterView};
use crate::plan::{
    index_queries, index_sql, write_queries, QueryView, DELETE_SQL, UNINDEX_SQL, UPSERT_SQL,
};
use crate::record::ValueView;
use crate::store::{collection_in, erased, written, CollectionView, RowView, StoreView};
use vstd::prelude::*;

verus! {

/// The tables of the cache: the text and the time of change of every
/// record, by collection and id; and the indexed fields, by collection, id
/// and field name.
pub ghost struct Tables {
    pub records: Map<(Seq<char>, Seq<char>), (Seq<char>, i64)>,
    pub index: Map<(Seq<char>, Seq<char>, Seq<char>), ValueView>,
}

/// A statement that changes the tables, by what it does rather than by how
/// it is written.
pub ghost enum Statement {
    /// Puts the row of a record in place, over the row that may be there.
    Upsert { collection: Seq<char>, id: Seq<char>, payload: Seq<char>, updated_at: i64 },
    /// Drops the index entries of a record.
    Unindex { collection: Seq<char>, id: Seq<char> },
    /// Files one field of a record, over the entry that may be there.
    Index { collection: Seq<char>, id: Seq<char>, field: Seq<char>, value: ValueView },
    /// Removes the row of a record; its index entries go with it.
    Delete { collection: Seq<char>, id: Seq<char> },
}

/// A statement as the planner writes it.
pub open spec fn rendered(s: Statement) -> QueryView {
    match s {
        Statement::Upsert { collection, id, payload, updated_at } => QueryView {
            sql: UPSERT_SQL@,
            params: seq![
                ValueView::Text(collection),
                ValueView::Text(id),
                ValueView::Text(payload),
                ValueView::Int(updated_at),
            ],
        },
        Statement::Unindex { collection, id } => QueryView {
            sql: UNINDEX_SQL@,
            params: seq![ValueView::Text(collection), ValueView::Text(id)],
        },
        Statement::Index { collection, id, field, value } => QueryView {
            sql: index_sql(value),
            params: seq![
                ValueView::Text(collection),
                ValueView::Text(id),
                ValueView::Text(field),
                value,
            ],
        },
        Statement::Delete { collection, id } => QueryView {
            sql: DELETE_SQL@,
            params: seq![ValueView::Text(collection), ValueView::Text(id)],
        },
    }
}

/// The index without the entries of one record.
pub open spec fn index_without(
    index: Map<(Seq<char>, Seq<char>, Seq<char>), ValueView>,
    collection: Seq<char>,
    id: Seq<char>,
) -> Map<(Seq<char>, Seq<char>, Seq<char>), ValueView> {
    Map::new(
        |k: (Seq<char>, Seq<char>, Seq<char>)|
            index.dom().contains(k) && !(k.0 == collection && k.1 == id),
        |k: (Seq<char>, Seq<char>, Seq<char>)| index[k],
    )
}

/// What a statement does to the tables.
pub open spec fn run(t: Tables, s: Statement) -> Tables {
    match s {
        Statement::Upsert { collection, id, payload, updated_at } => Tables {
            records: t.records.insert((collection, id), (payload, updated_at)),
            index: t.index,
        },
        Statement::Unindex { collection, id } => Tables {
            records: t.records,
            index: index_without(t.index, collection, id),
        },
        Statement::Index { collection, id, field, value } => Tables {
            records: t.records,
            index: t.index.insert((collection, id, field), value),
        },
        Statement::Delete { collection, id } => Tables {
            records: t.records.remove((collection, id)),
            index: index_without(t.index, collection, id),
        },
    }
}

/// What statements do to the tables, one after the other.
pub open spec fn run_all(t: Tables, ss: Seq<Statement>) -> Tables
    decreases ss.len(),
{
    if ss.len() == 0 {
        t
    } else {
        run(run_all(t, ss.drop_last()), ss.last())
    }
}

/// The statements that file the fields of a record, in the fields' order.
pub open spec fn index_statements(
    collection: Seq<char>,
    id: Seq<char>,
    fields: Seq<(Seq<char>, ValueView)>,
) -> Seq<Statement>
    decreases fields.len(),
{
    if fields.len() == 0 {
        Seq::empty()
    } else {
        index_statements(collection, id, fields.drop_last()).push(
            Statement::Index { collection, id, field: fields.last().0, value: fields.last().1 },
        )
    }
}

/// The transaction that writes one record.
pub open spec fn write_statements(
    collection: Seq<char>,
    id: Seq<char>,
    payload: Seq<char>,
    updated_at: i64,
    fields: Seq<(Seq<char>, ValueView)>,
) -> Seq<Statement> {
    seq![
        Statement::Upsert { collection, id, payload, updated_at },
        Statement::Unindex { collection, id },
    ] + index_statements(collection, id, fields)
}

/// The views of statements as the planner writes them.
pub open spec fn rendered_all(ss: Seq<Statement>) -> Seq<QueryView> {
    ss.map_values(|s: Statement| rendered(s))
}

proof fn lemma_index_rendered(collection: Seq<char>, id: Seq<char>, fields: Seq<(Seq<char>, ValueView)>)
    ensures
        index_queries(collection, id, fields) == rendered_all(
            index_statements(collection, id, fields),
        ),
    decreases fields.len(),
{
    if fields.len() == 0 {
        assert(index_queries(collection, id, fields) =~= rendered_all(
            index_statements(collection, id, fields),
        ));
    } else {
        lemma_index_rendered(collection, id, fields.drop_last());
        assert(index_queries(collection, id, fields) =~= rendered_all(
            index_statements(collection, id, fields),
        ));
    }
}

/// The planner writes the transaction of a write as it is meant: what it
/// plans are the statements that put the row in place, drop its index
/// entries and file its fields, as the planner writes them.
pub proof fn law_write_is_planned(
    collection: Seq<char>,
    id: Seq<char>,
    payload: Seq<char>,
    updated_at: i64,
    fields: Seq<(Seq<char>, ValueView)>,
)
    ensures
        write_queries(collection, id, payload, updated_at, fields) == rendered_all(
            write_statements(collection, id, payload, updated_at, fields),
        ),
{
    lemma_index_rendered(collection, id, fields);
    assert(write_queries(collection, id, payload, updated_at, fields) =~= rendered_all(
        write_statements(collection, id, payload, updated_at, fields),
    ));
}

/// The tables hold of the collection `name` what the cache `c` holds: a
/// row of the same ids, with text and time of change, and under every
/// field name the value that counts.
pub open spec fn holds_cache(t: Tables, name: Seq<char>, c: CollectionView) -> bool {
    &&& forall|id: Seq<char>|
        #![trigger t.records.dom().contains((name, id))]
        #![trigger c.rows.dom().contains(id)]
        t.records.dom().contains((name, id)) <==> c.rows.dom().contains(id)
    &&& forall|id: Seq<char>|
        c.rows.dom().contains(id) ==> #[trigger] t.records[(name, id)] == (
            c.rows[id].payload,
            c.rows[id].updated_at,
        )
    &&& forall|id: Seq<char>, f: Seq<char>|
        #![trigger t.index.dom().contains((name, id, f))]
        t.index.dom().contains((name, id, f)) <==> (c.rows.dom().contains(id) && field_value(
            c.rows[id].fields,
            f,
        ) is Some)
    &&& forall|id: Seq<char>, f: Seq<char>|
        t.index.dom().contains((name, id, f)) ==> Some(#[trigger] t.index[(name, id, f)])
            == field_value(c.rows[id].fields, f)
}

/// What filing the fields of a record makes of one entry of the index:
/// under a name among the fields stands the value that counts, that of the
/// last field of the name; every other entry is as it was.
pub open spec fn filed(
    before: Map<(Seq<char>, Seq<char>, Seq<char>), ValueView>,
    after: Map<(Seq<char>, Seq<char>, Seq<char>), ValueView>,
    collection: Seq<char>,
    id: Seq<char>,
    fields: Seq<(Seq<char>, ValueView)>,
    k: (Seq<char>, Seq<char>, Seq<char>),
) -> bool {
    if k.0 == collection && k.1 == id && field_value(fields, k.2) is Some {
        after.dom().contains(k) && Some(after[k]) == field_value(fields, k.2)
    } else {
        (after.dom().contains(k) <==> before.dom().contains(k)) && (after.dom().contains(k)
            ==> after[k] == before[k])
    }
}

/// Filing the fields of a record leaves the records as they are and makes
/// of every entry of the index what `filed` says.
pub proof fn lemma_indexed(
    t: Tables,
    collection: Seq<char>,
    id: Seq<char>,
    fields: Seq<(Seq<char>, ValueView)>,
    k: (Seq<char>, Seq<char>, Seq<char>),
)
    ensures
        run_all(t, index_statements(collection, id, fields)).records == t.records,
        filed(
            t.index,
            run_all(t, index_statements(collection, id, fields)).index,
            collection,
            id,
            fields,
            k,
        ),
    decreases fields.len(),
{
    let ss = index_statements(collection, id, fields);
    if fields.len() > 0 {
        let head = fields.drop_last();
        lemma_indexed(t, collection, id, head, k);
        assert(ss.drop_last() =~= index_statements(collection, id, head));
        assert(ss.last() == Statement::Index {
            collection,
            id,
            field: fields.last().0,
            value: fields.last().1,
        });
        let prev = run_all(t, index_statements(collection, id, head));
        let after = run_all(t, ss);
        assert(after.index == prev.index.insert((collection, id, fields.last().0), fields.last().1));
        if k == (collection, id, fields.last().0) {
            assert(field_value(fields, k.2) == Some(fields.last().1));
        } else if k.0 == collection && k.1 == id {
            assert(k.2 != fields.last().0);
            assert(field_value(fields, k.2) == field_value(head, k.2));
        }
    }
}

/// A write does to the tables what it does to the cache: where the tables
/// hold what the cache of a collection holds, they hold what the cache
/// holds after a write once the write's transaction has run.
pub proof fn law_write_refines(t: Tables, v: StoreView, collection: Seq<char>, row: RowView, now: i64)
    requires
        holds_cache(t, collection, collection_in(v, collection)),
    ensures
        holds_cache(
            run_all(
                t,
                write_statements(collection, row.id, row.payload, row.updated_at, row.fields),
            ),
            collection,
            collection_in(written(v, collection, row, now), collection),
        ),
{
    let c = collection_in(v, collection);
    let d = collection_in(written(v, collection, row, now), collection);
    let head = seq![
        Statement::Upsert {
            collection,
            id: row.id,
            payload: row.payload,
            updated_at: row.updated_at,
        },
        Statement::Unindex { collection, id: row.id },
    ];
    let tail = index_statements(collection, row.id, row.fields);
    let t1 = run(t, head[0]);
    let t2 = run(t1, head[1]);
    assert(run_all(t, head) == t2) by {
        assert(head.drop_last() =~= seq![head[0]]);
        assert(head.last() == head[1]);
        assert(seq![head[0]].drop_last() =~= Seq::<Statement>::empty());
        assert(seq![head[0]].last() == head[0]);
        assert(run_all(t, Seq::<Statement>::empty()) == t);
        assert(run_all(t, seq![head[0]]) == t1);
    }
    lemma_run_joined(t, head, tail);
    let t3 = run_all(t2, tail);
    assert(t3 == run_all(
        t,
        write_statements(collection, row.id, row.payload, row.updated_at, row.fields),
    ));
    assert forall|id: Seq<char>, f: Seq<char>|
        #![trigger t3.index.dom().contains((collection, id, f))]
        t3.index.dom().contains((collection, id, f)) <==> (d.rows.dom().contains(id)
            && field_value(d.rows[id].fields, f) is Some) by {
        lemma_indexed(t2, collection, row.id, row.fields, (collection, id, f));
        if id != row.id {
            assert(t.index.dom().contains((collection, id, f)) <==> (c.rows.dom().contains(id)
                && field_value(c.rows[id].fields, f) is Some));
        }
    }
    assert forall|id: Seq<char>, f: Seq<char>|
        t3.index.dom().contains((collection, id, f)) implies Some(
        #[trigger] t3.index[(collection, id, f)],
    ) == field_value(d.rows[id].fields, f) by {
        lemma_indexed(t2, collection, row.id, row.fields, (collection, id, f));
        if id != row.id {
            assert(t.index.dom().contains((collection, id, f)));
        }
    }
    lemma_indexed(t2, collection, row.id, row.fields, (collection, row.id, Seq::empty()));
    assert(t3.records == t2.records);
    assert forall|id: Seq<char>|
        #![trigger t3.records.dom().contains((collection, id))]
        #![trigger d.rows.dom().contains(id)]
        t3.records.dom().contains((collection, id)) <==> d.rows.dom().contains(id) by {
        assert(t.records.dom().contains((collection, id)) <==> c.rows.dom().contains(id));
    }
    assert forall|id: Seq<char>|
        d.rows.dom().contains(id) implies #[trigger] t3.records[(collection, id)] == (
        d.rows[id].payload,
        d.rows[id].updated_at,
    ) by {
        if id != row.id {
            assert(c.rows.dom().contains(id));
            assert(t.records[(collection, id)] == (c.rows[id].payload, c.rows[id].updated_at));
        }
    }
}

/// Statements that follow one another do what the first do and then what
/// the rest do.
pub proof fn lemma_run_joined(t: Tables, a: Seq<Statement>, b: Seq<Statement>)
    ensures
        run_all(t, a + b) == run_all(run_all(t, a), b),
    decreases b.len(),
{
    if b.len() == 0 {
        assert(a + b =~= a);
    } else {
        lemma_run_joined(t, a, b.drop_last());
        assert((a + b).drop_last() =~= a + b.drop_last());
        assert((a + b).last() == b.last());
    }
}

/// A deletion does to the tables what it does to the cache.
pub proof fn law_delete_refines(t: Tables, v: StoreView, collection: Seq<char>, id: Seq<char>, now: i64)
    requires
        holds_cache(t, collection, collection_in(v, collection)),
    ensures
        holds_cache(
            run(t, Statement::Delete { collection, id }),
            collection,
            collection_in(erased(v, collection, id, now), collection),
        ),
{
    let c = collection_in(v, collection);
    let d = collection_in(erased(v, collection, id, now), collection);
    let t2 = run(t, Statement::Delete { collection, id });
    assert forall|x: Seq<char>, f: Seq<char>|
        #![trigger t2.index.dom().contains((collection, x, f))]
        t2.index.dom().contains((collection, x, f)) <==> (d.rows.dom().contains(x) && field_value(
            d.rows[x].fields,
            f,
        ) is Some) by {
        assert(t.index.dom().contains((collection, x, f)) <==> (c.rows.dom().contains(x)
            && field_value(c.rows[x].fields, f) is Some));
    }
    assert forall|x: Seq<char>, f: Seq<char>|
        t2.index.dom().contains((collection, x, f)) implies Some(
        #[trigger] t2.index[(collection, x, f)],
    ) == field_value(d.rows[x].fields, f) by {
        assert(t.index.dom().contains((collection, x, f)));
    }
    assert forall|x: Seq<char>|
        #![trigger t2.records.dom().contains((collection, x))]
        #![trigger d.rows.dom().contains(x)]
        t2.records.dom().contains((collection, x)) <==> d.rows.dom().contains(x) by {
        assert(t.records.dom().contains((collection, x)) <==> c.rows.dom().contains(x));
    }
    assert forall|x: Seq<char>|
        d.rows.dom().contains(x) implies #[trigger] t2.records[(collection, x)] == (
        d.rows[x].payload,
        d.rows[x].updated_at,
    ) by {
        assert(c.rows.dom().contains(x));
    }
}

/// A write or a deletion in one collection leaves what the tables hold of
/// every other collection as it is.
pub proof fn law_statements_are_local(t: Tables, s: Statement, name: Seq<char>, c: CollectionView)
    requires
        holds_cache(t, name, c),
        match s {
            Statement::Upsert { collection, .. } => collection != name,
            Statement::Unindex { collection, .. } => collection != name,
            Statement::Index { collection, .. } => collection != name,
            Statement::Delete { collection, .. } => collection != name,
        },
    ensures
        holds_cache(run(t, s), name, c),
{
    let t2 = run(t, s);
    assert forall|id: Seq<char>, f: Seq<char>|
        #![trigger t2.index.dom().contains((name, id, f))]
        t2.index.dom().contains((name, id, f)) <==> (c.rows.dom().contains(id) && field_value(
            c.rows[id].fields,
            f,
        ) is Some) by {
        assert(t.index.dom().contains((name, id, f)) <==> (c.rows.dom().contains(id)
            && field_value(c.rows[id].fields, f) is Some));
    }
    assert forall|id: Seq<char>, f: Seq<char>|
        t2.index.dom().contains((name, id, f)) implies Some(#[trigger] t2.index[(name, id, f)])
        == field_value(c.rows[id].fields, f) by {
        assert(t.index.dom().contains((name, id, f)));
    }
    assert forall|id: Seq<char>|
        #![trigger t2.records.dom().contains((name, id))]
        #![trigger c.rows.dom().contains(id)]
        t2.records.dom().contains((name, id)) <==> c.rows.dom().contains(id) by {
        assert(t.records.dom().contains((name, id)) <==> c.rows.dom().contains(id));
    }
    assert forall|id: Seq<char>|
        c.rows.dom().contains(id) implies #[trigger] t2.records[(name, id)] == (
        c.rows[id].payload,
        c.rows[id].updated_at,
    ) by {
        assert(t.records[(name, id)] == (c.rows[id].payload, c.rows[id].updated_at));
    }
}

/// Whether a listing statement selects the record `id` of `collection`: the
/// record has a row, and for every filter an index entry under the filter's
/// field whose value meets the filter's comparison.
pub open spec fn selects(t: Tables, collection: Seq<char>, filters: Seq<FilterView>, id: Seq<char>) -> bool {
    &&& t.records.dom().contains((collection, id))
    &&& forall|i: int|
        0 <= i < filters.len() ==> t.index.dom().contains(
            (collection, id, (#[trigger] filters[i]).field),
        ) && meets(t.index[(collection, id, filters[i].field)], filters[i].op, filters[i].value)
}

/// A listing selects from the tables the records that the store lists:
/// where the tables hold what the cache of a collection holds, a record is
/// selected exactly when its row passes every filter.
pub proof fn law_list_refines(
    t: Tables,
    collection: Seq<char>,
    c: CollectionView,
    filters: Seq<FilterView>,
    id: Seq<char>,
)
    requires
        holds_cache(t, collection, c),
    ensures
        selects(t, collection, filters, id) <==> (c.rows.dom().contains(id) && passes_all(
            c.rows[id].fields,
            filters,
        )),
{
    assert(t.records.dom().contains((collection, id)) <==> c.rows.dom().contains(id));
    if c.rows.dom().contains(id) {
        let fields = c.rows[id].fields;
        assert forall|i: int| 0 <= i < filters.len() implies ((t.index.dom().contains(
            (collection, id, (#[trigger] filters[i]).field),
        ) && meets(t.index[(collection, id, filters[i].field)], filters[i].op, filters[i].value))
            <==> passes(fields, filters[i])) by {
            let f = filters[i].field;
            assert(t.index.dom().contains((collection, id, f)) <==> field_value(fields, f)
                is Some);
            if t.index.dom().contains((collection, id, f)) {
                assert(Some(t.index[(collection, id, f)]) == field_value(fields, f));
            }
        }
    }
}

} // verus!
