//! The store by record type: requirement documents, task specifications
//! and executions, each in the collection of its type and found by what it
//! is indexed under. A record comes with its JSON text; what is read is a
//! row of the cache, whose text the caller turns into a value.

use crate::filter::{filter_views, Filter, FilterOp, FilterView};
use crate::models::{ExecStatus, Execution, Prd, PrdStatus, TaskSpec, TaskSpecStatus};
use crate::order::lemma_id_lt_total;
use crate::record::{valid_id, IndexValue, StoreError, ValueView};
use crate::store::{
    before, collection_in, is_listing, lemma_row_before_transitive, listing_of, newest_first,
    row_before, row_in, row_views, write_refusal, written, CachedRecord, RowView, Store,
};
use vstd::prelude::*;

verus! {

/// The fields under which a requirements document is found.
pub open spec fn prd_fields(p: Prd) -> Seq<(Seq<char>, ValueView)> {
    seq![("status"@, ValueView::Text(p.status.text()))]
}

/// The fields under which a task specification is found.
pub open spec fn task_spec_fields(t: TaskSpec) -> Seq<(Seq<char>, ValueView)> {
    seq![("prd_id"@, ValueView::Text(t.prd_id@)), ("status"@, ValueView::Text(t.status.text()))]
}

/// The fields under which an execution is found.
pub open spec fn execution_fields(e: Execution) -> Seq<(Seq<char>, ValueView)> {
    seq![("ts_id"@, ValueView::Text(e.ts_id@)), ("status"@, ValueView::Text(e.status.text()))]
}

/// The filter that asks for one value of a text field.
pub open spec fn field_is(field: Seq<char>, value: Seq<char>) -> Seq<FilterView> {
    seq![FilterView { field, op: FilterOp::Eq, value: ValueView::Text(value) }]
}

fn text_is(field: &str, value: &str) -> (filters: Vec<Filter>)
    ensures
        filter_views(filters@) == field_is(field@, value@),
{
    let mut filters: Vec<Filter> = Vec::new();
    filters.push(
        Filter {
            field: String::from_str(field),
            op: FilterOp::Eq,
            value: IndexValue::String(String::from_str(value)),
        },
    );
    assert(filter_views(filters@) =~= field_is(field@, value@));
    filters
}

/// Whether `rows` holds a row that reads as `r`.
pub open spec fn has_row(rows: Seq<RowView>, r: RowView) -> bool {
    exists|k: int| 0 <= k < rows.len() && #[trigger] rows[k] == r
}

/// `all` is the union of two listings: in the order of a listing, every
/// row of either, each once.
pub open spec fn is_union(all: Seq<RowView>, a: Seq<RowView>, b: Seq<RowView>) -> bool {
    &&& newest_first(all)
    &&& forall|r: RowView| has_row(all, r) <==> (has_row(a, r) || has_row(b, r))
}

/// What the rows gathered so far must be for the union to come out: in
/// order, before everything that is still to come, and exactly the rows
/// that were passed.
spec fn union_upto(
    all: Seq<RowView>,
    a: Seq<RowView>,
    b: Seq<RowView>,
    i: int,
    j: int,
) -> bool {
    &&& 0 <= i <= a.len()
    &&& 0 <= j <= b.len()
    &&& newest_first(all)
    &&& forall|k: int, m: int|
        0 <= k < all.len() && i <= m < a.len() ==> row_before(#[trigger] all[k], #[trigger] a[m])
    &&& forall|k: int, m: int|
        0 <= k < all.len() && j <= m < b.len() ==> row_before(#[trigger] all[k], #[trigger] b[m])
    &&& forall|r: RowView| has_row(all, r) <==> (has_row(a.take(i), r) || has_row(b.take(j), r))
}

proof fn lemma_union_step(
    all: Seq<RowView>,
    a: Seq<RowView>,
    b: Seq<RowView>,
    i: int,
    j: int,
    x: RowView,
    i2: int,
    j2: int,
)
    requires
        union_upto(all, a, b, i, j),
        newest_first(a),
        newest_first(b),
        i <= i2 <= i + 1,
        j <= j2 <= j + 1,
        i2 > i || j2 > j,
        i2 > i ==> i < a.len() && a[i] == x,
        j2 > j ==> j < b.len() && b[j] == x,
        forall|m: int| i2 <= m < a.len() ==> row_before(x, #[trigger] a[m]),
        forall|m: int| j2 <= m < b.len() ==> row_before(x, #[trigger] b[m]),
    ensures
        union_upto(all.push(x), a, b, i2, j2),
{
    let next = all.push(x);
    assert forall|k: int, m: int| 0 <= k < m < next.len() implies row_before(
        #[trigger] next[k],
        #[trigger] next[m],
    ) by {
        assert(next[k] == all[k]);
        if m < all.len() {
            assert(next[m] == all[m]);
        } else if i2 > i {
            assert(row_before(all[k], a[i]));
        } else {
            assert(row_before(all[k], b[j]));
        }
    }
    assert forall|k: int, m: int| 0 <= k < next.len() && i2 <= m < a.len() implies row_before(
        #[trigger] next[k],
        #[trigger] a[m],
    ) by {
        if k < all.len() {
            assert(next[k] == all[k]);
        }
    }
    assert forall|k: int, m: int| 0 <= k < next.len() && j2 <= m < b.len() implies row_before(
        #[trigger] next[k],
        #[trigger] b[m],
    ) by {
        if k < all.len() {
            assert(next[k] == all[k]);
        }
    }
    assert forall|r: RowView|
        has_row(next, r) <==> (has_row(a.take(i2), r) || has_row(b.take(j2), r)) by {
        if has_row(next, r) {
            let k = choose|k: int| 0 <= k < next.len() && #[trigger] next[k] == r;
            if k < all.len() {
                assert(all[k] == r);
                assert(has_row(all, r));
                if has_row(a.take(i), r) {
                    let m = choose|m: int| 0 <= m < a.take(i).len() && #[trigger] a.take(i)[m] == r;
                    assert(a.take(i2)[m] == r);
                } else {
                    let m = choose|m: int| 0 <= m < b.take(j).len() && #[trigger] b.take(j)[m] == r;
                    assert(b.take(j2)[m] == r);
                }
            } else if i2 > i {
                assert(a.take(i2)[i] == r);
            } else {
                assert(b.take(j2)[j] == r);
            }
        }
        if has_row(a.take(i2), r) {
            let m = choose|m: int| 0 <= m < a.take(i2).len() && #[trigger] a.take(i2)[m] == r;
            if m < i {
                assert(a.take(i)[m] == r);
                assert(has_row(a.take(i), r));
                assert(has_row(all, r));
                let k = choose|k: int| 0 <= k < all.len() && #[trigger] all[k] == r;
                assert(next[k] == r);
            } else {
                assert(next[all.len() as int] == r);
            }
        }
        if has_row(b.take(j2), r) {
            let m = choose|m: int| 0 <= m < b.take(j2).len() && #[trigger] b.take(j2)[m] == r;
            if m < j {
                assert(b.take(j)[m] == r);
                assert(has_row(b.take(j), r));
                assert(has_row(all, r));
                let k = choose|k: int| 0 <= k < all.len() && #[trigger] all[k] == r;
                assert(next[k] == r);
            } else {
                assert(next[all.len() as int] == r);
            }
        }
    }
}

/// Joins two listings of one collection into one: the filters of the store
/// are joined by "and", and what is wanted under one filter or another is
/// listed under each and joined here. A row that both listings hold comes
/// once.
pub fn union_listings(a: &Vec<CachedRecord>, b: &Vec<CachedRecord>) -> (all: Vec<CachedRecord>)
    requires
        newest_first(row_views(a@)),
        newest_first(row_views(b@)),
        forall|i: int, j: int|
            0 <= i < a.len() && 0 <= j < b.len() && (#[trigger] a@[i]).id@ == (#[trigger] b@[j]).id@
                ==> a@[i]@ == b@[j]@,
    ensures
        is_union(row_views(all@), row_views(a@), row_views(b@)),
{
    let ghost av = row_views(a@);
    let ghost bv = row_views(b@);
    let mut all: Vec<CachedRecord> = Vec::new();
    let mut i: usize = 0;
    let mut j: usize = 0;
    proof {
        assert(row_views(all@) =~= Seq::empty());
        assert(av.take(0) =~= Seq::empty());
        assert(bv.take(0) =~= Seq::empty());
    }
    while i < a.len() || j < b.len()
        invariant
            av == row_views(a@),
            bv == row_views(b@),
            newest_first(av),
            newest_first(bv),
            forall|x: int, y: int|
                0 <= x < a.len() && 0 <= y < b.len() && (#[trigger] a@[x]).id@ == (
                #[trigger] b@[y]).id@ ==> a@[x]@ == b@[y]@,
            union_upto(row_views(all@), av, bv, i as int, j as int),
        decreases a.len() - i + b.len() - j,
    {
        let ghost sofar = row_views(all@);
        let take_a: bool = if i >= a.len() {
            false
        } else if j >= b.len() {
            true
        } else {
            !before(&b[j], &a[i])
        };
        if take_a {
            let x = a[i].clone();
            let both: bool = j < b.len() && !before(&a[i], &b[j]);
            proof {
                assert(av[i as int] == x@);
                assert forall|m: int| i + 1 <= m < av.len() implies row_before(
                    x@,
                    #[trigger] av[m],
                ) by {
                    assert(row_before(av[i as int], av[m]));
                }
                if j < b.len() {
                    assert(bv[j as int] == b@[j as int]@);
                    if both {
                        // neither comes before the other: they are one row
                        lemma_id_lt_total(x@.id, bv[j as int].id);
                        assert(a@[i as int].id@ == b@[j as int].id@);
                        assert(bv[j as int] == x@);
                    }
                    assert forall|m: int|
                        (if both {
                            j + 1
                        } else {
                            j as int
                        }) <= m < bv.len() implies row_before(x@, #[trigger] bv[m]) by {
                        if m > j {
                            assert(row_before(bv[j as int], bv[m]));
                            if !both {
                                lemma_row_before_transitive(x@, bv[j as int], bv[m]);
                            }
                        }
                    }
                }
                lemma_union_step(
                    sofar,
                    av,
                    bv,
                    i as int,
                    j as int,
                    x@,
                    i + 1,
                    if both {
                        j + 1
                    } else {
                        j as int
                    },
                );
                assert(row_views(all@.push(x)) =~= sofar.push(x@));
            }
            all.push(x);
            i = i + 1;
            if both {
                j = j + 1;
            }
        } else {
            let x = b[j].clone();
            proof {
                assert(bv[j as int] == x@);
                assert forall|m: int| j + 1 <= m < bv.len() implies row_before(
                    x@,
                    #[trigger] bv[m],
                ) by {
                    assert(row_before(bv[j as int], bv[m]));
                }
                if i < a.len() {
                    assert(av[i as int] == a@[i as int]@);
                    assert forall|m: int| i <= m < av.len() implies row_before(
                        x@,
                        #[trigger] av[m],
                    ) by {
                        if m > i {
                            assert(row_before(av[i as int], av[m]));
                            lemma_row_before_transitive(x@, av[i as int], av[m]);
                        }
                    }
                }
                lemma_union_step(sofar, av, bv, i as int, j as int, x@, i as int, j + 1);
                assert(row_views(all@.push(x)) =~= sofar.push(x@));
            }
            all.push(x);
            j = j + 1;
        }
    }
    proof {
        assert(av.take(i as int) =~= av);
        assert(bv.take(j as int) =~= bv);
    }
    all
}

/// The record types that the store knows by name.
#[derive(Debug, Clone, Copy, PartialEq, Eq, Structural)]
pub enum RecordKind {
    Prd,
    TaskSpec,
    Execution,
}

impl RecordKind {
    /// The name of the type as it is shown.
    pub open spec fn label(self) -> Seq<char> {
        match self {
            RecordKind::Prd => "PRD"@,
            RecordKind::TaskSpec => "TaskSpec"@,
            RecordKind::Execution => "Execution"@,
        }
    }

    /// The name of the type as it is shown.
    pub fn as_str(self) -> (r: &'static str)
        ensures
            r@ == self.label(),
    {
        match self {
            RecordKind::Prd => "PRD",
            RecordKind::TaskSpec => "TaskSpec",
            RecordKind::Execution => "Execution",
        }
    }
}

/// An update that was not made: of which type, under which id, and why.
#[derive(Debug, PartialEq, Eq)]
pub struct UpdateError {
    pub kind: RecordKind,
    pub id: String,
    pub error: StoreError,
}

impl UpdateError {
    /// The error in words: for a record that is not there, its type and
    /// its id; else what rule was broken.
    pub open spec fn text(self) -> Seq<char> {
        if self.error == StoreError::NotFound {
            self.kind.label() + " not found: "@ + self.id@
        } else {
            self.error.text()
        }
    }

    /// The error in words.
    pub fn to_string(&self) -> (r: String)
        ensures
            r@ == self.text(),
    {
        match self.error {
            StoreError::NotFound => {
                let mut r = String::from_str(self.kind.as_str());
                r.append(" not found: ");
                r.append(self.id.as_str());
                assert(r@ =~= self.text());
                r
            },
            _ => String::from_str(self.error.message()),
        }
    }
}

impl Store {
    /// Leaves the store as it is: every write is complete when it returns.
    pub fn flush(&mut self)
        requires
            old(self).wf(),
        ensures
            final(self).wf(),
            final(self)@ == old(self)@,
    {
    }

    /// Writes a requirements document, found by its status from then on.
    pub fn create_prd(&mut self, prd: &Prd, payload: &str, now: i64) -> (r: Result<
        String,
        StoreError,
    >)
        requires
            old(self).wf(),
        ensures
            final(self).wf(),
            match r {
                Ok(id) => {
                    &&& write_refusal("prds"@, prd.id@, payload@, prd_fields(*prd)) is None
                    &&& id@ == prd.id@
                    &&& final(self)@ == written(
                        old(self)@,
                        "prds"@,
                        RowView {
                            id: prd.id@,
                            payload: payload@,
                            updated_at: prd.updated_at,
                            fields: prd_fields(*prd),
                        },
                        now,
                    )
                },
                Err(e) => write_refusal("prds"@, prd.id@, payload@, prd_fields(*prd)) == Some(e)
                    && final(self)@ == old(self)@,
            },
    {
        self.create(
            Prd::collection_name(),
            prd.id.as_str(),
            prd.updated_at,
            payload,
            prd.indexed_fields(),
            now,
        )
    }

    /// The requirements document `id` as the cache holds it.
    pub fn get_prd(&self, id: &str) -> (r: Result<Option<CachedRecord>, StoreError>)
        requires
            self.wf(),
        ensures
            match r {
                Ok(found) => valid_id(id@) && match found {
                    Some(row) => row_in(self@, "prds"@, id@) == Some(row@),
                    None => row_in(self@, "prds"@, id@) is None,
                },
                Err(e) => e == StoreError::InvalidId && !valid_id(id@),
            },
    {
        proof {
            lemma_names_are_valid();
        }
        self.get(Prd::collection_name(), id)
    }

    /// Writes the requirements document that the cache holds under `id`;
    /// `NotFound` where it holds none.
    pub fn update_prd(&mut self, id: &str, prd: &Prd, payload: &str, now: i64) -> (r: Result<
        (),
        UpdateError,
    >)
        requires
            old(self).wf(),
        ensures
            final(self).wf(),
            match r {
                Ok(_) => {
                    &&& write_refusal("prds"@, id@, payload@, prd_fields(*prd)) is None
                    &&& row_in(old(self)@, "prds"@, id@) is Some
                    &&& final(self)@ == written(
                        old(self)@,
                        "prds"@,
                        RowView {
                            id: id@,
                            payload: payload@,
                            updated_at: prd.updated_at,
                            fields: prd_fields(*prd),
                        },
                        now,
                    )
                },
                Err(e) => final(self)@ == old(self)@ && e.kind == RecordKind::Prd && e.id@ == id@
                    && match write_refusal("prds"@, id@, payload@, prd_fields(*prd)) {
                    Some(why) => e.error == why,
                    None => e.error == StoreError::NotFound && row_in(old(self)@, "prds"@, id@) is None,
                },
            },
    {
        match self.update(
            Prd::collection_name(),
            id,
            prd.updated_at,
            payload,
            prd.indexed_fields(),
            now,
        ) {
            Ok(_) => Ok(()),
            Err(e) => Err(UpdateError { kind: RecordKind::Prd, id: String::from_str(id), error: e }),
        }
    }

    /// Lists the requirements documents: all of them, or those of one
    /// status.
    pub fn list_prds(&self, status: Option<PrdStatus>) -> (rows: Vec<CachedRecord>)
        requires
            self.wf(),
        ensures
            row_views(rows@) == listing_of(
                collection_in(self@, "prds"@),
                match status {
                    Some(s) => field_is("status"@, s.text()),
                    None => Seq::empty(),
                },
            ),
    {
        let filters = match status {
            Some(s) => text_is("status", s.as_str()),
            None => {
                let none: Vec<Filter> = Vec::new();
                assert(filter_views(none@) =~= Seq::empty());
                none
            },
        };
        proof {
            lemma_names_are_valid();
        }
        match self.list(Prd::collection_name(), &filters) {
            Ok(rows) => rows,
            Err(_) => {
                proof {
                    lemma_filters_are_valid(filter_views(filters@));
                }
                Vec::new()
            },
        }
    }

    /// Writes a task specification, found by its document and by its
    /// status from then on.
    pub fn create_task_spec(&mut self, ts: &TaskSpec, payload: &str, now: i64) -> (r: Result<
        String,
        StoreError,
    >)
        requires
            old(self).wf(),
        ensures
            final(self).wf(),
            match r {
                Ok(id) => {
                    &&& write_refusal("task_specs"@, ts.id@, payload@, task_spec_fields(*ts))
                        is None
                    &&& id@ == ts.id@
                    &&& final(self)@ == written(
                        old(self)@,
                        "task_specs"@,
                        RowView {
                            id: ts.id@,
                            payload: payload@,
                            updated_at: ts.updated_at,
                            fields: task_spec_fields(*ts),
                        },
                        now,
                    )
                },
                Err(e) => write_refusal("task_specs"@, ts.id@, payload@, task_spec_fields(*ts))
                    == Some(e) && final(self)@ == old(self)@,
            },
    {
        self.create(
            TaskSpec::collection_name(),
            ts.id.as_str(),
            ts.updated_at,
            payload,
            ts.indexed_fields(),
            now,
        )
    }

    /// The task specification `id` as the cache holds it.
    pub fn get_task_spec(&self, id: &str) -> (r: Result<Option<CachedRecord>, StoreError>)
        requires
            self.wf(),
        ensures
            match r {
                Ok(found) => valid_id(id@) && match found {
                    Some(row) => row_in(self@, "task_specs"@, id@) == Some(row@),
                    None => row_in(self@, "task_specs"@, id@) is None,
                },
                Err(e) => e == StoreError::InvalidId && !valid_id(id@),
            },
    {
        proof {
            lemma_names_are_valid();
        }
        self.get(TaskSpec::collection_name(), id)
    }

    /// Writes the task specification that the cache holds under `id`;
    /// `NotFound` where it holds none.
    pub fn update_task_spec(&mut self, id: &str, ts: &TaskSpec, payload: &str, now: i64) -> (r:
        Result<(), UpdateError>)
        requires
            old(self).wf(),
        ensures
            final(self).wf(),
            match r {
                Ok(_) => {
                    &&& write_refusal("task_specs"@, id@, payload@, task_spec_fields(*ts)) is None
                    &&& row_in(old(self)@, "task_specs"@, id@) is Some
                    &&& final(self)@ == written(
                        old(self)@,
                        "task_specs"@,
                        RowView {
                            id: id@,
                            payload: payload@,
                            updated_at: ts.updated_at,
                            fields: task_spec_fields(*ts),
                        },
                        now,
                    )
                },
                Err(e) => final(self)@ == old(self)@ && e.kind == RecordKind::TaskSpec && e.id@ == id@
                    && match write_refusal("task_specs"@, id@, payload@, task_spec_fields(*ts)) {
                    Some(why) => e.error == why,
                    None => e.error == StoreError::NotFound && row_in(old(self)@, "task_specs"@, id@)
                        is None,
                },
            },
    {
        match self.update(
            TaskSpec::collection_name(),
            id,
            ts.updated_at,
            payload,
            ts.indexed_fields(),
            now,
        ) {
            Ok(_) => Ok(()),
            Err(e) => Err(UpdateError { kind: RecordKind::TaskSpec, id: String::from_str(id), error: e }),
        }
    }

    /// Lists the task specifications of one requirements document.
    pub fn list_task_specs(&self, prd_id: &str) -> (rows: Vec<CachedRecord>)
        requires
            self.wf(),
        ensures
            row_views(rows@) == listing_of(
                collection_in(self@, "task_specs"@),
                field_is("prd_id"@, prd_id@),
            ),
    {
        let filters = text_is("prd_id", prd_id);
        proof {
            lemma_names_are_valid();
        }
        match self.list(TaskSpec::collection_name(), &filters) {
            Ok(rows) => rows,
            Err(_) => {
                proof {
                    lemma_filters_are_valid(filter_views(filters@));
                }
                Vec::new()
            },
        }
    }

    /// Lists the task specifications that wait to be run.
    pub fn list_pending_task_specs(&self) -> (rows: Vec<CachedRecord>)
        requires
            self.wf(),
        ensures
            row_views(rows@) == listing_of(
                collection_in(self@, "task_specs"@),
                field_is("status"@, TaskSpecStatus::Pending.text()),
            ),
    {
        let filters = text_is("status", TaskSpecStatus::Pending.as_str());
        proof {
            lemma_names_are_valid();
        }
        match self.list(TaskSpec::collection_name(), &filters) {
            Ok(rows) => rows,
            Err(_) => {
                proof {
                    lemma_filters_are_valid(filter_views(filters@));
                }
                Vec::new()
            },
        }
    }

    /// Writes an execution, found by its task specification and by its
    /// status from then on.
    pub fn create_execution(&mut self, exec: &Execution, payload: &str, now: i64) -> (r: Result<
        String,
        StoreError,
    >)
        requires
            old(self).wf(),
        ensures
            final(self).wf(),
            match r {
                Ok(id) => {
                    &&& write_refusal("executions"@, exec.id@, payload@, execution_fields(*exec))
                        is None
                    &&& id@ == exec.id@
                    &&& final(self)@ == written(
                        old(self)@,
                        "executions"@,
                        RowView {
                            id: exec.id@,
                            payload: payload@,
                            updated_at: exec.updated_at,
                            fields: execution_fields(*exec),
                        },
                        now,
                    )
                },
                Err(e) => write_refusal("executions"@, exec.id@, payload@, execution_fields(*exec))
                    == Some(e) && final(self)@ == old(self)@,
            },
    {
        self.create(
            Execution::collection_name(),
            exec.id.as_str(),
            exec.updated_at,
            payload,
            exec.indexed_fields(),
            now,
        )
    }

    /// The execution `id` as the cache holds it.
    pub fn get_execution(&self, id: &str) -> (r: Result<Option<CachedRecord>, StoreError>)
        requires
            self.wf(),
        ensures
            match r {
                Ok(found) => valid_id(id@) && match found {
                    Some(row) => row_in(self@, "executions"@, id@) == Some(row@),
                    None => row_in(self@, "executions"@, id@) is None,
                },
                Err(e) => e == StoreError::InvalidId && !valid_id(id@),
            },
    {
        proof {
            lemma_names_are_valid();
        }
        self.get(Execution::collection_name(), id)
    }

    /// Writes the execution that the cache holds under `id`; `NotFound`
    /// where it holds none.
    pub fn update_execution(&mut self, id: &str, exec: &Execution, payload: &str, now: i64) -> (r:
        Result<(), UpdateError>)
        requires
            old(self).wf(),
        ensures
            final(self).wf(),
            match r {
                Ok(_) => {
                    &&& write_refusal("executions"@, id@, payload@, execution_fields(*exec))
                        is None
                    &&& row_in(old(self)@, "executions"@, id@) is Some
                    &&& final(self)@ == written(
                        old(self)@,
                        "executions"@,
                        RowView {
                            id: id@,
                            payload: payload@,
                            updated_at: exec.updated_at,
                            fields: execution_fields(*exec),
                        },
                        now,
                    )
                },
                Err(e) => final(self)@ == old(self)@ && e.kind == RecordKind::Execution && e.id@ == id@
                    && match write_refusal("executions"@, id@, payload@, execution_fields(*exec)) {
                    Some(why) => e.error == why,
                    None => e.error == StoreError::NotFound && row_in(old(self)@, "executions"@, id@)
                        is None,
                },
            },
    {
        match self.update(
            Execution::collection_name(),
            id,
            exec.updated_at,
            payload,
            exec.indexed_fields(),
            now,
        ) {
            Ok(_) => Ok(()),
            Err(e) => Err(UpdateError { kind: RecordKind::Execution, id: String::from_str(id), error: e }),
        }
    }

    /// Lists the executions: all of them, or those of one status.
    pub fn list_executions(&self, status: Option<ExecStatus>) -> (rows: Vec<CachedRecord>)
        requires
            self.wf(),
        ensures
            is_listing(
                row_views(rows@),
                collection_in(self@, "executions"@),
                match status {
                    Some(s) => field_is("status"@, s.text()),
                    None => Seq::empty(),
                },
            ),
            row_views(rows@) == listing_of(
                collection_in(self@, "executions"@),
                match status {
                    Some(s) => field_is("status"@, s.text()),
                    None => Seq::empty(),
                },
            ),
    {
        let filters = match status {
            Some(s) => text_is("status", s.as_str()),
            None => {
                let none: Vec<Filter> = Vec::new();
                assert(filter_views(none@) =~= Seq::empty());
                none
            },
        };
        proof {
            lemma_names_are_valid();
        }
        match self.list(Execution::collection_name(), &filters) {
            Ok(rows) => rows,
            Err(_) => {
                proof {
                    lemma_filters_are_valid(filter_views(filters@));
                }
                Vec::new()
            },
        }
    }

    /// Lists the executions that are under way: those that run and those
    /// that are paused, in one listing.
    pub fn list_active_executions(&self) -> (rows: Vec<CachedRecord>)
        requires
            self.wf(),
        ensures
            is_union(
                row_views(rows@),
                listing_of(
                    collection_in(self@, "executions"@),
                    field_is("status"@, ExecStatus::Running.text()),
                ),
                listing_of(
                    collection_in(self@, "executions"@),
                    field_is("status"@, ExecStatus::Paused.text()),
                ),
            ),
    {
        let running = self.list_executions(Some(ExecStatus::Running));
        let paused = self.list_executions(Some(ExecStatus::Paused));
        proof {
            let c = collection_in(self@, "executions"@);
            let rv = row_views(running@);
            let pv = row_views(paused@);
            assert forall|i: int, j: int|
                0 <= i < running.len() && 0 <= j < paused.len() && (#[trigger] running@[i]).id@ == (
                #[trigger] paused@[j]).id@ implies running@[i]@ == paused@[j]@ by {
                assert(rv[i] == running@[i]@);
                assert(pv[j] == paused@[j]@);
                assert(c.rows[rv[i].id] == rv[i]);
                assert(c.rows[pv[j].id] == pv[j]);
            }
        }
        union_listings(&running, &paused)
    }
}

/// The names that the record types are kept and found under meet the
/// rules for names.
proof fn lemma_names_are_valid()
    ensures
        crate::record::valid_collection("prds"@),
        crate::record::valid_collection("task_specs"@),
        crate::record::valid_collection("executions"@),
        crate::record::valid_field("status"@),
        crate::record::valid_field("prd_id"@),
        crate::record::valid_field("ts_id"@),
{
    reveal_strlit("prds");
    reveal_strlit("task_specs");
    reveal_strlit("executions");
    reveal_strlit("status");
    reveal_strlit("prd_id");
    reveal_strlit("ts_id");
}

proof fn lemma_filters_are_valid(filters: Seq<FilterView>)
    requires
        filters.len() == 0 || (filters.len() == 1 && (filters[0].field == "status"@
            || filters[0].field == "prd_id"@)),
    ensures
        crate::plan::valid_filters(filters),
{
    lemma_names_are_valid();
}

} // verus!
