//! Three-way merge of logs: each side is reduced to the latest entry per id,
//! every id of either side is judged by where it is present, and what both
//! sides changed differently at the same time is handed back as a conflict.

use crate::json::{json_equal, json_same};
use crate::jsonl::{
    entries_in, entry_ids, entry_views, find_entry, is_latest_table, latest_entries, latest_in,
    lemma_latest_in_some, lemma_table_lookup, malformed_in, parse_jsonl, EntryView, LogEntry,
    LogError,
};
use crate::order::{ascending, holds, id_lt, insert_ascending, views};
use crate::text::lines_of;
use vstd::prelude::*;

verus! {

/// What the merge does with one id.
pub ghost enum Verdict {
    /// The entry goes into the merged log.
    Keep(EntryView),
    /// The id is left out of the merged log.
    Omit,
    /// Ours and theirs, which differ and are equally new.
    Conflict(EntryView, EntryView),
}

/// The rule of the merge for one id, from the latest entry of that id in the
/// ancestor, in ours and in theirs. `same` says whether ours and theirs are
/// structurally equal; it is read only where both are present.
///
/// An id on one side only is kept if the ancestor lacks it, and was deleted
/// on the other side if the ancestor has it: the deletion stands. An id on
/// both sides keeps ours where the two are equal, else the strictly newer
/// one; equally new and different is a conflict.
pub open spec fn verdict(
    base: Option<EntryView>,
    ours: Option<EntryView>,
    theirs: Option<EntryView>,
    same: bool,
) -> Verdict {
    match (ours, theirs) {
        (Some(o), None) => if base is None {
            Verdict::Keep(o)
        } else {
            Verdict::Omit
        },
        (None, Some(t)) => if base is None {
            Verdict::Keep(t)
        } else {
            Verdict::Omit
        },
        (Some(o), Some(t)) => if same {
            Verdict::Keep(o)
        } else if o.updated_at > t.updated_at {
            Verdict::Keep(o)
        } else if t.updated_at > o.updated_at {
            Verdict::Keep(t)
        } else {
            Verdict::Conflict(o, t)
        },
        (None, None) => Verdict::Omit,
    }
}

/// Whether the latest entries of `id` in ours and in theirs are both there
/// and structurally equal.
pub open spec fn same_at(id: Seq<char>, ours: Seq<EntryView>, theirs: Seq<EntryView>) -> bool {
    match (latest_in(ours, id), latest_in(theirs, id)) {
        (Some(o), Some(t)) => same_text(o.payload, t.payload),
        _ => false,
    }
}

/// Whether two JSON texts are structurally equal: both are JSON documents,
/// and they denote equal values. A text that is no JSON equals nothing.
pub open spec fn same_text(a: Seq<char>, b: Seq<char>) -> bool {
    json_same(a, b) == Some(true)
}

/// What the comparison of two JSON texts says of their equality.
pub fn is_same(compared: Option<bool>) -> (r: bool)
    ensures
        r == (compared == Some(true)),
{
    match compared {
        Some(b) => b,
        None => false,
    }
}

/// Whether two JSON texts are structurally equal.
pub fn same_payload(a: &str, b: &str) -> (r: bool)
    ensures
        r == same_text(a@, b@),
{
    match json_equal(a, b) {
        Ok(b) => is_same(Some(b)),
        Err(_) => is_same(None),
    }
}

/// The verdict on `id`, given the three logs.
pub open spec fn verdict_at(
    id: Seq<char>,
    base: Seq<EntryView>,
    ours: Seq<EntryView>,
    theirs: Seq<EntryView>,
) -> Verdict {
    verdict(
        latest_in(base, id),
        latest_in(ours, id),
        latest_in(theirs, id),
        same_at(id, ours, theirs),
    )
}

/// What the merge does with one id.
#[derive(Debug, PartialEq, Eq)]
pub enum Decision {
    Keep(LogEntry),
    Omit,
    Conflict(LogEntry, LogEntry),
}

impl View for Decision {
    type V = Verdict;

    open spec fn view(&self) -> Verdict {
        match self {
            Decision::Keep(e) => Verdict::Keep(e@),
            Decision::Omit => Verdict::Omit,
            Decision::Conflict(o, t) => Verdict::Conflict(o@, t@),
        }
    }
}

/// The view of an entry that may be absent.
pub open spec fn opt_view(e: Option<&LogEntry>) -> Option<EntryView> {
    match e {
        Some(e) => Some(e@),
        None => None,
    }
}

/// Judges one id from its latest entries on the three sides.
pub fn decide(
    base: Option<&LogEntry>,
    ours: Option<&LogEntry>,
    theirs: Option<&LogEntry>,
    same: bool,
) -> (d: Decision)
    ensures
        d@ == verdict(opt_view(base), opt_view(ours), opt_view(theirs), same),
{
    match (ours, theirs) {
        (Some(o), None) => {
            if base.is_none() {
                Decision::Keep(o.clone())
            } else {
                Decision::Omit
            }
        },
        (None, Some(t)) => {
            if base.is_none() {
                Decision::Keep(t.clone())
            } else {
                Decision::Omit
            }
        },
        (Some(o), Some(t)) => {
            if same {
                Decision::Keep(o.clone())
            } else if o.updated_at > t.updated_at {
                Decision::Keep(o.clone())
            } else if t.updated_at > o.updated_at {
                Decision::Keep(t.clone())
            } else {
                Decision::Conflict(o.clone(), t.clone())
            }
        },
        (None, None) => Decision::Omit,
    }
}

/// Two versions of one record that the merge could not choose between.
#[derive(Debug, PartialEq, Eq)]
pub struct Conflict {
    pub id: String,
    pub ours: LogEntry,
    pub theirs: LogEntry,
}

/// A conflict in the abstract.
pub ghost struct ConflictView {
    pub id: Seq<char>,
    pub ours: EntryView,
    pub theirs: EntryView,
}

impl View for Conflict {
    type V = ConflictView;

    open spec fn view(&self) -> ConflictView {
        ConflictView { id: self.id@, ours: self.ours@, theirs: self.theirs@ }
    }
}

/// The outcome of a merge.
#[derive(Debug, PartialEq, Eq)]
pub struct MergeOutcome {
    /// The entries of the merged log, in ascending order of id.
    pub merged: Vec<LogEntry>,
    /// The conflicts, in ascending order of id.
    pub conflicts: Vec<Conflict>,
}

/// The outcome of a merge in the abstract.
pub ghost struct OutcomeView {
    pub merged: Seq<EntryView>,
    pub conflicts: Seq<ConflictView>,
}

impl View for MergeOutcome {
    type V = OutcomeView;

    open spec fn view(&self) -> OutcomeView {
        OutcomeView {
            merged: self.merged@.map_values(|e: LogEntry| e@),
            conflicts: self.conflicts@.map_values(|c: Conflict| c@),
        }
    }
}

/// The ids of a sequence of conflicts.
pub open spec fn conflict_ids(conflicts: Seq<ConflictView>) -> Seq<Seq<char>> {
    conflicts.map_values(|c: ConflictView| c.id)
}

/// `out` is the merge of the three logs: it holds, in ascending order of id,
/// exactly the entries that the verdicts keep and exactly the conflicts that
/// they find.
pub open spec fn is_merge(
    out: OutcomeView,
    base: Seq<EntryView>,
    ours: Seq<EntryView>,
    theirs: Seq<EntryView>,
) -> bool {
    &&& ascending(entry_ids(out.merged))
    &&& forall|k: int|
        0 <= k < out.merged.len() ==> verdict_at(
            (#[trigger] out.merged[k]).id,
            base,
            ours,
            theirs,
        ) == Verdict::Keep(out.merged[k])
    &&& forall|id: Seq<char>| #[trigger]
        verdict_at(id, base, ours, theirs) is Keep ==> exists|k: int|
            0 <= k < out.merged.len() && (#[trigger] out.merged[k]).id == id
    &&& ascending(conflict_ids(out.conflicts))
    &&& forall|k: int|
        0 <= k < out.conflicts.len() ==> verdict_at(
            (#[trigger] out.conflicts[k]).id,
            base,
            ours,
            theirs,
        ) == Verdict::Conflict(out.conflicts[k].ours, out.conflicts[k].theirs)
    &&& forall|id: Seq<char>| #[trigger]
        verdict_at(id, base, ours, theirs) is Conflict ==> exists|k: int|
            0 <= k < out.conflicts.len() && (#[trigger] out.conflicts[k]).id == id
}

/// The merge of the three logs. Every three logs have one.
pub open spec fn merge_of(base: Seq<EntryView>, ours: Seq<EntryView>, theirs: Seq<EntryView>) -> OutcomeView {
    choose|out: OutcomeView| is_merge(out, base, ours, theirs)
}

/// The ids of both tables, each once, in ascending order.
fn all_ids(ours: &Vec<LogEntry>, theirs: &Vec<LogEntry>) -> (ids: Vec<String>)
    ensures
        ascending(views(ids@)),
        forall|x: Seq<char>|
            holds(ids@, x) <==> ((exists|k: int|
                0 <= k < ours.len() && (#[trigger] ours@[k]).id@ == x) || (exists|k: int|
                0 <= k < theirs.len() && (#[trigger] theirs@[k]).id@ == x)),
{
    let mut ids: Vec<String> = Vec::new();
    let mut i: usize = 0;
    assert(views(ids@) =~= Seq::empty());
    while i < ours.len()
        invariant
            i <= ours.len(),
            ascending(views(ids@)),
            forall|x: Seq<char>|
                holds(ids@, x) <==> (exists|k: int| 0 <= k < i && (#[trigger] ours@[k]).id@ == x),
        decreases ours.len() - i,
    {
        let ghost before = ids@;
        insert_ascending(&mut ids, ours[i].id.clone());
        proof {
            assert forall|x: Seq<char>| holds(ids@, x) <==> (exists|k: int|
                0 <= k < i + 1 && (#[trigger] ours@[k]).id@ == x) by {
                if exists|k: int| 0 <= k < i + 1 && (#[trigger] ours@[k]).id@ == x {
                    let k = choose|k: int| 0 <= k < i + 1 && (#[trigger] ours@[k]).id@ == x;
                    if k < i {
                        assert(holds(before, x));
                    }
                }
                if holds(before, x) {
                    let k = choose|k: int| 0 <= k < i && (#[trigger] ours@[k]).id@ == x;
                    assert(ours@[k].id@ == x);
                }
                if x == ours@[i as int].id@ {
                    assert(ours@[i as int].id@ == x);
                }
            }
        }
        i = i + 1;
    }
    let mut j: usize = 0;
    while j < theirs.len()
        invariant
            j <= theirs.len(),
            ascending(views(ids@)),
            forall|x: Seq<char>|
                holds(ids@, x) <==> ((exists|k: int|
                    0 <= k < ours.len() && (#[trigger] ours@[k]).id@ == x) || (exists|k: int|
                    0 <= k < j && (#[trigger] theirs@[k]).id@ == x)),
        decreases theirs.len() - j,
    {
        let ghost before = ids@;
        insert_ascending(&mut ids, theirs[j].id.clone());
        proof {
            assert forall|x: Seq<char>|
                holds(ids@, x) <==> ((exists|k: int|
                    0 <= k < ours.len() && (#[trigger] ours@[k]).id@ == x) || (exists|k: int|
                    0 <= k < j + 1 && (#[trigger] theirs@[k]).id@ == x)) by {
                if exists|k: int| 0 <= k < j + 1 && (#[trigger] theirs@[k]).id@ == x {
                    let k = choose|k: int| 0 <= k < j + 1 && (#[trigger] theirs@[k]).id@ == x;
                    if k < j {
                        assert(holds(before, x));
                    }
                }
                if holds(before, x) && !(exists|k: int|
                    0 <= k < ours.len() && (#[trigger] ours@[k]).id@ == x) {
                    let k = choose|k: int| 0 <= k < j && (#[trigger] theirs@[k]).id@ == x;
                    assert(theirs@[k].id@ == x);
                }
                if x == theirs@[j as int].id@ {
                    assert(theirs@[j as int].id@ == x);
                }
            }
        }
        j = j + 1;
    }
    ids
}

fn lookup<'a>(table: &'a Vec<LogEntry>, id: &String, Ghost(entries): Ghost<Seq<EntryView>>) -> (r:
    Option<&'a LogEntry>)
    requires
        is_latest_table(entry_views(table@), entries),
    ensures
        opt_view(r) == latest_in(entries, id@),
{
    proof {
        lemma_table_lookup(entry_views(table@), entries, id@);
    }
    match find_entry(table, id) {
        Some(k) => {
            assert(entry_views(table@)[k as int] == table@[k as int]@);
            Some(&table[k])
        },
        None => {
            assert forall|k: int| 0 <= k < entry_views(table@).len() implies (
            #[trigger] entry_views(table@)[k]).id != id@ by {
                assert(entry_views(table@)[k] == table@[k]@);
            }
            None
        },
    }
}

/// Judges `id` from the three tables of latest entries.
fn decide_at(
    base_table: &Vec<LogEntry>,
    ours_table: &Vec<LogEntry>,
    theirs_table: &Vec<LogEntry>,
    id: &String,
    Ghost(b): Ghost<Seq<EntryView>>,
    Ghost(o): Ghost<Seq<EntryView>>,
    Ghost(t): Ghost<Seq<EntryView>>,
) -> (d: Decision)
    requires
        is_latest_table(entry_views(base_table@), b),
        is_latest_table(entry_views(ours_table@), o),
        is_latest_table(entry_views(theirs_table@), t),
    ensures
        d@ == verdict_at(id@, b, o, t),
        d matches Decision::Keep(e) ==> e.id@ == id@,
        d matches Decision::Conflict(x, y) ==> x.id@ == id@,
{
    let in_base = lookup(base_table, id, Ghost(b));
    let in_ours = lookup(ours_table, id, Ghost(o));
    let in_theirs = lookup(theirs_table, id, Ghost(t));
    let same = match (in_ours, in_theirs) {
        (Some(x), Some(y)) => same_payload(x.payload.as_str(), y.payload.as_str()),
        _ => false,
    };
    proof {
        lemma_latest_in_some(o, id@);
        lemma_latest_in_some(t, id@);
    }
    decide(in_base, in_ours, in_theirs, same)
}

/// Ids that all come before `x` stay ascending when `x` is put behind them.
proof fn lemma_push_ascending(ids: Seq<Seq<char>>, x: Seq<char>)
    requires
        ascending(ids),
        forall|k: int| 0 <= k < ids.len() ==> id_lt(#[trigger] ids[k], x),
    ensures
        ascending(ids.push(x)),
{
    let after = ids.push(x);
    assert forall|i: int, j: int| 0 <= i < j < after.len() implies id_lt(
        #[trigger] after[i],
        #[trigger] after[j],
    ) by {
        assert(after[i] == ids[i]);
        if j < ids.len() {
            assert(after[j] == ids[j]);
        }
    }
}

/// Merges three logs, each given as the entries of its lines.
pub fn merge_entries(base: &Vec<LogEntry>, ours: &Vec<LogEntry>, theirs: &Vec<LogEntry>) -> (out:
    MergeOutcome)
    ensures
        is_merge(out@, entry_views(base@), entry_views(ours@), entry_views(theirs@)),
        out@ == merge_of(entry_views(base@), entry_views(ours@), entry_views(theirs@)),
{
    let ghost b = entry_views(base@);
    let ghost o = entry_views(ours@);
    let ghost t = entry_views(theirs@);
    let base_table = latest_entries(base);
    let ours_table = latest_entries(ours);
    let theirs_table = latest_entries(theirs);
    let ids = all_ids(&ours_table, &theirs_table);
    let ghost idv = views(ids@);
    let mut merged: Vec<LogEntry> = Vec::new();
    let mut conflicts: Vec<Conflict> = Vec::new();
    let ghost mut mv: Seq<EntryView> = Seq::empty();
    let ghost mut cv: Seq<ConflictView> = Seq::empty();
    let mut i: usize = 0;
    proof {
        assert(mv =~= merged@.map_values(|e: LogEntry| e@));
        assert(cv =~= conflicts@.map_values(|c: Conflict| c@));
    }
    while i < ids.len()
        invariant
            i <= ids.len(),
            idv == views(ids@),
            ascending(idv),
            is_latest_table(entry_views(base_table@), b),
            is_latest_table(entry_views(ours_table@), o),
            is_latest_table(entry_views(theirs_table@), t),
            mv == merged@.map_values(|e: LogEntry| e@),
            cv == conflicts@.map_values(|c: Conflict| c@),
            is_merge_upto(mv, cv, idv, i as int, b, o, t),
        decreases ids.len() - i,
    {
        let id = &ids[i];
        assert(idv[i as int] == id@);
        match decide_at(&base_table, &ours_table, &theirs_table, id, Ghost(b), Ghost(o), Ghost(t)) {
            Decision::Keep(e) => {
                proof {
                    lemma_step_keep(mv, cv, idv, i as int, b, o, t, e@);
                    assert(merged@.push(e).map_values(|e: LogEntry| e@) =~= mv.push(e@));
                    mv = mv.push(e@);
                }
                merged.push(e);
            },
            Decision::Omit => {
                proof {
                    lemma_step_omit(mv, cv, idv, i as int, b, o, t);
                }
            },
            Decision::Conflict(x, y) => {
                let c = Conflict { id: id.clone(), ours: x, theirs: y };
                proof {
                    lemma_step_conflict(mv, cv, idv, i as int, b, o, t, c@);
                    assert(conflicts@.push(c).map_values(|c: Conflict| c@) =~= cv.push(c@));
                    cv = cv.push(c@);
                }
                conflicts.push(c);
            },
        }
        i = i + 1;
    }
    let out = MergeOutcome { merged, conflicts };
    proof {
        assert forall|id: Seq<char>|
            (#[trigger] verdict_at(id, b, o, t) is Keep || verdict_at(id, b, o, t) is Conflict)
                implies exists|j: int| 0 <= j < idv.len() && idv[j] == id by {
            lemma_present_is_listed(id, ids@, ours_table@, theirs_table@, o, t);
            let j = choose|j: int| 0 <= j < ids@.len() && (#[trigger] ids@[j])@ == id;
            assert(idv[j] == id);
        }
        lemma_merge_done(mv, cv, idv, b, o, t);
        lemma_merge_of(out@, b, o, t);
    }
    out
}

/// The part of a merge that the first `n` ids have given: what `is_merge`
/// asks, of those ids only, and everything gathered comes before the ids
/// that are still to be judged.
pub open spec fn is_merge_upto(
    merged: Seq<EntryView>,
    conflicts: Seq<ConflictView>,
    ids: Seq<Seq<char>>,
    n: int,
    base: Seq<EntryView>,
    ours: Seq<EntryView>,
    theirs: Seq<EntryView>,
) -> bool {
    &&& 0 <= n <= ids.len()
    &&& ascending(entry_ids(merged))
    &&& ascending(conflict_ids(conflicts))
    &&& forall|k: int, j: int|
        0 <= k < merged.len() && n <= j < ids.len() ==> id_lt(
            (#[trigger] merged[k]).id,
            #[trigger] ids[j],
        )
    &&& forall|k: int, j: int|
        0 <= k < conflicts.len() && n <= j < ids.len() ==> id_lt(
            (#[trigger] conflicts[k]).id,
            #[trigger] ids[j],
        )
    &&& forall|k: int|
        0 <= k < merged.len() ==> verdict_at((#[trigger] merged[k]).id, base, ours, theirs)
            == Verdict::Keep(merged[k])
    &&& forall|k: int|
        0 <= k < conflicts.len() ==> verdict_at((#[trigger] conflicts[k]).id, base, ours, theirs)
            == Verdict::Conflict(conflicts[k].ours, conflicts[k].theirs)
    &&& forall|j: int|
        0 <= j < n && verdict_at(#[trigger] ids[j], base, ours, theirs) is Keep ==> exists|k: int|
            0 <= k < merged.len() && (#[trigger] merged[k]).id == ids[j]
    &&& forall|j: int|
        0 <= j < n && verdict_at(#[trigger] ids[j], base, ours, theirs) is Conflict ==> exists|
            k: int,
        | 0 <= k < conflicts.len() && (#[trigger] conflicts[k]).id == ids[j]
}

proof fn lemma_step_omit(
    merged: Seq<EntryView>,
    conflicts: Seq<ConflictView>,
    ids: Seq<Seq<char>>,
    n: int,
    base: Seq<EntryView>,
    ours: Seq<EntryView>,
    theirs: Seq<EntryView>,
)
    requires
        is_merge_upto(merged, conflicts, ids, n, base, ours, theirs),
        n < ids.len(),
        verdict_at(ids[n], base, ours, theirs) is Omit,
    ensures
        is_merge_upto(merged, conflicts, ids, n + 1, base, ours, theirs),
{
}

proof fn lemma_step_keep(
    merged: Seq<EntryView>,
    conflicts: Seq<ConflictView>,
    ids: Seq<Seq<char>>,
    n: int,
    base: Seq<EntryView>,
    ours: Seq<EntryView>,
    theirs: Seq<EntryView>,
    e: EntryView,
)
    requires
        is_merge_upto(merged, conflicts, ids, n, base, ours, theirs),
        ascending(ids),
        n < ids.len(),
        e.id == ids[n],
        verdict_at(ids[n], base, ours, theirs) == Verdict::Keep(e),
    ensures
        is_merge_upto(merged.push(e), conflicts, ids, n + 1, base, ours, theirs),
{
    let after = merged.push(e);
    assert(entry_ids(after) =~= entry_ids(merged).push(e.id));
    assert forall|k: int| 0 <= k < merged.len() implies id_lt(
        #[trigger] entry_ids(merged)[k],
        e.id,
    ) by {
        assert(id_lt(merged[k].id, ids[n]));
    }
    lemma_push_ascending(entry_ids(merged), e.id);
    assert forall|k: int, j: int| 0 <= k < after.len() && n + 1 <= j < ids.len() implies id_lt(
        (#[trigger] after[k]).id,
        #[trigger] ids[j],
    ) by {
        if k < merged.len() {
            assert(after[k] == merged[k]);
        } else {
            assert(id_lt(ids[n], ids[j]));
        }
    }
    assert forall|k: int| 0 <= k < after.len() implies verdict_at(
        (#[trigger] after[k]).id,
        base,
        ours,
        theirs,
    ) == Verdict::Keep(after[k]) by {
        if k < merged.len() {
            assert(after[k] == merged[k]);
        }
    }
    assert forall|j: int|
        0 <= j < n + 1 && verdict_at(#[trigger] ids[j], base, ours, theirs) is Keep implies exists|
        k: int,
    | 0 <= k < after.len() && (#[trigger] after[k]).id == ids[j] by {
        if j < n {
            let k = choose|k: int| 0 <= k < merged.len() && (#[trigger] merged[k]).id == ids[j];
            assert(after[k].id == ids[j]);
        } else {
            assert(after[merged.len() as int].id == ids[j]);
        }
    }
}

proof fn lemma_step_conflict(
    merged: Seq<EntryView>,
    conflicts: Seq<ConflictView>,
    ids: Seq<Seq<char>>,
    n: int,
    base: Seq<EntryView>,
    ours: Seq<EntryView>,
    theirs: Seq<EntryView>,
    c: ConflictView,
)
    requires
        is_merge_upto(merged, conflicts, ids, n, base, ours, theirs),
        ascending(ids),
        n < ids.len(),
        c.id == ids[n],
        verdict_at(ids[n], base, ours, theirs) == Verdict::Conflict(c.ours, c.theirs),
    ensures
        is_merge_upto(merged, conflicts.push(c), ids, n + 1, base, ours, theirs),
{
    let after = conflicts.push(c);
    assert(conflict_ids(after) =~= conflict_ids(conflicts).push(c.id));
    assert forall|k: int| 0 <= k < conflicts.len() implies id_lt(
        #[trigger] conflict_ids(conflicts)[k],
        c.id,
    ) by {
        assert(id_lt(conflicts[k].id, ids[n]));
    }
    lemma_push_ascending(conflict_ids(conflicts), c.id);
    assert forall|k: int, j: int| 0 <= k < after.len() && n + 1 <= j < ids.len() implies id_lt(
        (#[trigger] after[k]).id,
        #[trigger] ids[j],
    ) by {
        if k < conflicts.len() {
            assert(after[k] == conflicts[k]);
        } else {
            assert(id_lt(ids[n], ids[j]));
        }
    }
    assert forall|k: int| 0 <= k < after.len() implies verdict_at(
        (#[trigger] after[k]).id,
        base,
        ours,
        theirs,
    ) == Verdict::Conflict(after[k].ours, after[k].theirs) by {
        if k < conflicts.len() {
            assert(after[k] == conflicts[k]);
        }
    }
    assert forall|j: int|
        0 <= j < n + 1 && verdict_at(
            #[trigger] ids[j],
            base,
            ours,
            theirs,
        ) is Conflict implies exists|k: int|
        0 <= k < after.len() && (#[trigger] after[k]).id == ids[j] by {
        if j < n {
            let k = choose|k: int|
                0 <= k < conflicts.len() && (#[trigger] conflicts[k]).id == ids[j];
            assert(after[k].id == ids[j]);
        } else {
            assert(after[conflicts.len() as int].id == ids[j]);
        }
    }
}

proof fn lemma_merge_done(
    merged: Seq<EntryView>,
    conflicts: Seq<ConflictView>,
    ids: Seq<Seq<char>>,
    base: Seq<EntryView>,
    ours: Seq<EntryView>,
    theirs: Seq<EntryView>,
)
    requires
        is_merge_upto(merged, conflicts, ids, ids.len() as int, base, ours, theirs),
        forall|id: Seq<char>|
            (#[trigger] verdict_at(id, base, ours, theirs) is Keep || verdict_at(
                id,
                base,
                ours,
                theirs,
            ) is Conflict) ==> exists|j: int| 0 <= j < ids.len() && ids[j] == id,
    ensures
        is_merge(OutcomeView { merged, conflicts }, base, ours, theirs),
{
    assert forall|id: Seq<char>| #[trigger]
        verdict_at(id, base, ours, theirs) is Keep implies exists|k: int|
        0 <= k < merged.len() && (#[trigger] merged[k]).id == id by {
        let j = choose|j: int| 0 <= j < ids.len() && ids[j] == id;
        assert(verdict_at(ids[j], base, ours, theirs) is Keep);
    }
    assert forall|id: Seq<char>| #[trigger]
        verdict_at(id, base, ours, theirs) is Conflict implies exists|k: int|
        0 <= k < conflicts.len() && (#[trigger] conflicts[k]).id == id by {
        let j = choose|j: int| 0 <= j < ids.len() && ids[j] == id;
        assert(verdict_at(ids[j], base, ours, theirs) is Conflict);
    }
}

/// An id that ours or theirs holds is among the ids of the two tables.
proof fn lemma_present_is_listed(
    id: Seq<char>,
    ids: Seq<String>,
    ours_table: Seq<LogEntry>,
    theirs_table: Seq<LogEntry>,
    o: Seq<EntryView>,
    t: Seq<EntryView>,
)
    requires
        is_latest_table(entry_views(ours_table), o),
        is_latest_table(entry_views(theirs_table), t),
        forall|x: Seq<char>|
            holds(ids, x) <==> ((exists|k: int|
                0 <= k < ours_table.len() && (#[trigger] ours_table[k]).id@ == x) || (exists|k: int|
                0 <= k < theirs_table.len() && (#[trigger] theirs_table[k]).id@ == x)),
        latest_in(o, id) is Some || latest_in(t, id) is Some,
    ensures
        holds(ids, id),
{
    if latest_in(o, id) is Some {
        let k = choose|k: int|
            0 <= k < entry_views(ours_table).len() && (#[trigger] entry_views(ours_table)[k]).id
                == id;
        assert(ours_table[k].id@ == id);
    } else {
        let k = choose|k: int|
            0 <= k < entry_views(theirs_table).len() && (#[trigger] entry_views(
                theirs_table,
            )[k]).id == id;
        assert(theirs_table[k].id@ == id);
    }
}

/// The lines of the merged log: each kept entry's JSON text and a line feed.
pub open spec fn rendered_entries(merged: Seq<EntryView>) -> Seq<char>
    decreases merged.len(),
{
    if merged.len() == 0 {
        Seq::empty()
    } else {
        rendered_entries(merged.drop_last()) + merged.last().payload + seq!['\n']
    }
}

/// One conflict as it is written out: both versions between markers.
pub open spec fn conflict_block(c: ConflictView) -> Seq<char> {
    "<<<<<<< OURS ("@ + c.id + ")\n"@ + c.ours.payload + "\n=======\n"@ + c.theirs.payload
        + "\n>>>>>>> THEIRS\n"@
}

/// The conflict blocks, one after the other.
pub open spec fn rendered_conflicts(conflicts: Seq<ConflictView>) -> Seq<char>
    decreases conflicts.len(),
{
    if conflicts.len() == 0 {
        Seq::empty()
    } else {
        rendered_conflicts(conflicts.drop_last()) + conflict_block(conflicts.last())
    }
}

/// The text of a merged log: the kept entries, then the conflicts.
pub open spec fn rendered(out: OutcomeView) -> Seq<char> {
    rendered_entries(out.merged) + rendered_conflicts(out.conflicts)
}

/// Writes a merge outcome as the text of a log.
pub fn render(out: &MergeOutcome) -> (text: String)
    ensures
        text@ == rendered(out@),
{
    let ghost mv = out@.merged;
    let ghost cv = out@.conflicts;
    let mut text = String::new();
    let mut i: usize = 0;
    while i < out.merged.len()
        invariant
            i <= out.merged.len(),
            mv == out@.merged,
            text@ == rendered_entries(mv.take(i as int)),
        decreases out.merged.len() - i,
    {
        proof {
            assert(mv.take(i + 1).drop_last() =~= mv.take(i as int));
            assert(mv.take(i + 1).last() == out.merged@[i as int]@);
        }
        text.append(out.merged[i].payload.as_str());
        text.push('\n');
        i = i + 1;
    }
    proof {
        assert(mv.take(i as int) =~= mv);
    }
    let mut j: usize = 0;
    while j < out.conflicts.len()
        invariant
            j <= out.conflicts.len(),
            cv == out@.conflicts,
            text@ == rendered_entries(mv) + rendered_conflicts(cv.take(j as int)),
        decreases out.conflicts.len() - j,
    {
        let c = &out.conflicts[j];
        let ghost before = text@;
        proof {
            assert(cv.take(j + 1).drop_last() =~= cv.take(j as int));
            assert(cv.take(j + 1).last() == c@);
        }
        text.append("<<<<<<< OURS (");
        text.append(c.id.as_str());
        text.append(")\n");
        text.append(c.ours.payload.as_str());
        text.append("\n=======\n");
        text.append(c.theirs.payload.as_str());
        text.append("\n>>>>>>> THEIRS\n");
        proof {
            assert(text@ =~= before + conflict_block(c@));
            assert(before + conflict_block(c@) =~= rendered_entries(mv) + (rendered_conflicts(
                cv.take(j as int),
            ) + conflict_block(c@)));
        }
        j = j + 1;
    }
    proof {
        assert(cv.take(j as int) =~= cv);
    }
    text
}

/// One of the three logs of a merge.
#[derive(Debug, Clone, Copy, PartialEq, Eq, Structural)]
pub enum Side {
    Ancestor,
    Ours,
    Theirs,
}

/// A merge that could not be made: a line of one log is not JSON.
#[derive(Debug, Clone, Copy, PartialEq, Eq, Structural)]
pub struct MergeError {
    pub side: Side,
    /// The number of the line, counted from 1.
    pub line: usize,
}

/// A merged log.
#[derive(Debug, PartialEq, Eq)]
pub struct MergeResult {
    /// The text to write back in place of ours.
    pub content: String,
    /// Whether the text holds conflict markers and needs a hand.
    pub has_conflicts: bool,
}

/// The first log of a merge that cannot be read, with its first line that
/// is not JSON.
pub open spec fn merge_failure(base: Seq<char>, ours: Seq<char>, theirs: Seq<char>) -> Option<
    MergeError,
> {
    if malformed_in(lines_of(base)).len() > 0 {
        Some(MergeError { side: Side::Ancestor, line: malformed_in(lines_of(base))[0] })
    } else if malformed_in(lines_of(ours)).len() > 0 {
        Some(MergeError { side: Side::Ours, line: malformed_in(lines_of(ours))[0] })
    } else if malformed_in(lines_of(theirs)).len() > 0 {
        Some(MergeError { side: Side::Theirs, line: malformed_in(lines_of(theirs))[0] })
    } else {
        None
    }
}

fn line_of(e: LogError) -> (n: usize)
    ensures
        e matches LogError::Malformed(k) ==> n == k,
{
    match e {
        LogError::Malformed(k) => k,
        LogError::NotOneLine => 0,
    }
}

/// Merges three logs, each given as its text; a log that does not exist is
/// given as the empty text. Blank lines are passed over. A line that is not
/// JSON fails the merge, whichever log holds it. The merged text is made
/// also where there are conflicts.
pub fn merge_jsonl_files(ancestor: &str, ours: &str, theirs: &str) -> (r: Result<
    MergeResult,
    MergeError,
>)
    ensures
        match r {
            Err(e) => merge_failure(ancestor@, ours@, theirs@) == Some(e),
            Ok(m) => {
                let out = merge_of(
                    entries_in(lines_of(ancestor@)),
                    entries_in(lines_of(ours@)),
                    entries_in(lines_of(theirs@)),
                );
                &&& merge_failure(ancestor@, ours@, theirs@) is None
                &&& m.content@ == rendered(out)
                &&& m.has_conflicts == (out.conflicts.len() > 0)
            },
        },
{
    let base_entries = match parse_jsonl(ancestor) {
        Ok(v) => v,
        Err(e) => {
            return Err(MergeError { side: Side::Ancestor, line: line_of(e) });
        },
    };
    let our_entries = match parse_jsonl(ours) {
        Ok(v) => v,
        Err(e) => {
            return Err(MergeError { side: Side::Ours, line: line_of(e) });
        },
    };
    let their_entries = match parse_jsonl(theirs) {
        Ok(v) => v,
        Err(e) => {
            return Err(MergeError { side: Side::Theirs, line: line_of(e) });
        },
    };
    let out = merge_entries(&base_entries, &our_entries, &their_entries);
    let content = render(&out);
    let has_conflicts = out.conflicts.len() > 0;
    proof {
        lemma_merge_of(
            out@,
            entry_views(base_entries@),
            entry_views(our_entries@),
            entry_views(their_entries@),
        );
    }
    Ok(MergeResult { content, has_conflicts })
}

/// How a merge ends, as the process reports it.
pub open spec fn exit_code_of(outcome: Option<bool>) -> i32 {
    match outcome {
        Some(false) => 0,
        Some(true) => 1,
        None => 2,
    }
}

/// The exit code of the merge driver: 0 for a clean merge, 1 where the
/// merged text holds conflicts, 2 where no merge was made.
pub fn exit_code(r: &Result<MergeResult, MergeError>) -> (code: i32)
    ensures
        code == exit_code_of(
            match r {
                Ok(m) => Some(m.has_conflicts),
                Err(_) => None,
            },
        ),
{
    match r {
        Ok(m) => if m.has_conflicts {
            1
        } else {
            0
        },
        Err(_) => 2,
    }
}

/// What one side alone added is kept.
pub proof fn law_one_sided_add(e: EntryView, same: bool)
    ensures
        verdict(None, Some(e), None, same) == Verdict::Keep(e),
        verdict(None, None, Some(e), same) == Verdict::Keep(e),
{
}

/// A deletion stands: what the ancestor has and one side lacks is left
/// out, whatever the other side made of it.
pub proof fn law_deletion_wins(base: EntryView, e: EntryView, same: bool)
    ensures
        verdict(Some(base), Some(e), None, same) == Verdict::Omit,
        verdict(Some(base), None, Some(e), same) == Verdict::Omit,
{
}

/// Of two versions that differ the strictly newer one is kept, with or
/// without an ancestor, whichever side it is on.
pub proof fn law_newer_wins(base: Option<EntryView>, older: EntryView, newer: EntryView)
    requires
        older.updated_at < newer.updated_at,
    ensures
        verdict(base, Some(older), Some(newer), false) == Verdict::Keep(newer),
        verdict(base, Some(newer), Some(older), false) == Verdict::Keep(newer),
{
}

/// Two versions that differ and are equally new are a conflict that holds
/// both.
pub proof fn law_tie_conflicts(base: Option<EntryView>, ours: EntryView, theirs: EntryView)
    requires
        ours.updated_at == theirs.updated_at,
    ensures
        verdict(base, Some(ours), Some(theirs), false) == Verdict::Conflict(ours, theirs),
{
}

/// Two versions that are structurally equal are no conflict, whatever their
/// times: ours is kept.
pub proof fn law_equal_is_no_conflict(base: Option<EntryView>, ours: EntryView, theirs: EntryView)
    ensures
        verdict(base, Some(ours), Some(theirs), true) == Verdict::Keep(ours),
{
}

/// A merge has conflicts exactly when some id is judged a conflict.
pub proof fn law_conflicts_are_found(
    out: OutcomeView,
    base: Seq<EntryView>,
    ours: Seq<EntryView>,
    theirs: Seq<EntryView>,
)
    requires
        is_merge(out, base, ours, theirs),
    ensures
        out.conflicts.len() > 0 <==> exists|id: Seq<char>| #[trigger]
            verdict_at(id, base, ours, theirs) is Conflict,
{
    if out.conflicts.len() > 0 {
        assert(verdict_at(out.conflicts[0].id, base, ours, theirs) is Conflict);
    }
    if exists|id: Seq<char>| #[trigger] verdict_at(id, base, ours, theirs) is Conflict {
        let id = choose|id: Seq<char>| #[trigger] verdict_at(id, base, ours, theirs) is Conflict;
        let k = choose|k: int| 0 <= k < out.conflicts.len() && (#[trigger] out.conflicts[k]).id == id;
    }
}

/// The merge is a function of the three logs: there is one outcome that
/// holds, in ascending order of id, exactly what the verdicts keep and
/// exactly the conflicts that they find.
pub proof fn law_merge_is_determined(
    x: OutcomeView,
    y: OutcomeView,
    base: Seq<EntryView>,
    ours: Seq<EntryView>,
    theirs: Seq<EntryView>,
)
    requires
        is_merge(x, base, ours, theirs),
        is_merge(y, base, ours, theirs),
    ensures
        x == y,
{
    let xm = entry_ids(x.merged);
    let ym = entry_ids(y.merged);
    assert forall|id: Seq<char>| xm.contains(id) <==> ym.contains(id) by {
        if xm.contains(id) {
            let k = choose|k: int| 0 <= k < xm.len() && xm[k] == id;
            assert(x.merged[k].id == id);
            assert(verdict_at(id, base, ours, theirs) is Keep);
            let m = choose|m: int| 0 <= m < y.merged.len() && (#[trigger] y.merged[m]).id == id;
            assert(ym[m] == id);
        }
        if ym.contains(id) {
            let k = choose|k: int| 0 <= k < ym.len() && ym[k] == id;
            assert(y.merged[k].id == id);
            assert(verdict_at(id, base, ours, theirs) is Keep);
            let m = choose|m: int| 0 <= m < x.merged.len() && (#[trigger] x.merged[m]).id == id;
            assert(xm[m] == id);
        }
    }
    crate::order::lemma_ascending_unique(xm, ym);
    assert forall|k: int| 0 <= k < x.merged.len() implies x.merged[k] == y.merged[k] by {
        assert(xm[k] == x.merged[k].id);
        assert(ym[k] == y.merged[k].id);
        assert(verdict_at(x.merged[k].id, base, ours, theirs) == Verdict::Keep(x.merged[k]));
        assert(verdict_at(y.merged[k].id, base, ours, theirs) == Verdict::Keep(y.merged[k]));
    }
    assert(x.merged =~= y.merged);
    let xc = conflict_ids(x.conflicts);
    let yc = conflict_ids(y.conflicts);
    assert forall|id: Seq<char>| xc.contains(id) <==> yc.contains(id) by {
        if xc.contains(id) {
            let k = choose|k: int| 0 <= k < xc.len() && xc[k] == id;
            assert(x.conflicts[k].id == id);
            assert(verdict_at(id, base, ours, theirs) is Conflict);
            let m = choose|m: int|
                0 <= m < y.conflicts.len() && (#[trigger] y.conflicts[m]).id == id;
            assert(yc[m] == id);
        }
        if yc.contains(id) {
            let k = choose|k: int| 0 <= k < yc.len() && yc[k] == id;
            assert(y.conflicts[k].id == id);
            assert(verdict_at(id, base, ours, theirs) is Conflict);
            let m = choose|m: int|
                0 <= m < x.conflicts.len() && (#[trigger] x.conflicts[m]).id == id;
            assert(xc[m] == id);
        }
    }
    crate::order::lemma_ascending_unique(xc, yc);
    assert forall|k: int| 0 <= k < x.conflicts.len() implies x.conflicts[k] == y.conflicts[k] by {
        assert(xc[k] == x.conflicts[k].id);
        assert(yc[k] == y.conflicts[k].id);
        assert(verdict_at(x.conflicts[k].id, base, ours, theirs) == Verdict::Conflict(
            x.conflicts[k].ours,
            x.conflicts[k].theirs,
        ));
        assert(verdict_at(y.conflicts[k].id, base, ours, theirs) == Verdict::Conflict(
            y.conflicts[k].ours,
            y.conflicts[k].theirs,
        ));
    }
    assert(x.conflicts =~= y.conflicts);
}

/// An outcome that is a merge of the three logs is the merge of them.
pub proof fn lemma_merge_of(
    out: OutcomeView,
    base: Seq<EntryView>,
    ours: Seq<EntryView>,
    theirs: Seq<EntryView>,
)
    requires
        is_merge(out, base, ours, theirs),
    ensures
        out == merge_of(base, ours, theirs),
{
    law_merge_is_determined(out, merge_of(base, ours, theirs), base, ours, theirs);
}

} // verus!
