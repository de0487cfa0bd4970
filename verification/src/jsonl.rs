//! The log format: one JSON document per line, reconciled by id, the entry
//! with the greatest timestamp winning.

use crate::json::{json_reading, read_json, JsonReading, ReadingView};
use crate::order::{
    ascending, id_lt, lemma_ascending_distinct, lemma_id_lt_irreflexive, lemma_id_lt_total,
    lemma_id_lt_transitive, str_lt,
};
use crate::text::{
    has_line_feed, is_blank, lemma_lines_joined, lemma_one_line, lines_of, split_lines, str_blank,
    str_has_line_feed,
};
use vstd::prelude::*;

verus! {

/// The key under which a log line holds its id.
pub const ID_KEY: &'static str = "id";

/// The key under which a log line holds its timestamp, in milliseconds.
pub const STAMP_KEY: &'static str = "updated_at";

/// The key under which a tombstone holds `true`.
pub const DELETED_KEY: &'static str = "deleted";

/// A type whose values carry an id.
pub trait HasId {
    fn id(&self) -> String;
}

/// A type whose values carry the time of their last change.
pub trait HasUpdatedAt {
    fn updated_at(&self) -> i64;
}

/// One line of a log: a record as it stood at `updated_at`, or, where
/// `deleted` is set, the mark that it was deleted then.
#[derive(Debug, PartialEq, Eq)]
pub struct LogEntry {
    pub id: String,
    pub updated_at: i64,
    pub deleted: bool,
    /// The JSON text of the line: as the JSON codec writes it where the
    /// entry was read from a log, as it was handed in where the entry was
    /// written by the store.
    pub payload: String,
}

/// A log entry in the abstract.
pub ghost struct EntryView {
    pub id: Seq<char>,
    pub updated_at: i64,
    pub deleted: bool,
    pub payload: Seq<char>,
}

impl View for LogEntry {
    type V = EntryView;

    open spec fn view(&self) -> EntryView {
        EntryView {
            id: self.id@,
            updated_at: self.updated_at,
            deleted: self.deleted,
            payload: self.payload@,
        }
    }
}

impl Clone for LogEntry {
    fn clone(&self) -> (r: Self)
        ensures
            r@ == self@,
    {
        LogEntry {
            id: self.id.clone(),
            updated_at: self.updated_at,
            deleted: self.deleted,
            payload: self.payload.clone(),
        }
    }
}

impl HasId for LogEntry {
    fn id(&self) -> (r: String)
        ensures
            r@ == self.id@,
    {
        self.id.clone()
    }
}

impl HasUpdatedAt for LogEntry {
    fn updated_at(&self) -> (r: i64)
        ensures
            r == self.updated_at,
    {
        self.updated_at
    }
}

/// What the reduction of records reads of one record: its id and the time
/// of its last change.
#[derive(Debug, PartialEq, Eq)]
pub struct RecordKey {
    pub id: String,
    pub updated_at: i64,
}

impl View for RecordKey {
    type V = (Seq<char>, i64);

    open spec fn view(&self) -> (Seq<char>, i64) {
        (self.id@, self.updated_at)
    }
}

/// The views of a sequence of keys.
pub open spec fn key_views(keys: Seq<RecordKey>) -> Seq<(Seq<char>, i64)> {
    keys.map_values(|k: RecordKey| k@)
}

/// The views of a sequence of entries.
pub open spec fn entry_views(entries: Seq<LogEntry>) -> Seq<EntryView> {
    entries.map_values(|e: LogEntry| e@)
}

/// The ids of a sequence of entries.
pub open spec fn entry_ids(entries: Seq<EntryView>) -> Seq<Seq<char>> {
    entries.map_values(|e: EntryView| e.id)
}

/// The entry that a reading stands for: none without an id; a missing
/// timestamp counts as 0; only `true` under the deletion key makes a
/// tombstone.
pub open spec fn entry_of_reading(r: ReadingView) -> Option<EntryView> {
    match r.id {
        None => None,
        Some(id) => Some(
            EntryView {
                id,
                updated_at: match r.stamp {
                    Some(t) => t,
                    None => 0,
                },
                deleted: r.flag == Some(true),
                payload: r.text,
            },
        ),
    }
}

/// Turns what was read from a line into a log entry.
pub fn entry_of(reading: JsonReading) -> (r: Option<LogEntry>)
    ensures
        match r {
            Some(e) => entry_of_reading(reading@) == Some(e@),
            None => entry_of_reading(reading@) is None,
        },
{
    match reading.id {
        None => None,
        Some(id) => {
            let updated_at = match reading.stamp {
                Some(t) => t,
                None => 0,
            };
            let deleted = match reading.flag {
                Some(b) => b,
                None => false,
            };
            Some(LogEntry { id, updated_at, deleted, payload: reading.text })
        },
    }
}

/// What a line of a log is.
pub ghost enum LineKind {
    /// Nothing but white space: passed over.
    Blank,
    /// Not a JSON document.
    Malformed,
    /// A JSON document without a string id.
    Anonymous,
    /// An entry.
    Entry(EntryView),
}

/// What a line is: blank, or what the JSON codec reads from it under the
/// three keys of the log.
pub open spec fn classify(line: Seq<char>) -> LineKind {
    if is_blank(line) {
        LineKind::Blank
    } else {
        match json_reading(line, ID_KEY@, STAMP_KEY@, DELETED_KEY@) {
            None => LineKind::Malformed,
            Some(r) => match entry_of_reading(r) {
                None => LineKind::Anonymous,
                Some(e) => LineKind::Entry(e),
            },
        }
    }
}

/// The entries among `lines`, in order.
pub open spec fn entries_in(lines: Seq<Seq<char>>) -> Seq<EntryView>
    decreases lines.len(),
{
    if lines.len() == 0 {
        Seq::empty()
    } else {
        let before = entries_in(lines.drop_last());
        match classify(lines.last()) {
            LineKind::Entry(e) => before.push(e),
            _ => before,
        }
    }
}

/// The numbers, counted from 1, of the lines that are not JSON.
pub open spec fn malformed_in(lines: Seq<Seq<char>>) -> Seq<usize>
    decreases lines.len(),
{
    if lines.len() == 0 {
        Seq::empty()
    } else {
        let before = malformed_in(lines.drop_last());
        if classify(lines.last()) is Malformed {
            before.push(lines.len() as usize)
        } else {
            before
        }
    }
}

/// The numbers, counted from 1, of the lines that are JSON without an id.
pub open spec fn anonymous_in(lines: Seq<Seq<char>>) -> Seq<usize>
    decreases lines.len(),
{
    if lines.len() == 0 {
        Seq::empty()
    } else {
        let before = anonymous_in(lines.drop_last());
        if classify(lines.last()) is Anonymous {
            before.push(lines.len() as usize)
        } else {
            before
        }
    }
}

/// A log text taken apart line by line.
#[derive(Debug, PartialEq, Eq)]
pub struct Scan {
    /// The entries, in the order of their lines.
    pub entries: Vec<LogEntry>,
    /// The numbers of the lines that are not JSON.
    pub malformed: Vec<usize>,
    /// The numbers of the lines that are JSON but name no id.
    pub anonymous: Vec<usize>,
}

/// Reads a log text line by line. Blank lines are passed over; every other
/// line is an entry, or is reported by its number.
pub fn scan_log(text: &str) -> (scan: Scan)
    ensures
        entry_views(scan.entries@) == entries_in(lines_of(text@)),
        scan.malformed@ == malformed_in(lines_of(text@)),
        scan.anonymous@ == anonymous_in(lines_of(text@)),
{
    let lines = split_lines(text);
    let ghost all = lines_of(text@);
    let mut entries: Vec<LogEntry> = Vec::new();
    let mut malformed: Vec<usize> = Vec::new();
    let mut anonymous: Vec<usize> = Vec::new();
    let mut i: usize = 0;
    proof {
        assert(all.take(0) =~= Seq::empty());
        assert(entry_views(entries@) =~= Seq::empty());
    }
    while i < lines.len()
        invariant
            i <= lines.len(),
            lines@.len() == all.len(),
            forall|k: int| 0 <= k < lines@.len() ==> (#[trigger] lines@[k])@ == all[k],
            entry_views(entries@) == entries_in(all.take(i as int)),
            malformed@ == malformed_in(all.take(i as int)),
            anonymous@ == anonymous_in(all.take(i as int)),
        decreases lines.len() - i,
    {
        let line = lines[i].as_str();
        let ghost upto = all.take(i + 1);
        proof {
            assert(upto.drop_last() =~= all.take(i as int));
            assert(upto.last() == line@);
        }
        if !str_blank(line) {
            match read_json(line, ID_KEY, STAMP_KEY, DELETED_KEY) {
                Err(_) => {
                    malformed.push(i + 1);
                },
                Ok(reading) => {
                    match entry_of(reading) {
                        None => {
                            anonymous.push(i + 1);
                        },
                        Some(e) => {
                            proof {
                                assert(entry_views(entries@.push(e)) =~= entry_views(
                                    entries@,
                                ).push(e@));
                            }
                            entries.push(e);
                        },
                    }
                },
            }
        }
        i = i + 1;
    }
    proof {
        assert(all.take(i as int) =~= all);
    }
    Scan { entries, malformed, anonymous }
}

/// The record at `i` is the latest of its id: no record of the same id has a
/// greater timestamp, and none before it has the same.
pub open spec fn is_latest(keys: Seq<(Seq<char>, i64)>, i: int) -> bool {
    &&& 0 <= i < keys.len()
    &&& forall|j: int|
        0 <= j < keys.len() && (#[trigger] keys[j]).0 == keys[i].0 ==> keys[j].1 < keys[i].1 || (
        keys[j].1 == keys[i].1 && i <= j)
}

/// The ids of the records at the positions `picks`.
pub open spec fn picked_ids(keys: Seq<(Seq<char>, i64)>, picks: Seq<usize>) -> Seq<Seq<char>> {
    picks.map_values(|i: usize| keys[i as int].0)
}

/// `picks` names, in ascending order of id, the latest record of every id
/// that occurs in `keys`.
pub open spec fn is_reduction(keys: Seq<(Seq<char>, i64)>, picks: Seq<usize>) -> bool {
    &&& forall|k: int| 0 <= k < picks.len() ==> is_latest(keys, #[trigger] picks[k] as int)
    &&& ascending(picked_ids(keys, picks))
    &&& forall|i: int|
        0 <= i < keys.len() ==> exists|k: int|
            0 <= k < picks.len() && picked_ids(keys, picks)[k] == (#[trigger] keys[i]).0
}

/// Of one id there is one latest record.
pub proof fn lemma_latest_unique(keys: Seq<(Seq<char>, i64)>, i: int, j: int)
    requires
        is_latest(keys, i),
        is_latest(keys, j),
        keys[i].0 == keys[j].0,
    ensures
        i == j,
{
}

fn find_slot(keys: &Vec<RecordKey>, picks: &Vec<usize>, id: &String) -> (pos: usize)
    requires
        forall|k: int| 0 <= k < picks.len() ==> (#[trigger] picks[k]) < keys.len(),
    ensures
        pos <= picks.len(),
        forall|k: int|
            0 <= k < pos ==> id_lt(#[trigger] picked_ids(key_views(keys@), picks@)[k], id@),
        pos < picks.len() ==> !id_lt(picked_ids(key_views(keys@), picks@)[pos as int], id@),
{
    let mut pos: usize = 0;
    while pos < picks.len()
        invariant
            pos <= picks.len(),
            forall|k: int| 0 <= k < picks.len() ==> (#[trigger] picks[k]) < keys.len(),
            forall|k: int|
                0 <= k < pos ==> id_lt(#[trigger] picked_ids(key_views(keys@), picks@)[k], id@),
        decreases picks.len() - pos,
    {
        if !str_lt(keys[picks[pos]].id.as_str(), id.as_str()) {
            return pos;
        }
        pos = pos + 1;
    }
    pos
}

/// Reduces records, given by their keys, to the latest of each id. The
/// result names their positions, in ascending order of id.
#[verifier::rlimit(40)]
pub fn latest_of(keys: &Vec<RecordKey>) -> (picks: Vec<usize>)
    ensures
        is_reduction(key_views(keys@), picks@),
{
    let ghost kv = key_views(keys@);
    let mut picks: Vec<usize> = Vec::new();
    let mut n: usize = 0;
    while n < keys.len()
        invariant
            n <= keys.len(),
            kv == key_views(keys@),
            forall|k: int| 0 <= k < picks.len() ==> (#[trigger] picks[k]) < n,
            is_reduction(kv.take(n as int), picks@),
        decreases keys.len() - n,
    {
        let ghost old_keys = kv.take(n as int);
        let ghost new_keys = kv.take(n + 1);
        let ghost old_picks = picks@;
        let ghost old_ids = picked_ids(old_keys, old_picks);
        let id = &keys[n].id;
        let stamp = keys[n].updated_at;
        proof {
            assert forall|k: int| 0 <= k < picks.len() implies picked_ids(kv, picks@)[k]
                == old_ids[k] by {
                assert(picks[k] < n);
            }
            assert(new_keys[n as int] == (id@, stamp));
        }
        let pos = find_slot(keys, &picks, id);
        let mut fresh = true;
        if pos < picks.len() {
            if keys[picks[pos]].id == *id {
                fresh = false;
                let held = keys[picks[pos]].updated_at;
                if stamp > held {
                    picks.set(pos, n);
                }
            }
        }
        if fresh {
            proof {
                assert forall|k: int| 0 <= k < old_picks.len() implies old_ids[k] != id@ by {
                    if k < pos {
                        lemma_id_lt_irreflexive(id@);
                    } else {
                        lemma_id_lt_total(id@, old_ids[pos as int]);
                        if k > pos {
                            lemma_id_lt_transitive(id@, old_ids[pos as int], old_ids[k]);
                        }
                        lemma_id_lt_irreflexive(id@);
                    }
                }
                assert forall|k: int| pos <= k < old_picks.len() implies id_lt(
                    id@,
                    #[trigger] old_ids[k],
                ) by {
                    lemma_id_lt_total(id@, old_ids[pos as int]);
                    if k > pos {
                        lemma_id_lt_transitive(id@, old_ids[pos as int], old_ids[k]);
                    }
                }
            }
            picks.insert(pos, n);
        }
        proof {
            let new_picks = picks@;
            let new_ids = picked_ids(new_keys, new_picks);
            // every pick is the latest of its id
            assert forall|k: int| 0 <= k < new_picks.len() implies is_latest(
                new_keys,
                #[trigger] new_picks[k] as int,
            ) by {
                let p = new_picks[k] as int;
                if p == n {
                    assert forall|j: int|
                        0 <= j < new_keys.len() && (#[trigger] new_keys[j]).0
                            == new_keys[p].0 implies new_keys[j].1 < new_keys[p].1 || (
                    new_keys[j].1 == new_keys[p].1 && p <= j) by {
                        if j < n {
                            assert(old_keys[j] == new_keys[j]);
                            let c = choose|c: int|
                                0 <= c < old_picks.len() && old_ids[c] == old_keys[j].0;
                            if fresh {
                                assert(old_ids[c] != id@);
                            } else {
                                lemma_latest_unique(
                                    old_keys,
                                    old_picks[c] as int,
                                    old_picks[pos as int] as int,
                                );
                                assert(is_latest(old_keys, old_picks[pos as int] as int));
                            }
                        }
                    }
                } else {
                    let b = if fresh && k > pos {
                        k - 1
                    } else {
                        k
                    };
                    assert(old_picks[b] == new_picks[k]);
                    assert(is_latest(old_keys, p));
                    assert forall|j: int|
                        0 <= j < new_keys.len() && (#[trigger] new_keys[j]).0
                            == new_keys[p].0 implies new_keys[j].1 < new_keys[p].1 || (
                    new_keys[j].1 == new_keys[p].1 && p <= j) by {
                        if j < n {
                            assert(old_keys[j] == new_keys[j]);
                        } else {
                            // the new record has this pick's id: then the pick was kept
                            assert(old_ids[b] == id@);
                            assert(!fresh);
                            lemma_ascending_distinct(old_ids, b, pos as int);
                        }
                    }
                }
            }
            // ascending
            assert forall|a: int, b: int| 0 <= a < b < new_ids.len() implies id_lt(
                #[trigger] new_ids[a],
                #[trigger] new_ids[b],
            ) by {
                if fresh {
                    let oa = if a < pos { a } else { a - 1 };
                    let ob = if b < pos { b } else { b - 1 };
                    if a != pos && b != pos {
                        assert(new_ids[a] == old_ids[oa]);
                        assert(new_ids[b] == old_ids[ob]);
                        assert(id_lt(old_ids[oa], old_ids[ob]));
                    } else if a == pos {
                        assert(new_ids[b] == old_ids[ob]);
                    } else {
                        assert(new_ids[a] == old_ids[oa]);
                    }
                } else {
                    assert(new_ids[a] == old_ids[a]);
                    assert(new_ids[b] == old_ids[b]);
                    assert(id_lt(old_ids[a], old_ids[b]));
                }
            }
            // every id has its pick
            assert forall|i: int| 0 <= i < new_keys.len() implies exists|k: int|
                0 <= k < new_picks.len() && new_ids[k] == (#[trigger] new_keys[i]).0 by {
                if i < n {
                    assert(old_keys[i] == new_keys[i]);
                    let c = choose|c: int| 0 <= c < old_picks.len() && old_ids[c] == old_keys[i].0;
                    let d = if fresh && c >= pos {
                        c + 1
                    } else {
                        c
                    };
                    assert(new_ids[d] == old_ids[c]);
                } else {
                    assert(new_ids[pos as int] == id@);
                }
            }
        }
        n = n + 1;
    }
    proof {
        assert(kv.take(n as int) =~= kv);
    }
    picks
}

/// Asks every record for its id and for the time of its last change, once.
pub fn record_keys<T: HasId + HasUpdatedAt>(records: &Vec<T>) -> (keys: Vec<RecordKey>)
    ensures
        keys.len() == records.len(),
{
    let mut keys: Vec<RecordKey> = Vec::new();
    let mut i: usize = 0;
    while i < records.len()
        invariant
            i <= records.len(),
            keys.len() == i,
        decreases records.len() - i,
    {
        keys.push(RecordKey { id: records[i].id(), updated_at: records[i].updated_at() });
        i = i + 1;
    }
    keys
}

/// Reduces records to the latest of each id, by the ids and times that
/// the records give of themselves when asked once each. The result names
/// their positions in `records`, in ascending order of id.
pub fn latest_by_id<T: HasId + HasUpdatedAt>(records: &Vec<T>) -> (picks: Vec<usize>)
    ensures
        exists|keys: Seq<(Seq<char>, i64)>|
            keys.len() == records.len() && #[trigger] is_reduction(keys, picks@),
        forall|k: int| 0 <= k < picks.len() ==> (#[trigger] picks[k]) < records.len(),
{
    let keys = record_keys(records);
    let picks = latest_of(&keys);
    proof {
        let kv = key_views(keys@);
        assert(kv.len() == records.len() && is_reduction(kv, picks@));
        assert forall|k: int| 0 <= k < picks.len() implies (#[trigger] picks[k]) < records.len() by {
            assert(is_latest(kv, picks[k] as int));
        }
    }
    picks
}

/// The id and the timestamp of each entry.
pub open spec fn entry_keys(entries: Seq<EntryView>) -> Seq<(Seq<char>, i64)> {
    entries.map_values(|e: EntryView| (e.id, e.updated_at))
}

/// The latest entry that `entries` holds of `id`: the first among those with
/// the greatest timestamp. `None` where no entry has that id.
pub open spec fn latest_in(entries: Seq<EntryView>, id: Seq<char>) -> Option<EntryView> {
    if exists|i: int| is_latest(entry_keys(entries), i) && entries[i].id == id {
        Some(entries[choose|i: int| is_latest(entry_keys(entries), i) && entries[i].id == id])
    } else {
        None
    }
}

/// `table` holds, in ascending order of id, the latest entry of every id
/// that occurs in `entries`, and nothing else.
pub open spec fn is_latest_table(table: Seq<EntryView>, entries: Seq<EntryView>) -> bool {
    &&& ascending(entry_ids(table))
    &&& forall|k: int|
        0 <= k < table.len() ==> latest_in(entries, (#[trigger] table[k]).id) == Some(table[k])
    &&& forall|id: Seq<char>| #[trigger]
        latest_in(entries, id) is Some ==> exists|k: int|
            0 <= k < table.len() && (#[trigger] table[k]).id == id
}

/// An entry is the latest of its id exactly when it is at the position that
/// `is_latest` singles out.
pub proof fn lemma_latest_in(entries: Seq<EntryView>, i: int)
    requires
        is_latest(entry_keys(entries), i),
    ensures
        latest_in(entries, entries[i].id) == Some(entries[i]),
{
    let id = entries[i].id;
    let c = choose|c: int| is_latest(entry_keys(entries), c) && entries[c].id == id;
    lemma_latest_unique(entry_keys(entries), i, c);
}

/// Every id that occurs has a latest entry, and only those.
pub proof fn lemma_latest_in_some(entries: Seq<EntryView>, id: Seq<char>)
    ensures
        latest_in(entries, id) is Some <==> exists|i: int|
            0 <= i < entries.len() && (#[trigger] entries[i]).id == id,
        latest_in(entries, id) is Some ==> latest_in(entries, id)->Some_0.id == id,
{
    if exists|i: int| 0 <= i < entries.len() && (#[trigger] entries[i]).id == id {
        let i = choose|i: int| 0 <= i < entries.len() && (#[trigger] entries[i]).id == id;
        lemma_some_latest(entries, entries.len() as int, i);
        assert(entries.take(entries.len() as int) =~= entries);
        let c = choose|c: int|
            0 <= c < entries.len() && is_latest(entry_keys(entries), c) && entries[c].id
                == entries[i].id;
        assert(is_latest(entry_keys(entries), c) && entries[c].id == id);
    }
    if latest_in(entries, id) is Some {
        let c = choose|c: int| is_latest(entry_keys(entries), c) && entries[c].id == id;
        assert(entries[c].id == id);
    }
}

/// Among the first `n` entries, the id of the entry at `i` has a latest one.
proof fn lemma_some_latest(entries: Seq<EntryView>, n: int, i: int)
    requires
        0 <= i < n <= entries.len(),
    ensures
        exists|c: int|
            0 <= c < n && is_latest(entry_keys(entries.take(n)), c) && entries[c].id
                == entries[i].id,
    decreases n,
{
    let id = entries[i].id;
    let now = entry_keys(entries.take(n));
    let last = n - 1;
    if i == last && forall|j: int| 0 <= j < last ==> (#[trigger] entries[j]).id != id {
        assert forall|j: int| 0 <= j < now.len() && (#[trigger] now[j]).0 == now[last].0 implies now[j].1
            < now[last].1 || (now[j].1 == now[last].1 && last <= j) by {
            if j < last {
                assert(entries[j].id != id);
            }
        }
        assert(is_latest(now, last));
    } else {
        let i0 = if i < last {
            i
        } else {
            choose|j: int| 0 <= j < last && (#[trigger] entries[j]).id == id
        };
        lemma_some_latest(entries, last, i0);
        let before = entry_keys(entries.take(last));
        let c = choose|c: int| 0 <= c < last && is_latest(before, c) && entries[c].id == id;
        assert forall|j: int| 0 <= j < last implies before[j] == #[trigger] now[j] by {}
        if entries[last].id == id && entries[last].updated_at > entries[c].updated_at {
            assert forall|j: int|
                0 <= j < now.len() && (#[trigger] now[j]).0 == now[last].0 implies now[j].1
                < now[last].1 || (now[j].1 == now[last].1 && last <= j) by {
                if j < last {
                    assert(before[j] == now[j]);
                    assert(before[j].0 == before[c].0);
                }
            }
            assert(is_latest(now, last));
        } else {
            assert forall|j: int| 0 <= j < now.len() && (#[trigger] now[j]).0 == now[c].0 implies now[j].1
                < now[c].1 || (now[j].1 == now[c].1 && c <= j) by {
                if j < last {
                    assert(before[j] == now[j]);
                }
            }
            assert(is_latest(now, c));
        }
    }
    if n == entries.len() {
        assert(entries.take(n) =~= entries);
    }
}

/// Reconciles entries by id: of each id the latest entry, in ascending order
/// of id.
pub fn latest_entries(entries: &Vec<LogEntry>) -> (table: Vec<LogEntry>)
    ensures
        is_latest_table(entry_views(table@), entry_views(entries@)),
{
    let ghost views = entry_views(entries@);
    let mut ks: Vec<RecordKey> = Vec::new();
    let mut i: usize = 0;
    while i < entries.len()
        invariant
            i <= entries.len(),
            ks.len() == i,
            forall|m: int| 0 <= m < i ==> (#[trigger] ks@[m])@ == (entries@[m].id@, entries@[m].updated_at),
        decreases entries.len() - i,
    {
        ks.push(RecordKey { id: entries[i].id.clone(), updated_at: entries[i].updated_at });
        i = i + 1;
    }
    let picks = latest_of(&ks);
    let ghost keys = key_views(ks@);
    proof {
        assert(keys =~= entry_keys(views));
    }
    let mut table: Vec<LogEntry> = Vec::new();
    let mut k: usize = 0;
    while k < picks.len()
        invariant
            k <= picks.len(),
            table.len() == k,
            views == entry_views(entries@),
            keys == entry_keys(views),
            is_reduction(keys, picks@),
            forall|m: int| 0 <= m < k ==> (#[trigger] table@[m])@ == views[picks@[m] as int],
        decreases picks.len() - k,
    {
        assert(is_latest(keys, picks@[k as int] as int));
        let e = entries[picks[k]].clone();
        table.push(e);
        k = k + 1;
    }
    proof {
        let tv = entry_views(table@);
        let ids = picked_ids(keys, picks@);
        assert(entry_ids(tv) =~= ids) by {
            assert forall|m: int| 0 <= m < tv.len() implies entry_ids(tv)[m] == ids[m] by {
                assert(is_latest(keys, picks@[m] as int));
            }
        }
        assert forall|m: int| 0 <= m < tv.len() implies latest_in(views, (#[trigger] tv[m]).id)
            == Some(tv[m]) by {
            assert(is_latest(keys, picks@[m] as int));
            lemma_latest_in(views, picks@[m] as int);
        }
        assert forall|id: Seq<char>| #[trigger] latest_in(views, id) is Some implies exists|m: int|
            0 <= m < tv.len() && (#[trigger] tv[m]).id == id by {
            let c = choose|c: int| is_latest(keys, c) && views[c].id == id;
            assert(keys[c].0 == id);
            let m = choose|m: int| 0 <= m < picks@.len() && ids[m] == keys[c].0;
            assert(is_latest(keys, picks@[m] as int));
            assert(tv[m].id == id);
        }
    }
    table
}

/// Where `table` holds an entry of `id`.
pub fn find_entry(table: &Vec<LogEntry>, id: &String) -> (r: Option<usize>)
    ensures
        match r {
            Some(k) => k < table.len() && table@[k as int].id@ == id@,
            None => forall|k: int| 0 <= k < table.len() ==> (#[trigger] table@[k]).id@ != id@,
        },
{
    let mut k: usize = 0;
    while k < table.len()
        invariant
            k <= table.len(),
            forall|m: int| 0 <= m < k ==> (#[trigger] table@[m]).id@ != id@,
        decreases table.len() - k,
    {
        if table[k].id == *id {
            return Some(k);
        }
        k = k + 1;
    }
    None
}

/// What a lookup in a table of latest entries finds is the latest entry of
/// that id.
pub proof fn lemma_table_lookup(
    table: Seq<EntryView>,
    entries: Seq<EntryView>,
    id: Seq<char>,
)
    requires
        is_latest_table(table, entries),
    ensures
        forall|k: int|
            0 <= k < table.len() && (#[trigger] table[k]).id == id ==> latest_in(entries, id)
                == Some(table[k]),
        (forall|k: int| 0 <= k < table.len() ==> (#[trigger] table[k]).id != id) ==> latest_in(
            entries,
            id,
        ) is None,
{
}

/// A log text that was read leniently.
#[derive(Debug, PartialEq, Eq)]
pub struct LatestRead {
    /// Of each id the latest entry, tombstones among them, in ascending
    /// order of id.
    pub latest: Vec<LogEntry>,
    /// The numbers of the lines that were passed over: not JSON, or without
    /// an id.
    pub skipped: Vec<usize>,
}

/// Reads a log text and keeps of each id the latest entry. A line that is
/// not JSON or names no id is passed over, and its number is reported; an
/// empty text gives an empty table.
pub fn read_jsonl_latest(text: &str) -> (r: LatestRead)
    ensures
        is_latest_table(entry_views(r.latest@), entries_in(lines_of(text@))),
        r.skipped@ == malformed_in(lines_of(text@)) + anonymous_in(lines_of(text@)),
{
    let scan = scan_log(text);
    let latest = latest_entries(&scan.entries);
    let mut skipped = scan.malformed;
    let mut other = scan.anonymous;
    skipped.append(&mut other);
    LatestRead { latest, skipped }
}

/// Why a log text could not be read as a whole.
#[derive(Debug, Clone, Copy, PartialEq, Eq, Structural)]
pub enum LogError {
    /// The line with this number, counted from 1, is not JSON.
    Malformed(usize),
    /// A record's text holds a line feed and cannot be one line of a log.
    NotOneLine,
}

/// Reads a log text of which every line must be readable: the first line
/// that is not JSON fails the whole text. Lines without an id carry no
/// record and are left out.
pub fn parse_jsonl(text: &str) -> (r: Result<Vec<LogEntry>, LogError>)
    ensures
        match r {
            Ok(entries) => malformed_in(lines_of(text@)).len() == 0 && entry_views(entries@)
                == entries_in(lines_of(text@)),
            Err(e) => malformed_in(lines_of(text@)).len() > 0 && e == LogError::Malformed(
                malformed_in(lines_of(text@))[0],
            ),
        },
{
    let scan = scan_log(text);
    if scan.malformed.len() > 0 {
        Err(LogError::Malformed(scan.malformed[0]))
    } else {
        Ok(scan.entries)
    }
}

/// Appends one record, given as its JSON text, to a log text as a line of
/// its own. A text that holds a line feed is refused, and the log is left as
/// it was.
pub fn append_jsonl(log: &mut String, record: &str) -> (r: Result<(), LogError>)
    ensures
        match r {
            Ok(_) => !has_line_feed(record@) && final(log)@ == old(log)@ + record@ + seq!['\n'],
            Err(e) => has_line_feed(record@) && e == LogError::NotOneLine && final(log)@ == old(
                log,
            )@,
        },
{
    if str_has_line_feed(record) {
        return Err(LogError::NotOneLine);
    }
    log.append(record);
    log.push('\n');
    proof {
        assert(log@ =~= old(log)@ + record@ + seq!['\n']);
    }
    Ok(())
}

/// Latest wins: whatever entry a log holds, the latest entry of its id is
/// an entry of the log with that id, and is at least as new.
pub proof fn law_latest_wins(entries: Seq<EntryView>, i: int)
    requires
        0 <= i < entries.len(),
    ensures
        latest_in(entries, entries[i].id) is Some,
        latest_in(entries, entries[i].id)->Some_0.id == entries[i].id,
        latest_in(entries, entries[i].id)->Some_0.updated_at >= entries[i].updated_at,
        exists|j: int|
            0 <= j < entries.len() && #[trigger] entries[j] == latest_in(
                entries,
                entries[i].id,
            )->Some_0,
{
    let id = entries[i].id;
    lemma_latest_in_some(entries, id);
    let c = choose|c: int| is_latest(entry_keys(entries), c) && entries[c].id == id;
    assert(entry_keys(entries)[i].0 == entry_keys(entries)[c].0);
    assert(entries[c] == latest_in(entries, id)->Some_0);
}

/// The order of the lines does not matter: of two entries of one id with
/// different times the newer is the latest, whichever stands first.
pub proof fn law_latest_order_free(older: EntryView, newer: EntryView)
    requires
        older.id == newer.id,
        older.updated_at < newer.updated_at,
    ensures
        latest_in(seq![older, newer], newer.id) == Some(newer),
        latest_in(seq![newer, older], newer.id) == Some(newer),
{
    let a = seq![older, newer];
    let b = seq![newer, older];
    assert(is_latest(entry_keys(a), 1)) by {
        assert(entry_keys(a)[0] == (older.id, older.updated_at));
        assert(entry_keys(a)[1] == (newer.id, newer.updated_at));
    }
    lemma_latest_in(a, 1);
    assert(is_latest(entry_keys(b), 0)) by {
        assert(entry_keys(b)[0] == (newer.id, newer.updated_at));
        assert(entry_keys(b)[1] == (older.id, older.updated_at));
    }
    lemma_latest_in(b, 0);
}

/// The entries among lines that follow one another are the entries among
/// the first and then the entries among the rest.
pub proof fn lemma_entries_joined(a: Seq<Seq<char>>, b: Seq<Seq<char>>)
    ensures
        entries_in(a + b) == entries_in(a) + entries_in(b),
    decreases b.len(),
{
    if b.len() == 0 {
        assert(a + b =~= a);
        assert(entries_in(a) + entries_in(b) =~= entries_in(a));
    } else {
        lemma_entries_joined(a, b.drop_last());
        assert((a + b).drop_last() =~= a + b.drop_last());
        assert((a + b).last() == b.last());
        match classify(b.last()) {
            LineKind::Entry(e) => {
                assert(entries_in(a) + entries_in(b.drop_last()).push(e) =~= (entries_in(a)
                    + entries_in(b.drop_last())).push(e));
            },
            _ => {},
        }
    }
}

/// A log text is whole when it is empty or ends in a line feed: every line
/// of it is complete.
pub open spec fn is_whole(log: Seq<char>) -> bool {
    log.len() == 0 || log.last() == '\n'
}

/// What is appended is read back: a record appended to a whole log text
/// leaves the text whole, and reading the text gives the entries that it
/// held before and then what the record's line is read as.
pub proof fn law_append_then_read(log: Seq<char>, record: Seq<char>)
    requires
        is_whole(log),
        !has_line_feed(record),
    ensures
        is_whole(log + record + seq!['\n']),
        entries_in(lines_of(log + record + seq!['\n'])) == entries_in(lines_of(log)) + entries_in(
            seq![record],
        ),
{
    let nl = seq!['\n'];
    let empty = Seq::<char>::empty();
    let after = log + record + nl;
    let blank = seq![empty];
    assert(is_blank(empty));
    assert(entries_in(blank) =~= Seq::empty()) by {
        assert(blank.drop_last() =~= Seq::<Seq<char>>::empty());
        assert(blank.last() == empty);
        assert(classify(empty) is Blank);
        assert(entries_in(blank.drop_last()) =~= Seq::empty());
    }
    lemma_one_line(record);
    lemma_one_line(empty);
    lemma_lines_joined(record, empty);
    assert(record + nl + empty =~= record + nl);
    // the lines of the record's own line: the record, and nothing behind it
    assert(lines_of(record + nl) == seq![record] + blank);
    if log.len() == 0 {
        assert(after =~= record + nl);
        assert(log =~= empty);
        lemma_entries_joined(seq![record], blank);
        assert(entries_in(lines_of(log)) + entries_in(seq![record]) =~= entries_in(seq![record])
            + entries_in(blank));
    } else {
        let body = log.drop_last();
        assert(log =~= body + nl + empty);
        lemma_lines_joined(body, empty);
        assert(after =~= body + nl + (record + nl));
        lemma_lines_joined(body, record + nl);
        lemma_entries_joined(lines_of(body), blank);
        lemma_entries_joined(lines_of(body), seq![record] + blank);
        lemma_entries_joined(seq![record], blank);
        assert(entries_in(lines_of(body)) + (entries_in(seq![record]) + entries_in(blank))
            =~= (entries_in(lines_of(body)) + entries_in(blank)) + entries_in(seq![record]));
    }
    assert(after.last() == '\n');
}

} // verus!
