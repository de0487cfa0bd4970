use taskstore::filter::{text_contains, Filter, FilterOp};
use taskstore::jsonl::{append_jsonl, read_jsonl_latest};
use taskstore::like::like_matches;
use taskstore::plan::{
    escape_like, plan_delete, plan_get, plan_index, plan_list, plan_mark_synced, plan_restore,
    plan_write, Query,
    CLEAR_INDEX_SQL, CLEAR_RECORDS_SQL, SCHEMA_SQL,
};
use taskstore::record::{IndexField, IndexValue, StoreError};
use taskstore::store::Store;

fn filter(field: &str, op: FilterOp, value: IndexValue) -> Filter {
    Filter { field: field.to_string(), op, value }
}

fn s(text: &str) -> IndexValue {
    IndexValue::String(text.to_string())
}

#[test]
fn a_listing_without_filters_asks_for_the_whole_collection() {
    let q = plan_list("tasks", &vec![]).unwrap();
    assert_eq!(
        q.sql(),
        "SELECT r.id, r.payload_json, r.updated_at FROM records r WHERE r.collection = ? ORDER BY r.updated_at DESC, r.id ASC"
    );
    assert_eq!(*q.params(), vec![s("tasks")]);
}

#[test]
fn every_filter_becomes_one_subquery_on_the_column_of_its_type() {
    let q = plan_list(
        "tasks",
        &vec![
            filter("priority", FilterOp::Gte, IndexValue::Int(7)),
            filter("status", FilterOp::Eq, s("pending")),
            filter("assigned", FilterOp::Ne, IndexValue::Bool(true)),
            filter("title", FilterOp::Contains, s("50%_a\\b")),
        ],
    )
    .unwrap();
    let clause = " AND EXISTS (SELECT 1 FROM index_entries i WHERE i.collection = r.collection AND i.id = r.id AND i.field_name = ? AND i.";
    assert_eq!(
        q.sql(),
        format!(
            "SELECT r.id, r.payload_json, r.updated_at FROM records r WHERE r.collection = ?{c}value_int >= ?){c}value_str = ?){c}value_bool != ?){c}value_str LIKE ? ESCAPE '\\') ORDER BY r.updated_at DESC, r.id ASC",
            c = clause
        )
    );
    assert_eq!(
        *q.params(),
        vec![
            s("tasks"),
            s("priority"),
            IndexValue::Int(7),
            s("status"),
            s("pending"),
            s("assigned"),
            IndexValue::Bool(true),
            s("title"),
            s("%50\\%\\_a\\\\b%"),
        ]
    );
}

#[test]
fn a_pattern_takes_every_character_literally() {
    assert_eq!(escape_like(""), "");
    assert_eq!(escape_like("plain"), "plain");
    assert_eq!(escape_like("100%"), "100\\%");
    assert_eq!(escape_like("a_b\\c"), "a\\_b\\\\c");
}

#[test]
fn names_are_checked_before_anything_is_planned() {
    assert_eq!(plan_list("no such/name", &vec![]).err(), Some(StoreError::InvalidCollection));
    assert_eq!(
        plan_list("tasks", &vec![filter("x y", FilterOp::Eq, IndexValue::Int(1))]).err(),
        Some(StoreError::InvalidField)
    );
    assert_eq!(
        plan_list("", &vec![filter("x y", FilterOp::Eq, IndexValue::Int(1))]).err(),
        Some(StoreError::InvalidCollection)
    );
    assert_eq!(plan_get("", "a").err(), Some(StoreError::InvalidCollection));
    assert_eq!(plan_get("tasks", "").err(), Some(StoreError::InvalidId));
    assert_eq!(plan_delete("tasks", " ").err(), Some(StoreError::InvalidId));
    assert_eq!(plan_delete("?", "a").err(), Some(StoreError::InvalidCollection));
    let bad = vec![IndexField { name: "a-b".to_string(), value: IndexValue::Int(1) }];
    assert_eq!(plan_write("tasks", "a", "{}", 1, &bad).err(), Some(StoreError::InvalidField));
    assert_eq!(plan_write("tasks", "", "{}", 1, &bad).err(), Some(StoreError::InvalidId));
    assert_eq!(plan_write("", "", "{}", 1, &bad).err(), Some(StoreError::InvalidCollection));
}

#[test]
fn a_write_is_one_row_and_its_index_entries() {
    let fields = vec![
        IndexField { name: "status".to_string(), value: s("pending") },
        IndexField { name: "priority".to_string(), value: IndexValue::Int(3) },
        IndexField { name: "assigned".to_string(), value: IndexValue::Bool(false) },
    ];
    let qs = plan_write("tasks", "t1", "{\"id\":\"t1\"}", 1234, &fields).unwrap();
    assert_eq!(qs.len(), 5);
    assert!(qs[0].sql().starts_with("INSERT INTO records"));
    assert_eq!(*qs[0].params(), vec![s("tasks"), s("t1"), s("{\"id\":\"t1\"}"), IndexValue::Int(1234)]);
    assert_eq!(qs[1].sql(), "DELETE FROM index_entries WHERE collection = ? AND id = ?");
    assert_eq!(*qs[1].params(), vec![s("tasks"), s("t1")]);
    assert!(qs[2].sql().contains("value_str"));
    assert_eq!(*qs[2].params(), vec![s("tasks"), s("t1"), s("status"), s("pending")]);
    assert!(qs[3].sql().contains("value_int"));
    assert_eq!(*qs[3].params(), vec![s("tasks"), s("t1"), s("priority"), IndexValue::Int(3)]);
    assert!(qs[4].sql().contains("value_bool"));
    assert_eq!(*qs[4].params(), vec![s("tasks"), s("t1"), s("assigned"), IndexValue::Bool(false)]);

    let get = plan_get("tasks", "t1").unwrap();
    assert_eq!(get.sql(), "SELECT payload_json FROM records WHERE collection = ? AND id = ?");
    assert_eq!(*get.params(), vec![s("tasks"), s("t1")]);
    let del = plan_delete("tasks", "t1").unwrap();
    assert_eq!(del.sql(), "DELETE FROM records WHERE collection = ? AND id = ?");
    assert_eq!(*del.params(), vec![s("tasks"), s("t1")]);
    let again = plan_index("tasks", "t1", &fields[1..].to_vec()).unwrap();
    assert_eq!(again.len(), 3);
    assert_eq!(again[0].sql(), "DELETE FROM index_entries WHERE collection = ? AND id = ?");
    assert_eq!(*again[1].params(), vec![s("tasks"), s("t1"), s("priority"), IndexValue::Int(3)]);
    assert_eq!(plan_index("tasks", "t1", &vec![]).unwrap().len(), 1);
    assert_eq!(plan_index("tasks", "\t", &vec![]).err(), Some(StoreError::InvalidId));
    let restore = plan_restore("tasks", "", "{}", 7).unwrap();
    assert_eq!(restore.sql(), qs[0].sql());
    assert_eq!(*restore.params(), vec![s("tasks"), s(""), s("{}"), IndexValue::Int(7)]);
    assert_eq!(plan_restore("ta sks", "a", "{}", 7).err(), Some(StoreError::InvalidCollection));
    let mark = plan_mark_synced("tasks", 10, 9);
    assert_eq!(*mark.params(), vec![s("tasks"), IndexValue::Int(10), IndexValue::Int(9)]);
}

fn bind(q: &Query) -> Vec<rusqlite::types::Value> {
    q.params()
        .iter()
        .map(|p| match p {
            IndexValue::String(s) => rusqlite::types::Value::Text(s.clone()),
            IndexValue::Int(i) => rusqlite::types::Value::Integer(*i),
            IndexValue::Bool(b) => rusqlite::types::Value::Integer(if *b { 1 } else { 0 }),
        })
        .collect()
}

fn run(db: &rusqlite::Connection, q: &Query) -> usize {
    db.execute(q.sql(), rusqlite::params_from_iter(bind(q))).unwrap()
}

fn ids(db: &rusqlite::Connection, q: &Query) -> Vec<String> {
    let mut stmt = db.prepare(q.sql()).unwrap();
    let rows = stmt.query_map(rusqlite::params_from_iter(bind(q)), |row| row.get::<usize, String>(0)).unwrap();
    rows.map(|r| r.unwrap()).collect()
}

fn fields_of(n: i64) -> Vec<IndexField> {
    vec![
        // a name that comes twice: the later field counts
        IndexField { name: "priority".to_string(), value: IndexValue::Int(100 - n) },
        IndexField { name: "assigned".to_string(), value: s("maybe") },
        IndexField {
            name: "status".to_string(),
            value: s(if n % 2 == 0 { "Pending" } else { "done_100%" }),
        },
        IndexField { name: "priority".to_string(), value: IndexValue::Int(n) },
        IndexField { name: "assigned".to_string(), value: IndexValue::Bool(n > 5) },
    ]
}

#[test]
fn the_relational_cache_answers_as_the_store_does() {
    let db = rusqlite::Connection::open_in_memory().unwrap();
    db.execute_batch("PRAGMA foreign_keys = ON;").unwrap();
    db.execute_batch(SCHEMA_SQL).unwrap();
    let mut store = Store::open();

    for n in [3, 9, 1, 10, 6, 2, 8, 4, 7, 5, 3] {
        let id = format!("task-{:02}", n);
        let payload = format!("{{\"id\":\"{}\",\"priority\":{}}}", id, n);
        let stamp = 1000 + (n % 4);
        for q in plan_write("tasks", &id, &payload, stamp, &fields_of(n)).unwrap() {
            run(&db, &q);
        }
        store.create("tasks", &id, stamp, &payload, fields_of(n), 1).unwrap();
    }
    run(&db, &plan_delete("tasks", "task-08").unwrap());
    store.delete("tasks", "task-08", 2).unwrap();

    let cases: Vec<Vec<Filter>> = vec![
        vec![],
        vec![filter("priority", FilterOp::Gte, IndexValue::Int(7))],
        vec![filter("priority", FilterOp::Gt, IndexValue::Int(7))],
        vec![filter("priority", FilterOp::Lt, IndexValue::Int(3))],
        vec![filter("priority", FilterOp::Lte, IndexValue::Int(3))],
        vec![filter("priority", FilterOp::Ne, IndexValue::Int(3))],
        vec![filter("priority", FilterOp::Eq, s("3"))],
        vec![filter("priority", FilterOp::Contains, IndexValue::Int(1))],
        vec![
            filter("priority", FilterOp::Gte, IndexValue::Int(4)),
            filter("status", FilterOp::Eq, s("Pending")),
        ],
        vec![filter("status", FilterOp::Eq, s("pending"))],
        vec![filter("status", FilterOp::Contains, s("END"))],
        vec![filter("status", FilterOp::Contains, s("%"))],
        vec![filter("status", FilterOp::Contains, s("_1"))],
        vec![filter("status", FilterOp::Contains, s("e_"))],
        vec![filter("status", FilterOp::Gt, s("Q"))],
        vec![filter("status", FilterOp::Lte, s("Pending"))],
        vec![filter("status", FilterOp::Ne, s("Pending"))],
        vec![filter("assigned", FilterOp::Eq, IndexValue::Bool(true))],
        vec![filter("assigned", FilterOp::Lt, IndexValue::Bool(true))],
        vec![filter("assigned", FilterOp::Ne, IndexValue::Int(1))],
        vec![filter("missing", FilterOp::Ne, IndexValue::Int(1))],
    ];
    for filters in cases {
        let from_db = ids(&db, &plan_list("tasks", &filters).unwrap());
        let from_store: Vec<String> =
            store.list("tasks", &filters).unwrap().into_iter().map(|r| r.id).collect();
        assert_eq!(from_db, from_store, "{:?}", filters);
    }
    assert_eq!(ids(&db, &plan_list("tasks", &vec![]).unwrap()).len(), 9);

    let got = ids(&db, &plan_get("tasks", "task-03").unwrap());
    assert_eq!(got, vec!["{\"id\":\"task-03\",\"priority\":3}".to_string()]);
    assert_eq!(store.get("tasks", "task-03").unwrap().unwrap().payload, got[0]);
    assert!(ids(&db, &plan_get("tasks", "task-08").unwrap()).is_empty());

    db.execute_batch(CLEAR_INDEX_SQL).unwrap();
    db.execute_batch(CLEAR_RECORDS_SQL).unwrap();
    assert!(ids(&db, &plan_list("tasks", &vec![]).unwrap()).is_empty());
    assert_eq!(run(&db, &plan_mark_synced("tasks", 5, 4)), 1);
}

#[test]
fn a_pattern_matches_what_the_relational_cache_says_it_matches() {
    let db = rusqlite::Connection::open_in_memory().unwrap();
    let patterns = [
        "", "%", "%%", "_", "a", "A", "abc", "a%", "%a", "%a%", "a_c", "a%c", "_%_", "%b_",
        "\\%", "\\_", "\\\\", "\\a", "a\\", "\\", "%\\%%", "%\\_%", "50\\%", "%\u{e9}%", "%\u{c9}%",
        "a%b%c", "%%a%%", "_b%", "%_", "a\\%b",
    ];
    let texts = [
        "", "a", "A", "b", "ab", "abc", "aBc", "abcabc", "a%c", "a_c", "%", "_", "\\", "a\\",
        "50%", "50", "\u{e9}t\u{e9}", "\u{c9}T\u{c9}", "xaby", "a%b", "bb",
    ];
    for p in patterns {
        for t in texts {
            let want: bool = db
                .query_row("SELECT ?1 LIKE ?2 ESCAPE '\\'", [t, p], |row| row.get::<usize, bool>(0))
                .unwrap();
            assert_eq!(like_matches(p, t), want, "{:?} LIKE {:?}", t, p);
        }
    }
}

#[test]
fn the_pattern_of_a_text_finds_it_wherever_it_stands() {
    let needles = ["", "a", "ab", "%", "_", "\\", "a%", "%_\\", "B", "\u{e9}"];
    let texts = ["", "a", "xABy", "100%", "a_b", "c:\\dir", "a%_\\b", "\u{c9}t\u{e9}", "b"];
    for n in needles {
        let pattern = format!("%{}%", escape_like(n));
        for t in texts {
            assert_eq!(like_matches(&pattern, t), text_contains(t, n), "{:?} in {:?}", n, t);
        }
    }
}

#[test]
fn a_rebuild_of_the_relational_cache_gives_what_a_rebuild_of_the_store_gives() {
    let db = rusqlite::Connection::open_in_memory().unwrap();
    db.execute_batch("PRAGMA foreign_keys = ON;").unwrap();
    db.execute_batch(SCHEMA_SQL).unwrap();
    let mut store = Store::open();
    let mut log = String::new();

    let writes = [("b", 10, 1), ("a", 20, 2), ("b", 30, 3), ("c", 5, 4), ("a", 15, 5), ("", 1, 6)];
    for (id, stamp, n) in writes {
        let payload = format!("{{\"id\":\"{}\",\"n\":{},\"updated_at\":{}}}", id, n, stamp);
        // the last line is one that the store would not have written: it is found in the
        // log all the same
        assert_eq!(store.create("tasks", id, stamp, &payload, fields_of(n), 1).is_ok(), !id.is_empty());
        append_jsonl(&mut log, &payload).unwrap();
    }
    store.delete("tasks", "c", 6).unwrap();
    append_jsonl(&mut log, &store.log_entries("tasks").last().unwrap().payload).unwrap();
    log.push_str("\n{not json}\n{\"n\":0}\n");

    // the store reads the text of the log and rebuilds
    assert_eq!(store.load_log("tasks", &log, 99).unwrap(), vec![9, 10]);
    store.sync(100);

    // the relational cache is rebuilt from the same text
    db.execute_batch(CLEAR_INDEX_SQL).unwrap();
    db.execute_batch(CLEAR_RECORDS_SQL).unwrap();
    let read = read_jsonl_latest(&log);
    assert_eq!(read.skipped, vec![9, 10]);
    for entry in read.latest.iter().filter(|e| !e.deleted) {
        run(&db, &plan_restore("tasks", &entry.id, &entry.payload, entry.updated_at).unwrap());
    }
    run(&db, &plan_mark_synced("tasks", 100, 99));

    let from_db = ids(&db, &plan_list("tasks", &vec![]).unwrap());
    let rows = store.list("tasks", &vec![]).unwrap();
    let from_store: Vec<String> = rows.iter().map(|r| r.id.clone()).collect();
    assert_eq!(from_db, from_store);
    assert_eq!(from_store, vec!["b", "a", ""]);
    for row in &rows {
        let mut stmt = db.prepare("SELECT payload_json, updated_at FROM records WHERE collection = 'tasks' AND id = ?").unwrap();
        let (payload, stamp): (String, i64) =
            stmt.query_row([row.id.as_str()], |r| Ok((r.get(0)?, r.get(1)?))).unwrap();
        assert_eq!(payload, row.payload);
        assert_eq!(stamp, row.updated_at);
    }
    // nothing is indexed after a rebuild, here as there
    let high = vec![filter("priority", FilterOp::Gte, IndexValue::Int(0))];
    assert!(ids(&db, &plan_list("tasks", &high).unwrap()).is_empty());
    assert!(store.list("tasks", &high).unwrap().is_empty());
}
