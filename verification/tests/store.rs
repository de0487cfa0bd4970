use taskstore::filter::{Filter, FilterOp};
use taskstore::models::{
    now_ms, ExecStatus, Execution, Prd, PrdStatus, TaskSpec, TaskSpecStatus,
};
use taskstore::record::{IndexField, IndexValue, Record, StoreError};
use taskstore::store::{needs_rebuild, tombstone_entry, CachedRecord, Store, SyncMark};
use taskstore::typed::{union_listings, RecordKind, UpdateError};
use taskstore::version::{
    ensure_schema, log_file_name, SchemaAction, CURRENT_VERSION, GITIGNORE,
};

fn text(v: &serde_json::Value, key: &str) -> String {
    v[key].as_str().unwrap().to_string()
}

fn json_of(pairs: Vec<(&str, serde_json::Value)>) -> String {
    let mut m = serde_json::Map::new();
    for (k, v) in pairs {
        m.insert(k.to_string(), v);
    }
    serde_json::Value::Object(m).to_string()
}

fn opt(s: &Option<String>) -> serde_json::Value {
    match s {
        Some(s) => serde_json::Value::from(s.as_str()),
        None => serde_json::Value::Null,
    }
}

fn prd_json(p: &Prd) -> String {
    json_of(vec![
        ("id", serde_json::Value::from(p.id.as_str())),
        ("title", serde_json::Value::from(p.title.as_str())),
        ("description", serde_json::Value::from(p.description.as_str())),
        ("created_at", serde_json::Value::from(p.created_at)),
        ("updated_at", serde_json::Value::from(p.updated_at)),
        ("status", serde_json::Value::from(p.status.as_str())),
        ("review_passes", serde_json::Value::from(p.review_passes)),
        ("content", serde_json::Value::from(p.content.as_str())),
    ])
}

fn prd_of(row: &CachedRecord) -> Prd {
    let v: serde_json::Value = serde_json::from_str(&row.payload).unwrap();
    Prd {
        id: text(&v, "id"),
        title: text(&v, "title"),
        description: text(&v, "description"),
        created_at: v["created_at"].as_i64().unwrap(),
        updated_at: v["updated_at"].as_i64().unwrap(),
        status: PrdStatus::from_stored(&text(&v, "status")),
        review_passes: v["review_passes"].as_u64().unwrap() as u8,
        content: text(&v, "content"),
    }
}


fn ts_json(t: &TaskSpec) -> String {
    json_of(vec![
        ("id", serde_json::Value::from(t.id.as_str())),
        ("prd_id", serde_json::Value::from(t.prd_id.as_str())),
        ("phase_name", serde_json::Value::from(t.phase_name.as_str())),
        ("description", serde_json::Value::from(t.description.as_str())),
        ("created_at", serde_json::Value::from(t.created_at)),
        ("updated_at", serde_json::Value::from(t.updated_at)),
        ("status", serde_json::Value::from(t.status.as_str())),
        ("workflow_name", opt(&t.workflow_name)),
        ("assigned_to", opt(&t.assigned_to)),
        ("content", serde_json::Value::from(t.content.as_str())),
    ])
}

fn ts_of(row: &CachedRecord) -> TaskSpec {
    let v: serde_json::Value = serde_json::from_str(&row.payload).unwrap();
    TaskSpec {
        id: text(&v, "id"),
        prd_id: text(&v, "prd_id"),
        phase_name: text(&v, "phase_name"),
        description: text(&v, "description"),
        created_at: v["created_at"].as_i64().unwrap(),
        updated_at: v["updated_at"].as_i64().unwrap(),
        status: TaskSpecStatus::from_stored(&text(&v, "status")),
        workflow_name: v["workflow_name"].as_str().map(|s| s.to_string()),
        assigned_to: v["assigned_to"].as_str().map(|s| s.to_string()),
        content: text(&v, "content"),
    }
}

fn exec_json(e: &Execution) -> String {
    json_of(vec![
        ("id", serde_json::Value::from(e.id.as_str())),
        ("ts_id", serde_json::Value::from(e.ts_id.as_str())),
        ("worktree_path", serde_json::Value::from(e.worktree_path.as_str())),
        ("branch_name", serde_json::Value::from(e.branch_name.as_str())),
        ("status", serde_json::Value::from(e.status.as_str())),
        ("started_at", serde_json::Value::from(e.started_at)),
        ("updated_at", serde_json::Value::from(e.updated_at)),
        ("completed_at", serde_json::Value::from(e.completed_at)),
        ("current_phase", opt(&e.current_phase)),
        ("iteration_count", serde_json::Value::from(e.iteration_count)),
        ("error_message", opt(&e.error_message)),
    ])
}

fn exec_of(row: &CachedRecord) -> Execution {
    let v: serde_json::Value = serde_json::from_str(&row.payload).unwrap();
    Execution {
        id: text(&v, "id"),
        ts_id: text(&v, "ts_id"),
        worktree_path: text(&v, "worktree_path"),
        branch_name: text(&v, "branch_name"),
        status: ExecStatus::from_stored(&text(&v, "status")),
        started_at: v["started_at"].as_i64().unwrap(),
        updated_at: v["updated_at"].as_i64().unwrap(),
        completed_at: v["completed_at"].as_i64(),
        current_phase: v["current_phase"].as_str().map(|s| s.to_string()),
        iteration_count: v["iteration_count"].as_u64().unwrap() as u32,
        error_message: v["error_message"].as_str().map(|s| s.to_string()),
    }
}

#[test]
fn test_store_open_creates_directory() {
    // what opening a new store puts into its directory
    let store = Store::open();
    assert!(store.list_prds(None).is_empty());
    assert_eq!(ensure_schema(None), Ok(SchemaAction::Initialize));
    assert!(GITIGNORE.lines().any(|l| l == "taskstore.db"));
    assert_eq!(CURRENT_VERSION.to_string(), "1");
    assert_eq!(log_file_name("prds"), "prds.jsonl");
}

#[test]
fn test_store_reopen() {
    // Open first time
    let version_file = match ensure_schema(None) {
        Ok(SchemaAction::Initialize) => CURRENT_VERSION.to_string(),
        other => panic!("a new store is initialized, not {:?}", other),
    };

    // Reopen should work
    assert_eq!(ensure_schema(Some(&version_file)), Ok(SchemaAction::Keep));
    let store = Store::open();
    assert!(!store.is_stale());
}

#[test]
fn test_is_stale_fresh_db() {
    let _store = Store::open();
    // Fresh database with no JSONL files should not be stale
    assert!(!_store.is_stale());
}

#[test]
fn test_prd_crud() {
    let mut store = Store::open();

    // Create
    let prd = Prd {
        id: "test-prd-1".to_string(),
        title: "Test PRD".to_string(),
        description: "Test description".to_string(),
        created_at: now_ms(),
        updated_at: now_ms(),
        status: PrdStatus::Draft,
        review_passes: 5,
        content: "# Test Content".to_string(),
    };

    let id = store.create_prd(&prd, &prd_json(&prd), now_ms()).unwrap();
    assert_eq!(id, "test-prd-1");

    // Read
    let retrieved = store.get_prd(&id).unwrap();
    assert!(retrieved.is_some());
    let retrieved = prd_of(&retrieved.unwrap());
    assert_eq!(retrieved.title, "Test PRD");
    assert_eq!(retrieved.status, PrdStatus::Draft);

    // Update
    let mut updated_prd = retrieved.clone();
    updated_prd.status = PrdStatus::Active;
    updated_prd.updated_at = now_ms();
    store.update_prd(&id, &updated_prd, &prd_json(&updated_prd), now_ms()).unwrap();

    let retrieved = prd_of(&store.get_prd(&id).unwrap().unwrap());
    assert_eq!(retrieved.status, PrdStatus::Active);

    // List
    let prds = store.list_prds(None);
    assert_eq!(prds.len(), 1);

    let draft_prds = store.list_prds(Some(PrdStatus::Draft));
    assert_eq!(draft_prds.len(), 0);

    let active_prds = store.list_prds(Some(PrdStatus::Active));
    assert_eq!(active_prds.len(), 1);
}

#[test]
fn test_task_spec_crud() {
    let mut store = Store::open();

    // Create PRD first
    let prd = Prd {
        id: "prd-1".to_string(),
        title: "Test PRD".to_string(),
        description: "Test".to_string(),
        created_at: now_ms(),
        updated_at: now_ms(),
        status: PrdStatus::Active,
        review_passes: 5,
        content: "content".to_string(),
    };
    store.create_prd(&prd, &prd_json(&prd), now_ms()).unwrap();

    // Create TaskSpec
    let ts = TaskSpec {
        id: "ts-1".to_string(),
        prd_id: "prd-1".to_string(),
        phase_name: "Phase 1".to_string(),
        description: "Test task".to_string(),
        created_at: now_ms(),
        updated_at: now_ms(),
        status: TaskSpecStatus::Pending,
        workflow_name: Some("rust-development".to_string()),
        assigned_to: None,
        content: "# Task Content".to_string(),
    };

    let id = store.create_task_spec(&ts, &ts_json(&ts), now_ms()).unwrap();
    assert_eq!(id, "ts-1");

    // Read
    let retrieved = ts_of(&store.get_task_spec(&id).unwrap().unwrap());
    assert_eq!(retrieved.phase_name, "Phase 1");
    assert_eq!(retrieved.status, TaskSpecStatus::Pending);

    // Update
    let mut updated_ts = retrieved.clone();
    updated_ts.status = TaskSpecStatus::Running;
    updated_ts.assigned_to = Some("exec-1".to_string());
    store.update_task_spec(&id, &updated_ts, &ts_json(&updated_ts), now_ms()).unwrap();

    let retrieved = ts_of(&store.get_task_spec(&id).unwrap().unwrap());
    assert_eq!(retrieved.status, TaskSpecStatus::Running);
    assert_eq!(retrieved.assigned_to, Some("exec-1".to_string()));

    // List by PRD
    let specs = store.list_task_specs("prd-1");
    assert_eq!(specs.len(), 1);

    // List pending
    let pending = store.list_pending_task_specs();
    assert_eq!(pending.len(), 0); // We updated it to running
}

#[test]
fn test_execution_crud() {
    let mut store = Store::open();

    // Create PRD and TaskSpec first
    let prd = Prd {
        id: "prd-1".to_string(),
        title: "Test PRD".to_string(),
        description: "Test".to_string(),
        created_at: now_ms(),
        updated_at: now_ms(),
        status: PrdStatus::Active,
        review_passes: 5,
        content: "content".to_string(),
    };
    store.create_prd(&prd, &prd_json(&prd), now_ms()).unwrap();

    let ts = TaskSpec {
        id: "ts-1".to_string(),
        prd_id: "prd-1".to_string(),
        phase_name: "Phase 1".to_string(),
        description: "Test task".to_string(),
        created_at: now_ms(),
        updated_at: now_ms(),
        status: TaskSpecStatus::Pending,
        workflow_name: None,
        assigned_to: None,
        content: "content".to_string(),
    };
    store.create_task_spec(&ts, &ts_json(&ts), now_ms()).unwrap();

    // Create Execution
    let exec = Execution {
        id: "exec-1".to_string(),
        ts_id: "ts-1".to_string(),
        worktree_path: "/tmp/worktree".to_string(),
        branch_name: "feature/test".to_string(),
        status: ExecStatus::Running,
        started_at: now_ms(),
        updated_at: now_ms(),
        completed_at: None,
        current_phase: Some("Phase 1".to_string()),
        iteration_count: 0,
        error_message: None,
    };

    let id = store.create_execution(&exec, &exec_json(&exec), now_ms()).unwrap();
    assert_eq!(id, "exec-1");

    // Read
    let retrieved = exec_of(&store.get_execution(&id).unwrap().unwrap());
    assert_eq!(retrieved.status, ExecStatus::Running);
    assert_eq!(retrieved.iteration_count, 0);

    // Update
    let mut updated_exec = retrieved.clone();
    updated_exec.iteration_count = 5;
    updated_exec.status = ExecStatus::Complete;
    updated_exec.completed_at = Some(now_ms());
    store.update_execution(&id, &updated_exec, &exec_json(&updated_exec), now_ms()).unwrap();

    let retrieved = exec_of(&store.get_execution(&id).unwrap().unwrap());
    assert_eq!(retrieved.status, ExecStatus::Complete);
    assert_eq!(retrieved.iteration_count, 5);
    assert!(retrieved.completed_at.is_some());

    // List all
    let execs = store.list_executions(None);
    assert_eq!(execs.len(), 1);

    // List by status
    let running = store.list_executions(Some(ExecStatus::Running));
    assert_eq!(running.len(), 0);

    let complete = store.list_executions(Some(ExecStatus::Complete));
    assert_eq!(complete.len(), 1);

    // List active (should be empty since we completed it)
    let active = store.list_active_executions();
    assert_eq!(active.len(), 0);
}

#[test]
fn test_update_nonexistent_returns_error() {
    let mut store = Store::open();

    let prd = Prd {
        id: "nonexistent".to_string(),
        title: "Test".to_string(),
        description: "Test".to_string(),
        created_at: now_ms(),
        updated_at: now_ms(),
        status: PrdStatus::Draft,
        review_passes: 0,
        content: "content".to_string(),
    };

    let result = store.update_prd("nonexistent", &prd, &prd_json(&prd), now_ms());
    assert!(result.is_err());
    assert!(result.unwrap_err().to_string().contains("PRD not found"));
}

#[derive(Debug, Clone)]
struct Task {
    id: String,
    title: String,
    status: String,
    priority: i64,
    assigned: bool,
    updated_at: i64,
}

impl Task {
    fn json(&self) -> String {
        json_of(vec![
            ("id", serde_json::Value::from(self.id.as_str())),
            ("title", serde_json::Value::from(self.title.as_str())),
            ("status", serde_json::Value::from(self.status.as_str())),
            ("priority", serde_json::Value::from(self.priority)),
            ("assigned", serde_json::Value::from(self.assigned)),
            ("updated_at", serde_json::Value::from(self.updated_at)),
        ])
    }
}

impl Record for Task {
    fn id(&self) -> &str {
        &self.id
    }

    fn updated_at(&self) -> i64 {
        self.updated_at
    }

    fn collection_name() -> &'static str {
        "tasks"
    }

    fn indexed_fields(&self) -> Vec<IndexField> {
        vec![
            IndexField { name: "status".to_string(), value: IndexValue::String(self.status.clone()) },
            IndexField { name: "priority".to_string(), value: IndexValue::Int(self.priority) },
            IndexField { name: "assigned".to_string(), value: IndexValue::Bool(self.assigned) },
        ]
    }
}

fn task(priority: i64) -> Task {
    Task {
        id: format!("task-{:02}", priority),
        title: format!("Task number {}", priority),
        status: if priority % 2 == 0 { "pending".to_string() } else { "done".to_string() },
        priority,
        assigned: priority > 5,
        updated_at: 1000 + priority,
    }
}

fn ten_tasks() -> Store {
    let mut store = Store::open();
    for priority in [3, 9, 1, 10, 6, 2, 8, 4, 7, 5] {
        let t = task(priority);
        assert_eq!(store.create_record(&t, &t.json(), 5000).unwrap(), t.id);
    }
    store
}

fn priorities(rows: &[CachedRecord]) -> Vec<i64> {
    rows.iter()
        .map(|r| {
            let v: serde_json::Value = serde_json::from_str(&r.payload).unwrap();
            v["priority"].as_i64().unwrap()
        })
        .collect()
}

fn filter(field: &str, op: FilterOp, value: IndexValue) -> Filter {
    Filter { field: field.to_string(), op, value }
}

#[test]
fn what_is_created_is_what_is_read() {
    let mut store = Store::open();
    let t = task(4);
    let id = store.create_record(&t, &t.json(), 77).unwrap();
    let row = store.get("tasks", &id).unwrap().unwrap();
    assert_eq!(row.id, "task-04");
    assert_eq!(row.payload, t.json());
    assert_eq!(row.updated_at, 1004);
    assert_eq!(row.fields, t.indexed_fields());
    let read: serde_json::Value = serde_json::from_str(&row.payload).unwrap();
    let written: serde_json::Value = serde_json::from_str(&t.json()).unwrap();
    assert_eq!(read, written);
    assert_eq!(store.get("tasks", "task-05").unwrap().map(|r| r.id), None);
    assert_eq!(store.get("other", "task-04").unwrap().map(|r| r.id), None);
}

#[test]
fn a_listing_holds_exactly_what_passes_the_filters() {
    let store = ten_tasks();
    let all = store.list("tasks", &vec![]).unwrap();
    assert_eq!(priorities(&all), vec![10, 9, 8, 7, 6, 5, 4, 3, 2, 1]);

    let high = store.list("tasks", &vec![filter("priority", FilterOp::Gte, IndexValue::Int(7))]).unwrap();
    assert_eq!(priorities(&high), vec![10, 9, 8, 7]);

    let both = store
        .list(
            "tasks",
            &vec![
                filter("priority", FilterOp::Gte, IndexValue::Int(7)),
                filter("status", FilterOp::Eq, IndexValue::String("pending".to_string())),
            ],
        )
        .unwrap();
    assert_eq!(priorities(&both), vec![10, 8]);

    let unassigned = store.list("tasks", &vec![filter("assigned", FilterOp::Eq, IndexValue::Bool(false))]).unwrap();
    assert_eq!(priorities(&unassigned), vec![5, 4, 3, 2, 1]);

    let titled = store
        .list("tasks", &vec![filter("status", FilterOp::Contains, IndexValue::String("END".to_string()))])
        .unwrap();
    assert_eq!(priorities(&titled), vec![10, 8, 6, 4, 2]);

    let none = store.list("tasks", &vec![filter("missing", FilterOp::Ne, IndexValue::Int(0))]).unwrap();
    assert!(none.is_empty());
    assert!(store.list("nothing-here", &vec![]).unwrap().is_empty());
}

#[test]
fn equally_new_rows_are_listed_by_id() {
    let mut store = Store::open();
    for id in ["b", "c", "a"] {
        store.create("tasks", id, 5, "{}", vec![], 1).unwrap();
    }
    store.create("tasks", "z", 9, "{}", vec![], 1).unwrap();
    let ids: Vec<String> = store.list("tasks", &vec![]).unwrap().into_iter().map(|r| r.id).collect();
    assert_eq!(ids, vec!["z", "a", "b", "c"]);
}

#[test]
fn a_deleted_record_comes_back_with_a_newer_one() {
    let mut store = Store::open();
    let t = task(3);
    store.create_record(&t, &t.json(), 10).unwrap();
    store.delete("tasks", "task-03", 2000).unwrap();
    assert!(store.get("tasks", "task-03").unwrap().is_none());

    let mut newer = task(3);
    newer.title = "Back again".to_string();
    newer.updated_at = 3000;
    store.create_record(&newer, &newer.json(), 3001).unwrap();
    let row = store.get("tasks", "task-03").unwrap().unwrap();
    assert_eq!(row.payload, newer.json());

    // the log bears it out
    store.sync(4000);
    let row = store.get("tasks", "task-03").unwrap().unwrap();
    assert_eq!(row.payload, newer.json());
    assert_eq!(row.updated_at, 3000);
}

#[test]
fn a_deletion_writes_a_tombstone() {
    let mut store = Store::open();
    store.create("tasks", "a \"quoted\" id", 5, "{\"id\":\"a \\\"quoted\\\" id\"}", vec![], 6).unwrap();
    store.delete("tasks", "a \"quoted\" id", 7).unwrap();
    let log = store.log_entries("tasks");
    assert_eq!(log.len(), 2);
    assert!(!log[0].deleted);
    assert!(log[1].deleted);
    assert_eq!(log[1].id, "a \"quoted\" id");
    assert_eq!(log[1].updated_at, 7);
    assert_eq!(log[1].payload, "{\"deleted\":true,\"id\":\"a \\\"quoted\\\" id\",\"updated_at\":7}");
    // deleting what is not there is no error, and is written down all the same
    store.delete("tasks", "never-there", 8).unwrap();
    assert_eq!(store.log_entries("tasks").len(), 3);
    store.sync(9);
    assert!(store.list("tasks", &vec![]).unwrap().is_empty());
}

#[test]
fn a_rebuild_gives_the_same_rows_every_time() {
    let mut store = ten_tasks();
    store.delete("tasks", "task-02", 9000).unwrap();
    store.sync(10_000);
    let once: Vec<(String, String, i64)> = store
        .list("tasks", &vec![])
        .unwrap()
        .into_iter()
        .map(|r| (r.id, r.payload, r.updated_at))
        .collect();
    assert_eq!(once.len(), 9);
    store.sync(20_000);
    let twice: Vec<(String, String, i64)> = store
        .list("tasks", &vec![])
        .unwrap()
        .into_iter()
        .map(|r| (r.id, r.payload, r.updated_at))
        .collect();
    assert_eq!(once, twice);
    assert_eq!(
        store.sync_mark("tasks"),
        Some(SyncMark { last_sync_time: 20_000, log_mtime_at_sync: 9000 })
    );
}

#[test]
fn a_rebuild_files_no_fields_until_they_are_filed_anew() {
    let mut store = ten_tasks();
    let high = vec![filter("priority", FilterOp::Gte, IndexValue::Int(7))];
    assert_eq!(store.list("tasks", &high).unwrap().len(), 4);
    store.sync(6000);
    assert_eq!(store.list("tasks", &vec![]).unwrap().len(), 10);
    assert_eq!(store.list("tasks", &high).unwrap().len(), 0);

    let mut records: Vec<Task> = (1..=10).map(task).collect();
    records.push(task(11));
    assert_eq!(store.rebuild_indexes(&records), 10);
    assert_eq!(priorities(&store.list("tasks", &high).unwrap()), vec![10, 9, 8, 7]);
    assert_eq!(store.log_entries("tasks").len(), 10);
}

#[test]
fn a_store_is_stale_until_it_is_rebuilt() {
    let mut store = Store::open();
    assert!(!store.is_stale());
    store.create("tasks", "a", 1, "{}", vec![], 100).unwrap();
    assert!(store.is_stale());
    assert_eq!(store.sync_mark("tasks"), None);
    store.sync(200);
    assert!(!store.is_stale());
    store.create("tasks", "b", 2, "{}", vec![], 100).unwrap();
    assert!(!store.is_stale());
    store.delete("tasks", "a", 101).unwrap();
    assert!(store.is_stale());
    store.sync(300);
    assert!(!store.is_stale());
    store.load_log("plans", "", 1).unwrap();
    assert!(store.is_stale());
}

#[test]
fn a_log_is_taken_from_its_text() {
    let mut store = Store::open();
    let text = "{\"id\":\"a\",\"v\":1,\"updated_at\":10}\nnot json\n{\"id\":\"b\",\"updated_at\":5}\n{\"v\":0}\n{\"id\":\"a\",\"v\":2,\"updated_at\":20}\n{\"id\":\"b\",\"deleted\":true,\"updated_at\":6}\n";
    assert_eq!(store.load_log("plans", text, 1234).unwrap(), vec![2, 4]);
    assert_eq!(store.log_entries("plans").len(), 4);
    assert!(store.list("plans", &vec![]).unwrap().is_empty());
    store.sync(2000);
    let rows = store.list("plans", &vec![]).unwrap();
    assert_eq!(rows.len(), 1);
    assert_eq!(rows[0].id, "a");
    assert_eq!(rows[0].payload, "{\"id\":\"a\",\"updated_at\":20,\"v\":2}");
    assert_eq!(rows[0].updated_at, 20);
    assert!(rows[0].fields.is_empty());
    assert_eq!(
        store.sync_mark("plans"),
        Some(SyncMark { last_sync_time: 2000, log_mtime_at_sync: 1234 })
    );
    assert_eq!(store.load_log("bad name", "", 1), Err(StoreError::InvalidCollection));
}

#[test]
fn records_are_deleted_by_what_they_are_indexed_under() {
    let mut store = ten_tasks();
    let n = store.delete_by_index("tasks", "status", IndexValue::String("pending".to_string()), 7000);
    assert_eq!(n, Ok(5));
    assert_eq!(priorities(&store.list("tasks", &vec![]).unwrap()), vec![9, 7, 5, 3, 1]);
    assert_eq!(store.log_entries("tasks").len(), 15);
    assert_eq!(store.delete_by_index("tasks", "status", IndexValue::Int(1), 7000), Ok(0));
    assert_eq!(
        store.delete_by_index("tasks", "no such field!", IndexValue::Int(1), 7000),
        Err(StoreError::InvalidField)
    );
    assert_eq!(
        store.delete_by_index("", "status", IndexValue::Int(1), 7000),
        Err(StoreError::InvalidCollection)
    );
}

#[test]
fn what_breaks_a_rule_is_refused_and_leaves_no_trace() {
    let mut store = Store::open();
    let bad_field = vec![IndexField { name: "a b".to_string(), value: IndexValue::Int(1) }];
    assert_eq!(store.create("bad name", "a", 1, "{}", vec![], 1), Err(StoreError::InvalidCollection));
    assert_eq!(store.create("tasks", "  ", 1, "{}", vec![], 1), Err(StoreError::InvalidId));
    assert_eq!(store.create("tasks", "a", 1, "{}", bad_field.clone(), 1), Err(StoreError::InvalidField));
    assert_eq!(store.create("tasks", "a", 1, "{\n}", vec![], 1), Err(StoreError::InvalidPayload));
    assert_eq!(store.update("tasks", "a", 1, "{}", vec![], 1), Err(StoreError::NotFound));
    assert_eq!(store.update("tasks", "", 1, "{}", vec![], 1), Err(StoreError::InvalidId));
    assert_eq!(store.delete("tasks", "", 1), Err(StoreError::InvalidId));
    assert_eq!(store.delete("ta sks", "a", 1), Err(StoreError::InvalidCollection));
    assert_eq!(store.get("ta sks", "a").err(), Some(StoreError::InvalidCollection));
    assert_eq!(store.get("tasks", "").err(), Some(StoreError::InvalidId));
    assert_eq!(
        store.list("tasks", &vec![filter("a b", FilterOp::Eq, IndexValue::Int(1))]).err(),
        Some(StoreError::InvalidField)
    );
    assert_eq!(store.list("ta sks", &vec![]).err(), Some(StoreError::InvalidCollection));
    assert_eq!(store.set_fields("tasks", "a", vec![]), Err(StoreError::NotFound));
    assert_eq!(store.set_fields("tasks", "a", bad_field), Err(StoreError::InvalidField));
    assert!(store.log_entries("tasks").is_empty());
    assert!(!store.is_stale());
}

#[test]
fn fields_are_set_without_a_word_in_the_log() {
    let mut store = Store::open();
    store.create("tasks", "a", 1, "{\"id\":\"a\"}", vec![], 1).unwrap();
    let fields = vec![IndexField { name: "n".to_string(), value: IndexValue::Int(5) }];
    assert_eq!(store.set_fields("tasks", "a", fields.clone()), Ok(()));
    let row = store.get("tasks", "a").unwrap().unwrap();
    assert_eq!(row.fields, fields);
    assert_eq!(row.payload, "{\"id\":\"a\"}");
    assert_eq!(store.log_entries("tasks").len(), 1);
    assert_eq!(store.set_fields("tasks", "b", vec![]), Err(StoreError::NotFound));
    assert_eq!(store.set_fields("other", "a", vec![]), Err(StoreError::NotFound));
}

#[test]
fn a_typed_update_needs_its_row() {
    let mut store = Store::open();
    let t = task(1);
    assert_eq!(store.update_record(&t, &t.json(), 1), Err(StoreError::NotFound));
    store.create_record(&t, &t.json(), 1).unwrap();
    let mut changed = t.clone();
    changed.status = "pending".to_string();
    changed.updated_at = 5000;
    assert_eq!(store.update_record(&changed, &changed.json(), 2), Ok("task-01".to_string()));
    assert_eq!(store.get("tasks", "task-01").unwrap().unwrap().payload, changed.json());
    assert_eq!(store.log_entries("tasks").len(), 2);
}

#[test]
fn an_update_that_was_not_made_says_why() {
    let e = UpdateError { kind: RecordKind::Prd, id: "p-1".to_string(), error: StoreError::NotFound };
    assert_eq!(e.to_string(), "PRD not found: p-1");
    let e = UpdateError { kind: RecordKind::TaskSpec, id: "t".to_string(), error: StoreError::NotFound };
    assert_eq!(e.to_string(), "TaskSpec not found: t");
    let e = UpdateError { kind: RecordKind::Execution, id: "e".to_string(), error: StoreError::NotFound };
    assert_eq!(e.to_string(), "Execution not found: e");
    let e = UpdateError { kind: RecordKind::Prd, id: "".to_string(), error: StoreError::InvalidId };
    assert_eq!(e.to_string(), "invalid record id");

    let mut store = Store::open();
    let exec = Execution {
        id: "e1".to_string(),
        ts_id: "t1".to_string(),
        worktree_path: String::new(),
        branch_name: String::new(),
        status: ExecStatus::Paused,
        started_at: 1,
        updated_at: 1,
        completed_at: None,
        current_phase: None,
        iteration_count: 0,
        error_message: None,
    };
    let err = store.update_execution("e1", &exec, "{}", 1).unwrap_err();
    assert_eq!(err.kind, RecordKind::Execution);
    assert_eq!(err.error, StoreError::NotFound);
    let err = store.update_execution("e1", &exec, "{\n}", 1).unwrap_err();
    assert_eq!(err.error, StoreError::InvalidPayload);
}

#[test]
fn active_executions_are_those_that_run_and_those_that_are_paused() {
    let mut store = Store::open();
    let statuses = [
        ("e1", ExecStatus::Running, 10),
        ("e2", ExecStatus::Paused, 30),
        ("e3", ExecStatus::Complete, 40),
        ("e4", ExecStatus::Running, 20),
        ("e5", ExecStatus::Stopped, 50),
        ("e6", ExecStatus::Paused, 20),
        ("e7", ExecStatus::Failed, 60),
    ];
    for (id, status, at) in statuses {
        let e = Execution {
            id: id.to_string(),
            ts_id: "ts".to_string(),
            worktree_path: String::new(),
            branch_name: String::new(),
            status,
            started_at: at,
            updated_at: at,
            completed_at: None,
            current_phase: None,
            iteration_count: 0,
            error_message: None,
        };
        store.create_execution(&e, &exec_json(&e), 1).unwrap();
    }
    let ids: Vec<String> = store.list_active_executions().into_iter().map(|r| r.id).collect();
    assert_eq!(ids, vec!["e2", "e4", "e6", "e1"]);
    store.flush();
    assert_eq!(store.list_executions(None).len(), 7);
}

#[test]
fn two_listings_join_into_one() {
    let row = |id: &str, at: i64| CachedRecord {
        id: id.to_string(),
        payload: format!("{{\"id\":\"{}\"}}", id),
        updated_at: at,
        fields: vec![],
    };
    let a = vec![row("x", 9), row("b", 5), row("a", 1)];
    let b = vec![row("y", 9), row("a", 5), row("b", 5), row("c", 5), row("a", 1)];
    let b = vec![b[0].clone(), b[2].clone(), b[3].clone(), b[4].clone()];
    let ids: Vec<(String, i64)> =
        union_listings(&a, &b).into_iter().map(|r| (r.id, r.updated_at)).collect();
    let want: Vec<(String, i64)> = [("x", 9), ("y", 9), ("b", 5), ("c", 5), ("a", 1)]
        .iter()
        .map(|(id, at)| (id.to_string(), *at))
        .collect();
    assert_eq!(ids, want);
    assert!(union_listings(&vec![], &vec![]).is_empty());
    assert_eq!(union_listings(&a, &vec![]).len(), 3);
    assert_eq!(union_listings(&vec![], &a).len(), 3);
}

#[test]
fn a_tombstone_is_a_line_of_its_own() {
    let e = tombstone_entry("gone", 42);
    assert_eq!(e.id, "gone");
    assert_eq!(e.updated_at, 42);
    assert!(e.deleted);
    assert_eq!(e.payload, "{\"deleted\":true,\"id\":\"gone\",\"updated_at\":42}");
}

#[test]
fn a_cache_is_behind_a_log_that_has_changed_since() {
    assert!(needs_rebuild(5, None));
    assert!(needs_rebuild(6, Some(SyncMark { last_sync_time: 10, log_mtime_at_sync: 5 })));
    assert!(!needs_rebuild(5, Some(SyncMark { last_sync_time: 10, log_mtime_at_sync: 5 })));
    assert!(!needs_rebuild(4, Some(SyncMark { last_sync_time: 1, log_mtime_at_sync: 5 })));
}

#[test]
fn test_prd_serialization() {
    let prd = Prd {
        id: "test-id".to_string(),
        title: "Test PRD".to_string(),
        description: "Test description".to_string(),
        created_at: 1000,
        updated_at: 1000,
        status: PrdStatus::Draft,
        review_passes: 5,
        content: "# Test Content".to_string(),
    };

    let json = prd_json(&prd);
    let mut store = Store::open();
    store.create_prd(&prd, &json, 1000).unwrap();
    let deserialized = prd_of(&store.get_prd("test-id").unwrap().unwrap());
    assert_eq!(deserialized.id, prd.id);
    assert_eq!(deserialized.title, prd.title);
}

#[test]
fn fields_are_filed_in_the_order_of_the_records() {
    let mut store = Store::open();
    let first = task(2);
    store.create_record(&first, &first.json(), 1).unwrap();
    store.sync(2);
    let mut second = task(2);
    second.priority = 9;
    // two records of one id: the later filing counts; a record without a row is passed over
    assert_eq!(store.rebuild_indexes(&vec![first.clone(), task(3), second.clone()]), 2);
    let row = store.get("tasks", "task-02").unwrap().unwrap();
    assert_eq!(row.fields, second.indexed_fields());
    assert_eq!(row.payload, first.json());
    assert_eq!(store.rebuild_indexes(&Vec::<Task>::new()), 0);
    assert_eq!(store.get("tasks", "task-02").unwrap().unwrap().fields, second.indexed_fields());
}

#[test]
fn a_typed_write_is_refused_as_the_plain_write_is() {
    let mut store = Store::open();
    let mut t = task(1);
    t.id = "  ".to_string();
    assert_eq!(store.create_record(&t, &t.json(), 1), Err(StoreError::InvalidId));
    assert_eq!(store.update_record(&t, &t.json(), 1), Err(StoreError::InvalidId));
    let t = task(1);
    assert_eq!(store.create_record(&t, "{\n}", 1), Err(StoreError::InvalidPayload));
    assert_eq!(store.update_record(&t, "{\n}", 1), Err(StoreError::InvalidPayload));
    assert!(store.log_entries("tasks").is_empty());
}
