use taskstore::clock::{reading_to_stamp, timestamp_parts};
use taskstore::jsonl::{latest_by_id, HasId, HasUpdatedAt};
use taskstore::models::{
    now_ms, to_lower, Dependency, DependencyType, ExecStatus, Execution, Prd, PrdStatus, RepoState,
    TaskSpec, TaskSpecStatus, Workflow,
};
use taskstore::record::{IndexField, IndexValue};

#[test]
fn test_now_ms() {
    let ts = now_ms();
    assert!(ts > 0);
    // Should be reasonable timestamp (after year 2020)
    assert!(ts > 1_600_000_000_000);
}

#[test]
fn test_prd_status_serialization() {
    let status = PrdStatus::Draft;
    let json = format!("\"{}\"", status.as_str());
    assert_eq!(json, "\"draft\"");

    let status = PrdStatus::Active;
    let json = format!("\"{}\"", status.as_str());
    assert_eq!(json, "\"active\"");
}

#[test]
fn a_clock_reading_becomes_a_timestamp() {
    assert_eq!(reading_to_stamp(None), 0);
    assert_eq!(reading_to_stamp(Some(0)), 0);
    assert_eq!(reading_to_stamp(Some(1_600_000_000_123)), 1_600_000_000_123);
    assert_eq!(reading_to_stamp(Some(i64::MAX as u128)), i64::MAX);
    assert_eq!(reading_to_stamp(Some(i64::MAX as u128 + 1)), i64::MAX);
    assert_eq!(reading_to_stamp(Some(u128::MAX)), i64::MAX);
}

#[test]
fn a_timestamp_splits_into_seconds_and_nanoseconds() {
    assert_eq!(timestamp_parts(0), Some((0, 0)));
    assert_eq!(timestamp_parts(1_600_000_000_123), Some((1_600_000_000, 123_000_000)));
    assert_eq!(timestamp_parts(999), Some((0, 999_000_000)));
    assert_eq!(timestamp_parts(-1000), Some((-1, 0)));
    assert_eq!(timestamp_parts(-1), None);
    assert_eq!(timestamp_parts(-1999), None);
    assert_eq!(timestamp_parts(i64::MIN), None);
    assert_eq!(timestamp_parts(i64::MAX), Some((9_223_372_036_854_775, 807_000_000)));
}

#[test]
fn statuses_are_written_in_lower_case() {
    assert_eq!(PrdStatus::Ready.as_str(), "ready");
    assert_eq!(PrdStatus::Complete.to_string(), "complete");
    assert_eq!(PrdStatus::Cancelled.as_str(), "cancelled");
    assert_eq!(TaskSpecStatus::Pending.as_str(), "pending");
    assert_eq!(TaskSpecStatus::Running.to_string(), "running");
    assert_eq!(TaskSpecStatus::Complete.as_str(), "complete");
    assert_eq!(TaskSpecStatus::Failed.as_str(), "failed");
    assert_eq!(ExecStatus::Running.as_str(), "running");
    assert_eq!(ExecStatus::Paused.as_str(), "paused");
    assert_eq!(ExecStatus::Complete.to_string(), "complete");
    assert_eq!(ExecStatus::Failed.as_str(), "failed");
    assert_eq!(ExecStatus::Stopped.as_str(), "stopped");
    assert_eq!(DependencyType::Notify.as_str(), "notify");
    assert_eq!(DependencyType::Query.as_str(), "query");
    assert_eq!(DependencyType::Share.as_str(), "share");
}

#[test]
fn statuses_are_read_in_any_case() {
    assert_eq!(PrdStatus::parse("draft"), Some(PrdStatus::Draft));
    assert_eq!(PrdStatus::parse("READY"), Some(PrdStatus::Ready));
    assert_eq!(PrdStatus::parse("Active"), Some(PrdStatus::Active));
    assert_eq!(PrdStatus::parse("complete"), Some(PrdStatus::Complete));
    assert_eq!(PrdStatus::parse("cAnCeLlEd"), Some(PrdStatus::Cancelled));
    assert_eq!(PrdStatus::parse("canceled"), None);
    assert_eq!(PrdStatus::parse(" draft"), None);
    assert_eq!(ExecStatus::parse("Running"), Some(ExecStatus::Running));
    assert_eq!(ExecStatus::parse("paused"), Some(ExecStatus::Paused));
    assert_eq!(ExecStatus::parse("COMPLETE"), Some(ExecStatus::Complete));
    assert_eq!(ExecStatus::parse("failed"), Some(ExecStatus::Failed));
    assert_eq!(ExecStatus::parse("stopped"), Some(ExecStatus::Stopped));
    assert_eq!(ExecStatus::parse("pending"), None);
    assert_eq!(to_lower("MiXed \u{c9} 9"), "mixed \u{c9} 9");
}

#[test]
fn a_stored_status_that_names_none_counts_as_the_first() {
    assert_eq!(PrdStatus::from_stored("active"), PrdStatus::Active);
    assert_eq!(PrdStatus::from_stored("Active"), PrdStatus::Draft);
    assert_eq!(PrdStatus::from_stored(""), PrdStatus::Draft);
    assert_eq!(TaskSpecStatus::from_stored("failed"), TaskSpecStatus::Failed);
    assert_eq!(TaskSpecStatus::from_stored("nonsense"), TaskSpecStatus::Pending);
    assert_eq!(ExecStatus::from_stored("stopped"), ExecStatus::Stopped);
    assert_eq!(ExecStatus::from_stored("nonsense"), ExecStatus::Running);
}

fn prd(id: &str, updated_at: i64) -> Prd {
    Prd {
        id: id.to_string(),
        title: "Test".to_string(),
        description: "Test".to_string(),
        created_at: 1000,
        updated_at,
        status: PrdStatus::Active,
        review_passes: 0,
        content: "content".to_string(),
    }
}

#[test]
fn every_model_has_its_id_and_its_time() {
    let p = prd("p", 5);
    assert_eq!(HasId::id(&p), "p");
    assert_eq!(HasUpdatedAt::updated_at(&p), 5);
    let d = Dependency {
        id: "d".to_string(),
        from_exec_id: "a".to_string(),
        to_exec_id: "b".to_string(),
        dependency_type: DependencyType::Query,
        created_at: 77,
        resolved_at: None,
        payload: None,
    };
    assert_eq!(HasId::id(&d), "d");
    assert_eq!(HasUpdatedAt::updated_at(&d), 77);
    let r = RepoState {
        repo_path: "/repo".to_string(),
        last_synced_commit: "abc".to_string(),
        updated_at: 9,
    };
    assert_eq!(HasId::id(&r), "/repo");
    assert_eq!(HasUpdatedAt::updated_at(&r), 9);
    let w = Workflow {
        id: "w".to_string(),
        name: "n".to_string(),
        version: "1".to_string(),
        created_at: 1,
        updated_at: 2,
        content: String::new(),
    };
    assert_eq!(HasId::id(&w), "w");
    assert_eq!(HasUpdatedAt::updated_at(&w), 2);
}

#[test]
fn models_say_where_they_are_kept_and_how_they_are_found() {
    let p = prd("p", 5);
    assert_eq!(Prd::collection_name(), "prds");
    assert_eq!(
        p.indexed_fields(),
        vec![IndexField {
            name: "status".to_string(),
            value: IndexValue::String("active".to_string())
        }]
    );
    let ts = TaskSpec {
        id: "ts".to_string(),
        prd_id: "p".to_string(),
        phase_name: "one".to_string(),
        description: String::new(),
        created_at: 1,
        updated_at: 2,
        status: TaskSpecStatus::Pending,
        workflow_name: None,
        assigned_to: None,
        content: String::new(),
    };
    assert_eq!(TaskSpec::collection_name(), "task_specs");
    assert_eq!(
        ts.indexed_fields(),
        vec![
            IndexField { name: "prd_id".to_string(), value: IndexValue::String("p".to_string()) },
            IndexField {
                name: "status".to_string(),
                value: IndexValue::String("pending".to_string())
            },
        ]
    );
    let e = Execution {
        id: "e".to_string(),
        ts_id: "ts".to_string(),
        worktree_path: "/tmp/w".to_string(),
        branch_name: "b".to_string(),
        status: ExecStatus::Paused,
        started_at: 1,
        updated_at: 3,
        completed_at: None,
        current_phase: None,
        iteration_count: 0,
        error_message: None,
    };
    assert_eq!(Execution::collection_name(), "executions");
    assert_eq!(
        e.indexed_fields(),
        vec![
            IndexField { name: "ts_id".to_string(), value: IndexValue::String("ts".to_string()) },
            IndexField {
                name: "status".to_string(),
                value: IndexValue::String("paused".to_string())
            },
        ]
    );
}

#[test]
fn typed_records_reduce_to_the_latest_of_each_id() {
    let records = vec![prd("b", 10), prd("a", 5), prd("b", 30), prd("a", 5), prd("b", 20)];
    assert_eq!(latest_by_id(&records), vec![1, 2]);
    let none: Vec<Prd> = Vec::new();
    assert_eq!(latest_by_id(&none), Vec::<usize>::new());
}
