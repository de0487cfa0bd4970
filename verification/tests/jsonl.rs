use taskstore::jsonl::{
    append_jsonl, entry_of, find_entry, latest_entries, latest_of, parse_jsonl, read_jsonl_latest,
    record_keys, scan_log, LogEntry, LogError, RecordKey,
};
use taskstore::json::JsonReading;

fn prd_line(id: &str, title: &str, updated_at: i64, status: &str, review_passes: u8) -> String {
    format!(
        "{{\"id\":\"{}\",\"title\":\"{}\",\"description\":\"Test\",\"created_at\":1000,\"updated_at\":{},\"status\":\"{}\",\"review_passes\":{},\"content\":\"content\"}}",
        id, title, updated_at, status, review_passes
    )
}

#[test]
fn test_append_jsonl() {
    let mut log = String::new();
    let line = prd_line("test-1", "Test", 1000, "draft", 0);

    append_jsonl(&mut log, &line).unwrap();

    assert!(log.contains("\"id\":\"test-1\""));
    assert!(log.contains("\"title\":\"Test\""));
    assert!(log.ends_with("}\n"));
}

#[test]
fn test_read_jsonl_latest() {
    let mut log = String::new();

    // Write multiple versions of same record
    append_jsonl(&mut log, &prd_line("test-1", "Version 1", 1000, "draft", 0)).unwrap();
    append_jsonl(&mut log, &prd_line("test-1", "Version 2", 2000, "active", 5)).unwrap();

    // Read should return latest version
    let records = read_jsonl_latest(&log);
    assert_eq!(records.latest.len(), 1);

    let latest = records.latest.iter().find(|e| e.id == "test-1").unwrap();
    let value: serde_json::Value = serde_json::from_str(&latest.payload).unwrap();
    assert_eq!(value["title"], "Version 2");
    assert_eq!(latest.updated_at, 2000);
    assert_eq!(value["status"], "active");
}

#[test]
fn test_read_jsonl_nonexistent_file() {
    let records = read_jsonl_latest("");
    assert_eq!(records.latest.len(), 0);
}

#[test]
fn test_read_jsonl_malformed_line() {
    // Write valid record, then malformed, then another valid
    let text = format!(
        "{}\n{{malformed json}}\n{}\n",
        prd_line("test-1", "Valid", 1000, "draft", 0),
        prd_line("test-2", "Also Valid", 1000, "draft", 0)
    );

    let records = read_jsonl_latest(&text);
    // Should skip malformed line and load the two valid records
    assert_eq!(records.latest.len(), 2);
    assert!(records.latest.iter().any(|e| e.id == "test-1"));
    assert!(records.latest.iter().any(|e| e.id == "test-2"));
    assert_eq!(records.skipped, vec![2]);
}

#[test]
fn latest_wins_in_either_order() {
    let old = "{\"id\":\"x\",\"v\":\"old\",\"updated_at\":1000}";
    let new = "{\"id\":\"x\",\"v\":\"new\",\"updated_at\":2000}";
    for text in [format!("{}\n{}\n", old, new), format!("{}\n{}\n", new, old)] {
        let read = read_jsonl_latest(&text);
        assert_eq!(read.latest.len(), 1);
        assert_eq!(read.latest[0].updated_at, 2000);
        assert_eq!(read.latest[0].payload, "{\"id\":\"x\",\"updated_at\":2000,\"v\":\"new\"}");
    }
}

#[test]
fn of_equally_new_entries_the_first_stays() {
    let text = "{\"id\":\"x\",\"n\":1,\"updated_at\":5}\n{\"id\":\"x\",\"n\":2,\"updated_at\":5}\n";
    let read = read_jsonl_latest(text);
    assert_eq!(read.latest.len(), 1);
    assert_eq!(read.latest[0].payload, "{\"id\":\"x\",\"n\":1,\"updated_at\":5}");
}

#[test]
fn the_latest_come_in_ascending_order_of_id() {
    let text = "{\"id\":\"b\"}\n{\"id\":\"a\"}\n{\"id\":\"ab\"}\n{\"id\":\"B\"}\n";
    let read = read_jsonl_latest(text);
    let ids: Vec<&str> = read.latest.iter().map(|e| e.id.as_str()).collect();
    assert_eq!(ids, vec!["B", "a", "ab", "b"]);
}

#[test]
fn a_line_is_read_for_id_time_and_deletion() {
    let scan = scan_log(
        " {\"updated_at\": 7, \"id\": \"a\", \"deleted\": true}\r\n\n   \n{\"id\":\"b\"}\n{\"id\":5}\n[1,2]\nnot json\n{\"id\":\"c\",\"updated_at\":\"late\",\"deleted\":1}",
    );
    assert_eq!(scan.entries.len(), 3);
    assert_eq!(scan.entries[0].id, "a");
    assert_eq!(scan.entries[0].updated_at, 7);
    assert!(scan.entries[0].deleted);
    assert_eq!(scan.entries[0].payload, "{\"deleted\":true,\"id\":\"a\",\"updated_at\":7}");
    assert_eq!(scan.entries[1].id, "b");
    assert_eq!(scan.entries[1].updated_at, 0);
    assert!(!scan.entries[1].deleted);
    assert_eq!(scan.entries[2].id, "c");
    assert_eq!(scan.entries[2].updated_at, 0);
    assert!(!scan.entries[2].deleted);
    assert_eq!(scan.anonymous, vec![5, 6]);
    assert_eq!(scan.malformed, vec![7]);
}

#[test]
fn a_timestamp_that_does_not_fit_counts_as_missing() {
    let scan = scan_log("{\"id\":\"a\",\"updated_at\":9223372036854775808}\n{\"id\":\"b\",\"updated_at\":1.5}\n{\"id\":\"c\",\"updated_at\":-3}");
    assert_eq!(scan.entries[0].updated_at, 0);
    assert_eq!(scan.entries[1].updated_at, 0);
    assert_eq!(scan.entries[2].updated_at, -3);
}

#[test]
fn a_strict_reading_fails_on_the_first_line_that_is_not_json() {
    assert_eq!(parse_jsonl("").unwrap().len(), 0);
    assert_eq!(parse_jsonl("\n \n").unwrap().len(), 0);
    let ok = parse_jsonl("{\"id\":\"a\"}\n{\"no\":\"id\"}\n").unwrap();
    assert_eq!(ok.len(), 1);
    let err = parse_jsonl("{\"id\":\"a\"}\n{bad\n{\"id\":\"b\"}\nworse\n").unwrap_err();
    assert_eq!(err, LogError::Malformed(2));
}

#[test]
fn a_record_with_a_line_feed_is_not_appended() {
    let mut log = String::from("{\"id\":\"a\"}\n");
    assert_eq!(append_jsonl(&mut log, "{\"id\":\n\"b\"}"), Err(LogError::NotOneLine));
    assert_eq!(log, "{\"id\":\"a\"}\n");
    assert_eq!(append_jsonl(&mut log, "{\"id\":\"b\"}"), Ok(()));
    assert_eq!(log, "{\"id\":\"a\"}\n{\"id\":\"b\"}\n");
}

#[test]
fn a_reading_without_an_id_is_no_entry() {
    let reading = JsonReading { text: "{}".to_string(), id: None, stamp: Some(5), flag: Some(true) };
    assert!(entry_of(reading).is_none());
    let reading = JsonReading {
        text: "{\"id\":\"a\"}".to_string(),
        id: Some("a".to_string()),
        stamp: None,
        flag: Some(false),
    };
    let e = entry_of(reading).unwrap();
    assert_eq!(e.id, "a");
    assert_eq!(e.updated_at, 0);
    assert!(!e.deleted);
    assert_eq!(e.payload, "{\"id\":\"a\"}");
}

#[test]
fn entries_reduce_to_the_latest_of_each_id() {
    let e = |id: &str, t: i64, p: &str| LogEntry {
        id: id.to_string(),
        updated_at: t,
        deleted: false,
        payload: p.to_string(),
    };
    let table = latest_entries(&vec![
        e("b", 1, "b1"),
        e("a", 9, "a9"),
        e("b", 3, "b3"),
        e("a", 2, "a2"),
        e("b", 3, "b3 again"),
    ]);
    assert_eq!(table.len(), 2);
    assert_eq!(table[0].payload, "a9");
    assert_eq!(table[1].payload, "b3");
}

#[test]
fn keys_reduce_to_the_positions_of_the_latest() {
    let key = |id: &str, updated_at: i64| RecordKey { id: id.to_string(), updated_at };
    let keys = vec![key("b", 1), key("a", 9), key("b", 3), key("a", 2), key("b", 3), key("", -1)];
    assert_eq!(latest_of(&keys), vec![5, 1, 2]);
    assert_eq!(latest_of(&vec![]), Vec::<usize>::new());
    assert_eq!(latest_of(&vec![key("x", i64::MIN), key("x", i64::MAX)]), vec![1]);
}

#[test]
fn every_entry_gives_its_key() {
    let entries = vec![
        LogEntry { id: "a".to_string(), updated_at: 4, deleted: true, payload: String::new() },
        LogEntry { id: "b".to_string(), updated_at: 5, deleted: false, payload: String::new() },
    ];
    assert_eq!(
        record_keys(&entries),
        vec![
            RecordKey { id: "a".to_string(), updated_at: 4 },
            RecordKey { id: "b".to_string(), updated_at: 5 }
        ]
    );
    assert_eq!(find_entry(&entries, &"b".to_string()), Some(1));
    assert_eq!(find_entry(&entries, &"c".to_string()), None);
}
