use taskstore::jsonl::LogEntry;
use taskstore::merge::{
    decide, exit_code, is_same, merge_entries, merge_jsonl_files, render, same_payload, Conflict,
    Decision, MergeError, Side,
};

#[test]
fn test_merge_no_conflict() {
    let ancestor = "{\"id\":\"1\",\"title\":\"Original\",\"updated_at\":1000}\n";
    let ours = "{\"id\":\"1\",\"title\":\"Updated by us\",\"updated_at\":2000}\n";
    let theirs = "{\"id\":\"1\",\"title\":\"Original\",\"updated_at\":1000}\n";

    let result = merge_jsonl_files(ancestor, ours, theirs).unwrap();

    assert!(!result.has_conflicts);
    assert!(result.content.contains("Updated by us"));
}

#[test]
fn test_merge_both_modified_newer_wins() {
    let ancestor = "{\"id\":\"1\",\"title\":\"Original\",\"updated_at\":1000}\n";
    let ours = "{\"id\":\"1\",\"title\":\"Updated by us\",\"updated_at\":2000}\n";
    let theirs = "{\"id\":\"1\",\"title\":\"Updated by them\",\"updated_at\":3000}\n";

    let result = merge_jsonl_files(ancestor, ours, theirs).unwrap();

    assert!(!result.has_conflicts);
    assert!(result.content.contains("Updated by them"));
}

#[test]
fn test_merge_same_timestamp_conflict() {
    let ancestor = "{\"id\":\"1\",\"title\":\"Original\",\"updated_at\":1000}\n";
    let ours = "{\"id\":\"1\",\"title\":\"Updated by us\",\"updated_at\":2000}\n";
    let theirs = "{\"id\":\"1\",\"title\":\"Updated by them\",\"updated_at\":2000}\n";

    let result = merge_jsonl_files(ancestor, ours, theirs).unwrap();

    assert!(result.has_conflicts);
    assert!(result.content.contains("<<<<<<< OURS"));
    assert!(result.content.contains(">>>>>>> THEIRS"));
}

#[test]
fn test_merge_added_in_both() {
    let ancestor = "";
    let ours = "{\"id\":\"1\",\"title\":\"Added by us\",\"updated_at\":1000}\n";
    let theirs = "{\"id\":\"1\",\"title\":\"Added by them\",\"updated_at\":2000}\n";

    let result = merge_jsonl_files(ancestor, ours, theirs).unwrap();

    assert!(!result.has_conflicts);
    assert!(result.content.contains("Added by them"));
}

#[test]
fn merge_conflict_text_is_exact() {
    let ours = "{\"id\":\"b\",\"v\":1,\"updated_at\":5}\n{\"id\":\"a\",\"v\":2,\"updated_at\":7}\n";
    let theirs = "{\"id\":\"b\",\"v\":3,\"updated_at\":5}\n";
    let result = merge_jsonl_files("", ours, theirs).unwrap();
    assert!(result.has_conflicts);
    assert_eq!(
        result.content,
        "{\"id\":\"a\",\"updated_at\":7,\"v\":2}\n<<<<<<< OURS (b)\n{\"id\":\"b\",\"updated_at\":5,\"v\":1}\n=======\n{\"id\":\"b\",\"updated_at\":5,\"v\":3}\n>>>>>>> THEIRS\n"
    );
    assert_eq!(exit_code(&Ok(result)), 1);
}

#[test]
fn merge_rejects_a_line_that_is_not_json() {
    let ours = "{\"id\":\"a\",\"updated_at\":1}\n\n{oops}\n";
    let r = merge_jsonl_files("", ours, "");
    assert_eq!(r.as_ref().err(), Some(&MergeError { side: Side::Ours, line: 3 }));
    assert_eq!(exit_code(&r), 2);
}

#[test]
fn merge_keeps_what_one_side_added_and_drops_what_one_side_deleted() {
    let ancestor = "{\"id\":\"kept\",\"updated_at\":1}\n{\"id\":\"gone-ours\",\"updated_at\":1}\n{\"id\":\"gone-theirs\",\"updated_at\":1}\n";
    let ours = "{\"id\":\"kept\",\"updated_at\":1}\n{\"id\":\"gone-theirs\",\"updated_at\":9}\n{\"id\":\"new-ours\",\"updated_at\":2}\n";
    let theirs = "{\"id\":\"new-theirs\",\"updated_at\":3}\n{\"id\":\"kept\",\"updated_at\":1}\n{\"id\":\"gone-ours\",\"updated_at\":1}\n";
    let result = merge_jsonl_files(ancestor, ours, theirs).unwrap();
    assert!(!result.has_conflicts);
    assert_eq!(
        result.content,
        "{\"id\":\"kept\",\"updated_at\":1}\n{\"id\":\"new-ours\",\"updated_at\":2}\n{\"id\":\"new-theirs\",\"updated_at\":3}\n"
    );
    assert_eq!(exit_code(&Ok(result)), 0);
}

#[test]
fn merge_takes_equal_values_for_equal_however_they_are_written() {
    let ours = "{\"id\":\"1\",\"a\":[1,2],\"updated_at\":5}\n";
    let theirs = "{ \"updated_at\": 5, \"a\": [1, 2], \"id\": \"1\" }\n";
    let result = merge_jsonl_files("", ours, theirs).unwrap();
    assert!(!result.has_conflicts);
    assert_eq!(result.content, "{\"a\":[1,2],\"id\":\"1\",\"updated_at\":5}\n");
}

#[test]
fn merge_reduces_each_side_before_it_compares() {
    let ours = "{\"id\":\"1\",\"v\":1,\"updated_at\":1}\n{\"id\":\"1\",\"v\":2,\"updated_at\":8}\n";
    let theirs = "{\"id\":\"1\",\"v\":3,\"updated_at\":9}\n{\"id\":\"1\",\"v\":4,\"updated_at\":2}\n";
    let result = merge_jsonl_files("", ours, theirs).unwrap();
    assert!(!result.has_conflicts);
    assert_eq!(result.content, "{\"id\":\"1\",\"updated_at\":9,\"v\":3}\n");
}

#[test]
fn merge_names_the_side_that_cannot_be_read() {
    let good = "{\"id\":\"a\"}\n";
    assert_eq!(
        merge_jsonl_files("x", "y", "z").err(),
        Some(MergeError { side: Side::Ancestor, line: 1 })
    );
    assert_eq!(
        merge_jsonl_files(good, good, "\n\n{").err(),
        Some(MergeError { side: Side::Theirs, line: 3 })
    );
    assert!(merge_jsonl_files("", "", "").unwrap().content.is_empty());
}

fn entry(id: &str, updated_at: i64, payload: &str) -> LogEntry {
    LogEntry {
        id: id.to_string(),
        updated_at,
        deleted: false,
        payload: payload.to_string(),
    }
}

#[test]
fn one_id_is_judged_by_where_it_is_present() {
    let a = entry("x", 1, "{\"v\":\"A\"}");
    let o = entry("x", 2, "{\"v\":\"B\"}");
    let t = entry("x", 3, "{\"v\":\"C\"}");
    let t2 = entry("x", 2, "{\"v\":\"C\"}");
    // on one side only
    assert_eq!(decide(None, Some(&o), None, false), Decision::Keep(o.clone()));
    assert_eq!(decide(None, None, Some(&t), false), Decision::Keep(t.clone()));
    // deleted on the other side
    assert_eq!(decide(Some(&a), Some(&o), None, false), Decision::Omit);
    assert_eq!(decide(Some(&a), None, Some(&t), false), Decision::Omit);
    // on both sides
    assert_eq!(decide(Some(&a), Some(&o), Some(&t), false), Decision::Keep(t.clone()));
    assert_eq!(decide(None, Some(&t), Some(&o), false), Decision::Keep(t.clone()));
    assert_eq!(decide(Some(&a), Some(&o), Some(&t), true), Decision::Keep(o.clone()));
    assert_eq!(decide(None, Some(&o), Some(&t2), false), Decision::Conflict(o.clone(), t2.clone()));
    assert_eq!(decide(None, Some(&o), Some(&t2), true), Decision::Keep(o.clone()));
    // on neither side
    assert_eq!(decide(Some(&a), None, None, false), Decision::Omit);
    assert_eq!(decide(None, None, None, true), Decision::Omit);
}

#[test]
fn entries_merge_into_kept_rows_and_conflicts() {
    let base = vec![entry("b", 1, "{\"id\":\"b\"}")];
    let ours = vec![
        entry("c", 5, "{\"id\":\"c\",\"n\":1}"),
        entry("b", 1, "{\"id\":\"b\"}"),
        entry("a", 5, "{\"id\":\"a\",\"n\":1}"),
    ];
    let theirs = vec![
        entry("a", 5, "{\"id\":\"a\",\"n\":2}"),
        entry("c", 5, "{\"n\":1,\"id\":\"c\"}"),
        entry("d", 0, "{\"id\":\"d\"}"),
    ];
    let out = merge_entries(&base, &ours, &theirs);
    assert_eq!(out.merged, vec![ours[0].clone(), theirs[2].clone()]);
    assert_eq!(
        out.conflicts,
        vec![Conflict { id: "a".to_string(), ours: ours[2].clone(), theirs: theirs[0].clone() }]
    );
    assert_eq!(
        render(&out),
        "{\"id\":\"c\",\"n\":1}\n{\"id\":\"d\"}\n<<<<<<< OURS (a)\n{\"id\":\"a\",\"n\":1}\n=======\n{\"id\":\"a\",\"n\":2}\n>>>>>>> THEIRS\n"
    );
}

#[test]
fn payloads_are_equal_by_what_they_say() {
    assert!(same_payload("{\"a\":1,\"b\":[true,null]}", " { \"b\" : [ true , null ], \"a\" : 1 } "));
    assert!(same_payload("\"x\"", "\"\\u0078\""));
    assert!(!same_payload("{\"a\":1}", "{\"a\":2}"));
    assert!(!same_payload("{\"a\":1}", "{\"a\":1.0}"));
    assert!(!same_payload("{\"a\":1}", "{\"a\":1,\"b\":null}"));
    assert!(!same_payload("[1,2]", "[2,1]"));
    // what is no JSON equals nothing, not even itself
    assert!(!same_payload("{oops", "{oops"));
    assert!(!same_payload("{}", ""));
    assert!(is_same(Some(true)));
    assert!(!is_same(Some(false)));
    assert!(!is_same(None));
}
