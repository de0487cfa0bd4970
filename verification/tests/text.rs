use taskstore::order::{insert_ascending, str_lt};
use taskstore::text::{decimal, split_lines, str_blank, truncate};
use taskstore::version::{
    ensure_schema, log_file_name, parse_version, SchemaAction, CURRENT_VERSION, GITIGNORE,
};
use taskstore::record::StoreError;

#[test]
fn test_gitignore_contents() {
    assert!(GITIGNORE.contains("taskstore.db"));
    assert!(GITIGNORE.contains("taskstore.log"));
}

#[test]
fn test_version_file_created() {
    let version = format!("{}\n", CURRENT_VERSION);
    assert_eq!(version.trim(), CURRENT_VERSION.to_string());
    assert_eq!(parse_version(&version), CURRENT_VERSION);
}

#[test]
fn a_version_file_holds_one_number() {
    assert_eq!(parse_version("1"), 1);
    assert_eq!(parse_version(" \t 42 \n"), 42);
    assert_eq!(parse_version("+7"), 7);
    assert_eq!(parse_version("007"), 7);
    assert_eq!(parse_version("4294967295"), 4294967295);
    assert_eq!(parse_version("4294967296"), 0);
    assert_eq!(parse_version("99999999999999999999999999"), 0);
    assert_eq!(parse_version(""), 0);
    assert_eq!(parse_version("   "), 0);
    assert_eq!(parse_version("+"), 0);
    assert_eq!(parse_version("-1"), 0);
    assert_eq!(parse_version("1 2"), 0);
    assert_eq!(parse_version("1.0"), 0);
    assert_eq!(parse_version("v1"), 0);
}

#[test]
fn opening_depends_on_the_version_found() {
    assert_eq!(ensure_schema(None), Ok(SchemaAction::Initialize));
    assert_eq!(ensure_schema(Some("junk")), Ok(SchemaAction::Initialize));
    assert_eq!(ensure_schema(Some("0")), Ok(SchemaAction::Initialize));
    assert_eq!(ensure_schema(Some("1\n")), Ok(SchemaAction::Keep));
    assert_eq!(ensure_schema(Some("2")), Err(StoreError::UnsupportedVersion));
}

#[test]
fn a_log_is_named_after_its_collection() {
    assert_eq!(log_file_name("plans"), "plans.jsonl");
}

#[test]
fn decimal_writes_every_integer() {
    assert_eq!(decimal(0), "0");
    assert_eq!(decimal(9), "9");
    assert_eq!(decimal(10), "10");
    assert_eq!(decimal(-10), "-10");
    assert_eq!(decimal(1234567890), "1234567890");
    assert_eq!(decimal(i64::MIN), "-9223372036854775808");
}

#[test]
fn lines_are_the_pieces_between_line_feeds() {
    assert_eq!(split_lines(""), vec![""]);
    assert_eq!(split_lines("a"), vec!["a"]);
    assert_eq!(split_lines("a\n"), vec!["a", ""]);
    assert_eq!(split_lines("a\n\nb\r\n c"), vec!["a", "", "b\r", " c"]);
}

#[test]
fn blank_is_nothing_but_white_space() {
    assert!(str_blank(""));
    assert!(str_blank(" \t\r\n\u{b}\u{c}\u{85}\u{a0}\u{1680}\u{2003}\u{2028}\u{2029}\u{202f}\u{205f}\u{3000}"));
    assert!(!str_blank(" x "));
    assert!(!str_blank("\u{200b}"));
}

#[test]
fn truncate_cuts_to_a_column() {
    assert_eq!(truncate("short", 20), "short");
    assert_eq!(truncate("exactly-twenty-chars", 20), "exactly-twenty-chars");
    assert_eq!(truncate("this is one character more", 20), "this is one chara...");
    assert_eq!(truncate("abcdef", 2), "...");
}

#[test]
fn ids_are_ordered_byte_by_byte() {
    assert!(str_lt("", "a"));
    assert!(!str_lt("a", ""));
    assert!(!str_lt("a", "a"));
    assert!(str_lt("a", "ab"));
    assert!(str_lt("B", "a"));
    assert!(str_lt("z", "\u{e9}"));
    assert!(str_lt("10", "9"));
}

#[test]
fn an_ascending_list_takes_each_id_once() {
    let mut ids: Vec<String> = Vec::new();
    for id in ["m", "a", "z", "m", "b", "a"] {
        insert_ascending(&mut ids, id.to_string());
    }
    assert_eq!(ids, vec!["a", "b", "m", "z"]);
}
