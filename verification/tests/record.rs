use watch_folder::record::{load_hashes, parse_hash_line, write_hashes, LoadError, RecordSource};
use watch_folder::table::HashTable;
use watch_folder::text::{parse_unsigned, split_lines, split_once};

fn pair(path: &str, hash: &str) -> Option<(String, String)> {
    Some((path.to_string(), hash.to_string()))
}

fn table(entries: &[(&str, &str)]) -> HashTable {
    let mut table = HashTable::new();
    for (path, hash) in entries {
        table.insert(path.to_string(), hash.to_string());
    }
    table
}

fn load(text: &str) -> HashTable {
    match load_hashes(RecordSource::Bytes(text.as_bytes().to_vec())) {
        Ok(Some(table)) => table,
        _ => panic!("the record is not loaded"),
    }
}

fn load_error(source: RecordSource) -> LoadError {
    match load_hashes(source) {
        Ok(_) => panic!("the record is loaded"),
        Err(e) => e,
    }
}

#[test]
fn parse_hash_line_supports_tab_and_legacy_formats() {
    assert_eq!(
        parse_hash_line("/tmp/a:b.txt\t012345"),
        Some(("/tmp/a:b.txt".to_string(), "012345".to_string()))
    );
    assert_eq!(
        parse_hash_line("/tmp/a:b.txt:012345"),
        Some(("/tmp/a".to_string(), "b.txt:012345".to_string()))
    );
    assert_eq!(parse_hash_line("invalid"), None);
    assert_eq!(parse_hash_line("\t012345"), None);
}

#[test]
fn line_without_path_before_the_tab_is_read_at_its_colon() {
    assert_eq!(parse_hash_line("a:b\t"), pair("a", "b\t"));
    assert_eq!(parse_hash_line("\ta:b"), pair("\ta", "b"));
    assert_eq!(parse_hash_line("a\tb\tc"), pair("a", "b\tc"));
    assert_eq!(parse_hash_line("a:"), None);
    assert_eq!(parse_hash_line(":b"), None);
    assert_eq!(parse_hash_line(""), None);
}

#[test]
fn written_line_is_read_back_with_colons_and_other_scripts_in_it() {
    assert_eq!(parse_hash_line("/資料/a:b 檔.txt\tab12"), pair("/資料/a:b 檔.txt", "ab12"));
    assert_eq!(parse_hash_line("/w/a\tb\n\r"), pair("/w/a", "b\n\r"));
}

#[test]
fn record_has_one_line_for_each_file_in_order() {
    let hashes = table(&[("/w/a", "01"), ("/w/b", "02")]);
    assert_eq!(write_hashes(&hashes), "/w/a\t01\n/w/b\t02\n");
    assert_eq!(write_hashes(&HashTable::new()), "");
}

#[test]
fn record_round_trip_keeps_the_table() {
    let hashes = table(&[("/w/a:1", "01"), ("/w/資料", "02"), ("/w/c\r", "03")]);
    assert!(load(&write_hashes(&hashes)).same_as(&hashes));
    assert!(load("").same_as(&HashTable::new()));
}

#[test]
fn record_round_trip_loses_what_a_line_cannot_hold() {
    for (path, hash) in [("/w/a\tb", "01"), ("/w/a\nb", "01"), ("/w/a", "01\r"), ("", "01")] {
        let hashes = table(&[(path, hash)]);
        assert!(!load(&write_hashes(&hashes)).same_as(&hashes));
    }
}

#[test]
fn unreadable_lines_are_passed_over() {
    let loaded = load("/w/a\t01\nnonsense\n\n/w/b:02\n");
    assert!(loaded.same_as(&table(&[("/w/a", "01"), ("/w/b", "02")])));
}

#[test]
fn later_line_for_a_file_counts() {
    let loaded = load("/w/a\t01\r\n/w/a\t02");
    assert!(loaded.same_as(&table(&[("/w/a", "02")])));
}

#[test]
fn missing_record_calls_for_a_scan() {
    assert!(matches!(load_hashes(RecordSource::Missing), Ok(None)));
}

#[test]
fn record_that_cannot_be_opened_is_an_error() {
    assert_eq!(load_error(RecordSource::Unopenable), LoadError::Open);
}

#[test]
fn record_that_cannot_be_read_is_an_error() {
    assert_eq!(load_error(RecordSource::Unreadable), LoadError::Read);
}

#[test]
fn record_that_is_not_text_is_an_error() {
    assert_eq!(load_error(RecordSource::Bytes(vec![b'a', b'\t', 0xff, b'\n'])), LoadError::Read);
}

#[test]
fn texts_are_split_at_the_first_character() {
    assert_eq!(split_once("a=b=c", '='), pair("a", "b=c"));
    assert_eq!(split_once("=", '='), pair("", ""));
    assert_eq!(split_once("ab", '='), None);
}

#[test]
fn lines_end_at_line_feeds_and_lose_a_carriage_return() {
    assert_eq!(split_lines("a\r\nb\n\nc"), vec!["a", "b", "", "c"]);
    assert_eq!(split_lines("a\n"), vec!["a"]);
    assert_eq!(split_lines("a\r\r\n"), vec!["a\r"]);
    assert_eq!(split_lines("a\n\r"), vec!["a", "\r"]);
    assert_eq!(split_lines(""), Vec::<String>::new());
}

#[test]
fn numbers_are_read_up_to_a_bound() {
    assert_eq!(parse_unsigned("0", 9), Some(0));
    assert_eq!(parse_unsigned("+12", 12), Some(12));
    assert_eq!(parse_unsigned("0013", 13), Some(13));
    assert_eq!(parse_unsigned("18446744073709551615", u64::MAX), Some(u64::MAX));
    assert_eq!(parse_unsigned("18446744073709551616", u64::MAX), None);
    assert_eq!(parse_unsigned("13", 12), None);
    for text in ["", "+", "-1", "1 ", "1a", "++1", "１"] {
        assert_eq!(parse_unsigned(text, u64::MAX), None);
    }
}

#[test]
fn table_keeps_one_hash_for_each_file() {
    let mut hashes = table(&[("/w/a", "01"), ("/w/b", "02"), ("/w/c", "03")]);
    hashes.insert("/w/b".to_string(), "04".to_string());
    assert_eq!(hashes.len(), 3);
    assert_eq!(hashes.get("/w/b"), Some(&"04".to_string()));
    assert_eq!(hashes.path_at(1), "/w/b");
    assert_eq!(hashes.hash_at(1), "04");
    assert_eq!(hashes.remove("/w/a"), Some("01".to_string()));
    assert_eq!(hashes.remove("/w/a"), None);
    assert_eq!(hashes.get("/w/a"), None);
    assert!(!hashes.contains_key("/w/a"));
    assert!(hashes.contains_key("/w/c"));
    assert_eq!(hashes.get("/w/c"), Some(&"03".to_string()));
    assert_eq!(hashes.len(), 2);
}

#[test]
fn tables_are_the_same_in_any_order() {
    let a = table(&[("/w/a", "01"), ("/w/b", "02")]);
    let b = table(&[("/w/b", "02"), ("/w/a", "01")]);
    assert!(a.same_as(&b));
    assert!(a.same_as(&a.clone()));
    assert!(!a.same_as(&table(&[("/w/a", "01")])));
    assert!(!table(&[("/w/a", "01")]).same_as(&a));
    assert!(!a.same_as(&table(&[("/w/a", "01"), ("/w/b", "03")])));
}
