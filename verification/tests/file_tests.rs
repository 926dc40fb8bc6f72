use xmlifyme::error::Error;
use xmlifyme::file::{parse_records, strip_backslashes, JsonFile, ProcessEntry};

fn store_from(raw: &str) -> JsonFile {
    let store = JsonFile::new(String::from("input.json")).unwrap();
    store.set_content(raw).unwrap()
}

#[test]
fn new_store_is_empty() {
    let store = JsonFile::new(String::from("somewhere/input.json")).unwrap();
    assert_eq!(store.location.as_str(), "somewhere/input.json");
    assert_eq!(store.content.len(), 0);
}

#[test]
fn parse_single_record() {
    let store = store_from("[{\"name\":\"a/b\",\"processxml\":\"hello\"}]");
    assert_eq!(store.content.len(), 1);
    assert_eq!(store.content[0].name.as_str(), "a/b");
    assert_eq!(store.content[0].processxml.as_str(), "hello");
}

#[test]
fn parse_keeps_record_order() {
    let raw = "[ {\"name\": \"one\", \"processxml\": \"1\"} ,\n {\"name\": \"two\", \"processxml\": \"2\"} ]";
    let store = store_from(raw);
    assert_eq!(store.content.len(), 2);
    assert_eq!(store.content[0].name.as_str(), "one");
    assert_eq!(store.content[1].name.as_str(), "two");
}

#[test]
fn parse_accepts_swapped_members() {
    let store = store_from("[{\"processxml\":\"payload\",\"name\":\"n\"}]");
    assert_eq!(store.content[0].name.as_str(), "n");
    assert_eq!(store.content[0].processxml.as_str(), "payload");
}

#[test]
fn parse_resolves_escapes() {
    let store = store_from("[{\"name\":\"n\",\"processxml\":\"line1\\nline2 \\\"q\\\" \\u0041\"}]");
    assert_eq!(store.content[0].processxml.as_str(), "line1\nline2 \"q\" A");
}

#[test]
fn parse_skips_extra_members() {
    let store = store_from(
        "[{\"name\":\"n\",\"processxml\":\"x\",\"extra\":\"zzz\"}]",
    );
    assert_eq!(store.content[0].name.as_str(), "n");
    assert_eq!(store.content[0].processxml.as_str(), "x");
    let store = store_from(
        "[{\"comment\":\"first\",\"processxml\":\"p\",\"note\":\"mid\",\"name\":\"m\"}]",
    );
    assert_eq!(store.content[0].name.as_str(), "m");
    assert_eq!(store.content[0].processxml.as_str(), "p");
}

#[test]
fn parse_rejects_duplicate_members() {
    assert!(matches!(
        parse_records("[{\"name\":\"a\",\"name\":\"b\",\"processxml\":\"x\"}]"),
        Err(Error::Parse(_))
    ));
    assert!(matches!(
        parse_records("[{\"name\":\"a\",\"processxml\":\"x\",\"processxml\":\"y\"}]"),
        Err(Error::Parse(_))
    ));
}

#[test]
fn parse_resolves_surrogate_pairs() {
    let store = store_from("[{\"name\":\"n\",\"processxml\":\"\\ud83d\\ude00\"}]");
    assert_eq!(store.content[0].processxml.as_str(), "\u{1f600}");
}

#[test]
fn parse_rejects_malformed_input() {
    assert!(matches!(parse_records("not json"), Err(Error::Parse(_))));
    assert!(matches!(parse_records("{}"), Err(Error::Parse(_))));
    assert!(matches!(parse_records("[{\"name\":\"n\"}]"), Err(Error::Parse(_))));
    assert!(matches!(parse_records("[{\"extra\":\"e\"}]"), Err(Error::Parse(_))));
    assert!(matches!(parse_records("[{\"name\":\"n\",\"processxml\":1}]"), Err(Error::Parse(_))));
    assert!(matches!(parse_records("[] trailing"), Err(Error::Parse(_))));
    assert!(matches!(
        parse_records("[{\"name\":\"n\",\"processxml\":\"x\"},]"),
        Err(Error::Parse(_))
    ));
}

#[test]
fn process_entry_parse_single_object() {
    let entry = ProcessEntry::parse(" {\"name\":\"n\",\"processxml\":\"x\"} ").unwrap();
    assert_eq!(entry.name.as_str(), "n");
    assert_eq!(entry.processxml.as_str(), "x");
    assert!(matches!(ProcessEntry::parse("[]"), Err(Error::Parse(_))));
}

#[test]
fn strip_backslashes_removes_them() {
    assert_eq!(strip_backslashes("a\\b\\\\c"), "abc");
    assert_eq!(strip_backslashes("no slashes"), "no slashes");
    assert_eq!(strip_backslashes(""), "");
}

#[test]
fn with_extension_sanitizes() {
    assert_eq!(JsonFile::with_extension("a/b", ".xml"), "a_b.xml");
    assert_eq!(JsonFile::with_extension("plain", ".xml"), "plain.xml");
    assert_eq!(JsonFile::with_extension("a/b/c", ".xml"), "a_b_c.xml");
}

#[test]
fn with_extension_result_has_no_slash_but_is_not_idempotent() {
    let once = JsonFile::with_extension("a/b", ".xml");
    assert!(!once.contains('/'));
    let twice = JsonFile::with_extension(once.as_str(), ".xml");
    assert_eq!(twice, "a_b.xml.xml");
    assert_ne!(twice, once);
    assert!(!twice.contains('/'));
}

#[test]
fn plain_mode_single_record() {
    let store = store_from("[{\"name\":\"a/b\",\"processxml\":\"hello\"}]");
    let (files, stats) = store.write_as_plain("output", ".xml");
    assert_eq!(files.len(), 1);
    assert_eq!(files[0].filename.as_str(), "a_b.xml");
    assert_eq!(files[0].contents.as_str(), "\"hello\"");
    assert_eq!(stats.get_char_count(), 5);
    assert_eq!(stats.get_array_length(), 5);
    assert_eq!(stats.get_output_dir().as_str(), "output");
    assert_eq!(stats.get_output_filename(), "a_b.xml");
}

#[test]
fn empty_input_array_yields_nothing() {
    let store = store_from("[]");
    let (files, stats) = store.write_as_plain("output", ".xml");
    assert_eq!(files.len(), 0);
    assert_eq!(stats.get_char_count(), 0);
    assert_eq!(stats.get_array_length(), 0);
    assert_eq!(stats.get_output_dir().as_str(), "");
    assert_eq!(stats.get_output_filename(), "");
    let (xml_files, xml_stats) = store.write_as_xml("output", ".xml");
    assert_eq!(xml_files.len(), 0);
    assert_eq!(xml_stats.get_char_count(), 0);
    assert_eq!(xml_stats.get_array_length(), 0);
}

#[test]
fn xml_mode_single_record() {
    let store = store_from("[{\"name\":\"a/b\",\"processxml\":\"hello\"}]");
    let (files, stats) = store.write_as_xml("output", ".xml");
    assert_eq!(files.len(), 1);
    assert_eq!(files[0].filename.as_str(), "a_b.xml");
    assert_eq!(
        files[0].contents.as_str(),
        "<process_data>&quot;hello&quot;</process_data>"
    );
    assert_eq!(stats.get_char_count(), 5);
    assert_eq!(stats.get_array_length(), 5);
}

#[test]
fn totals_sum_over_all_records() {
    let raw = "[{\"name\":\"a\",\"processxml\":\"one\"},{\"name\":\"b\",\"processxml\":\"three\"},{\"name\":\"c\",\"processxml\":\"h\\u00e9\"}]";
    let store = store_from(raw);
    let (files, stats) = store.write_as_plain("out", ".xml");
    assert_eq!(files.len(), 3);
    // "one" has 3 chars/bytes, "three" has 5, "hé" has 2 chars and 3 bytes
    assert_eq!(stats.get_char_count(), 3 + 5 + 2);
    assert_eq!(stats.get_array_length(), 3 + 5 + 3);
    assert_eq!(stats.get_output_filename(), "c.xml");
}

#[test]
fn totals_do_not_depend_on_order() {
    let forward = store_from("[{\"name\":\"a\",\"processxml\":\"one\"},{\"name\":\"b\",\"processxml\":\"three\"}]");
    let backward = store_from("[{\"name\":\"b\",\"processxml\":\"three\"},{\"name\":\"a\",\"processxml\":\"one\"}]");
    let (_, s1) = forward.write_as_plain("out", ".xml");
    let (_, s2) = backward.write_as_plain("out", ".xml");
    assert_eq!(s1.get_char_count(), s2.get_char_count());
    assert_eq!(s1.get_array_length(), s2.get_array_length());
}

#[test]
fn plain_round_trip_through_serde_json() {
    let store = store_from("[{\"name\":\"n\",\"processxml\":\"payload with \\\"quotes\\\" and \\n breaks\"}]");
    let (files, _) = store.write_as_plain("out", ".xml");
    let read_back: String = serde_json::from_str(files[0].contents.as_str()).unwrap();
    assert_eq!(read_back, store.content[0].processxml);
}

#[test]
fn set_content_keeps_location() {
    let store = JsonFile::new(String::from("data/input.json")).unwrap();
    let loaded = store.set_content("[]").unwrap();
    assert_eq!(loaded.location.as_str(), "data/input.json");
}
