use xmlifyme::statistics::{Statistics, StatsOutput};

#[test]
fn new_starts_at_zero() {
    let s = Statistics::new();
    assert_eq!(s.get_char_count(), 0);
    assert_eq!(s.get_array_length(), 0);
    assert_eq!(s.get_output_dir().as_str(), "");
    assert_eq!(s.get_output_filename(), "");
}

#[test]
fn default_matches_new() {
    let s = Statistics::default();
    assert_eq!(s.get_char_count(), 0);
    assert_eq!(s.get_array_length(), 0);
}

#[test]
fn wrap_add_accumulates() {
    let mut s = Statistics::new();
    s.wrap_add(3, 7);
    s.wrap_add(2, 5);
    assert_eq!(s.get_char_count(), 5);
    assert_eq!(s.get_array_length(), 12);
}

#[test]
fn wrap_set_records_location() {
    let mut s = Statistics::new();
    s.wrap_set(String::from("out"), String::from("a.xml"));
    assert_eq!(s.get_output_dir().as_str(), "out");
    assert_eq!(s.get_output_filename(), "a.xml");
    assert_eq!(s.get_char_count(), 0);
}

#[test]
fn wrap_input_does_both() {
    let mut s = Statistics::new();
    s.wrap_input(4, 9, String::from("out"), String::from("b.xml"));
    s.wrap_input(1, 2, String::from("out2"), String::from("c.xml"));
    assert_eq!(s.get_char_count(), 5);
    assert_eq!(s.get_array_length(), 11);
    assert_eq!(s.get_output_dir().as_str(), "out2");
    assert_eq!(s.get_output_filename(), "c.xml");
}

#[test]
fn wrap_get_snapshots() {
    let mut s = Statistics::new();
    s.wrap_input(4, 9, String::from("out"), String::from("b.xml"));
    let snap: StatsOutput = s.wrap_get();
    assert_eq!(snap.get_char_count(), 4);
    assert_eq!(snap.get_array_length(), 9);
    assert_eq!(snap.output_dir.as_str(), "out");
    assert_eq!(snap.output_filename.as_str(), "b.xml");
}

#[test]
fn setters_and_getters() {
    let mut s = Statistics::new();
    s.add_char_count(10);
    s.add_array_length(20);
    s.set_output_dir(String::from("d"));
    s.set_output_filename(String::from("f"));
    assert_eq!(s.get_char_count(), 10);
    assert_eq!(s.get_array_length(), 20);
    assert_eq!(s.get_output_dir().as_str(), "d");
    assert_eq!(s.get_output_filename(), "f");
}

#[test]
fn statistics_message_text() {
    let mut s = Statistics::new();
    s.wrap_add(5, 7);
    assert_eq!(s.message(), "Statistics: char_count: 5, array_length: 7");
}

#[test]
fn stats_output_message_text() {
    let snap = StatsOutput::new(5, 7, String::from("out"), String::from("a.xml"));
    assert_eq!(
        snap.message(),
        "StatsOutput:\n char_count: 5,\n array_length: 7,\n output_dir: out,\n output_filename: a.xml\n"
    );
}

#[test]
fn message_renders_zero() {
    let s = Statistics::new();
    assert_eq!(s.message(), "Statistics: char_count: 0, array_length: 0");
}
