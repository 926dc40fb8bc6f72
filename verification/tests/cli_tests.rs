use xmlifyme::chars::usize_to_string;
use xmlifyme::config::{input_dir_name, Config};
use xmlifyme::error::Error;
use xmlifyme::parser::{default_help_text, Args};

fn args_of(words: &[&str]) -> Vec<String> {
    words.iter().map(|w| String::from(*w)).collect()
}

#[test]
fn no_argument_is_empty() {
    assert_eq!(Args::new(args_of(&["prog"])), Args::Empty);
}

#[test]
fn mode_words_parse() {
    assert_eq!(Args::new(args_of(&["prog", "xml"])), Args::Xml);
    assert_eq!(Args::new(args_of(&["prog", "x"])), Args::Xml);
    assert_eq!(Args::new(args_of(&["prog", "plain"])), Args::Plain);
    assert_eq!(Args::new(args_of(&["prog", "p"])), Args::Plain);
    assert_eq!(Args::new(args_of(&["prog", "help"])), Args::Help);
    assert_eq!(Args::new(args_of(&["prog", "h"])), Args::Help);
}

#[test]
fn dashes_are_trimmed() {
    assert_eq!(Args::new(args_of(&["prog", "-xml"])), Args::Xml);
    assert_eq!(Args::new(args_of(&["prog", "--help"])), Args::Help);
    assert_eq!(Args::new(args_of(&["prog", "--plain"])), Args::Plain);
}

#[test]
fn matching_ignores_ascii_case() {
    assert_eq!(Args::new(args_of(&["prog", "XML"])), Args::Xml);
    assert_eq!(Args::new(args_of(&["prog", "XmL"])), Args::Xml);
    assert_eq!(Args::new(args_of(&["prog", "X"])), Args::Xml);
    assert_eq!(Args::new(args_of(&["prog", "Plain"])), Args::Plain);
    assert_eq!(Args::new(args_of(&["prog", "PLAIN"])), Args::Plain);
    assert_eq!(Args::new(args_of(&["prog", "HELP"])), Args::Help);
    assert_eq!(Args::new(args_of(&["prog", "--HELP"])), Args::Help);
    assert_eq!(Args::new(args_of(&["prog", "-Xml"])), Args::Xml);
}

#[test]
fn unrecognised_tokens_fall_back_to_empty() {
    assert_eq!(Args::new(args_of(&["prog", "bogus"])), Args::Empty);
    assert_eq!(Args::new(args_of(&["prog", "xmlx"])), Args::Empty);
    assert_eq!(Args::new(args_of(&["prog", "xx"])), Args::Empty);
}

#[test]
fn split_arguments_concatenate() {
    assert_eq!(Args::new(args_of(&["prog", "x", "ml"])), Args::Xml);
    assert_eq!(Args::new(args_of(&["prog", "-he", "-lp"])), Args::Help);
}

#[test]
fn help_text_names_the_modes() {
    let text = default_help_text();
    assert!(text.starts_with("\nUsage: xmlifyme"));
    assert!(text.contains("xml"));
    assert!(text.contains("plain"));
    assert!(text.contains("help"));
}

#[test]
fn config_holds_locations() {
    let c = Config::new(String::from("/opt/app"), String::from("/opt/app/data/input.json"));
    assert_eq!(c.cur_dir.as_str(), "/opt/app");
    assert_eq!(c.file_loc.as_str(), "/opt/app/data/input.json");
}

#[test]
fn input_dir_check_decides() {
    assert_eq!(Config::check_input_dir("data", true).unwrap(), "data");
    match Config::check_input_dir("data", false) {
        Err(Error::InputDir(p)) => assert_eq!(p.as_str(), "data"),
        other => panic!("expected an input directory error, got {:?}", other),
    }
}

#[test]
fn input_file_check_decides() {
    assert_eq!(Config::check_input_file("data/input.json", true).unwrap(), "data/input.json");
    match Config::check_input_file("data/input.json", false) {
        Err(Error::InputFile(p)) => assert_eq!(p.as_str(), "data/input.json"),
        other => panic!("expected an input file error, got {:?}", other),
    }
}

#[test]
fn resolve_decides_the_whole_run() {
    let ok = Config::resolve("base", true, true).unwrap();
    assert_eq!(ok.cur_dir.as_str(), "base");
    assert_eq!(ok.file_loc.as_str(), "base/data/input.json");
    match Config::resolve("base", false, false) {
        Err(Error::InputDir(p)) => assert_eq!(p.as_str(), "base/data"),
        other => panic!("expected an input directory error, got {:?}", other),
    }
    match Config::resolve("base", true, false) {
        Err(Error::InputFile(p)) => assert_eq!(p.as_str(), "base/data/input.json"),
        other => panic!("expected an input file error, got {:?}", other),
    }
}

#[test]
fn input_dir_is_named_data() {
    assert_eq!(input_dir_name(), "data");
}

#[test]
fn error_messages_name_their_kind() {
    assert_eq!(Error::Io(String::from("boom")).message(), "IO Error: boom");
    assert_eq!(Error::Parse(String::from("bad")).message(), "Parse Error: bad");
    assert_eq!(Error::InputDir(String::from("d")).message(), "Input Directory Error: d");
    assert_eq!(Error::InputFile(String::from("f")).message(), "Input File Error: f");
}

#[test]
fn decimal_rendering() {
    assert_eq!(usize_to_string(0), "0");
    assert_eq!(usize_to_string(7), "7");
    assert_eq!(usize_to_string(1234), "1234");
    assert_eq!(usize_to_string(1000000), "1000000");
}
