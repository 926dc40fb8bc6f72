use quick_xml::events::Event;
use quick_xml::reader::Reader;
use xmlifyme::json::{json_decode_string, json_encode_string};
use xmlifyme::xml::{xml_document, xml_extract_text};

fn sample_strings() -> Vec<String> {
    vec![
        String::from(""),
        String::from("hello"),
        String::from("a\"b\\c"),
        String::from("\u{1}\u{8}\u{9}\n\u{c}\r\u{1f}"),
        String::from("h\u{e9}llo \u{2192} world"),
        String::from("tag soup: <a href='x'>&amp;</a>"),
        String::from("emoji \u{1f600} beyond the basic plane"),
        String::from("/slashes/and\\back\\slashes/"),
    ]
}

#[test]
fn encode_matches_serde_json() {
    for s in sample_strings() {
        let ours = json_encode_string(s.as_str());
        let theirs = serde_json::to_string(&s).unwrap();
        assert_eq!(ours, theirs);
    }
}

#[test]
fn encode_simple_string() {
    assert_eq!(json_encode_string("hello"), "\"hello\"");
}

#[test]
fn encode_escapes_quotes_and_backslashes() {
    assert_eq!(json_encode_string("a\"b\\c"), "\"a\\\"b\\\\c\"");
}

#[test]
fn encode_escapes_control_characters() {
    assert_eq!(
        json_encode_string("\u{8}\u{9}\n\u{c}\r\u{1}\u{1f}"),
        "\"\\b\\t\\n\\f\\r\\u0001\\u001f\""
    );
}

#[test]
fn decode_inverts_encode() {
    for s in sample_strings() {
        let encoded = json_encode_string(s.as_str());
        let decoded = json_decode_string(encoded.as_str());
        assert_eq!(decoded, Some(s));
    }
}

#[test]
fn serde_json_reads_our_encoding() {
    for s in sample_strings() {
        let encoded = json_encode_string(s.as_str());
        let read_back: String = serde_json::from_str(encoded.as_str()).unwrap();
        assert_eq!(read_back, s);
    }
}

#[test]
fn decode_accepts_liberal_escapes() {
    assert_eq!(json_decode_string("\"a\\/b\""), Some(String::from("a/b")));
    assert_eq!(json_decode_string("\"\\u0041\""), Some(String::from("A")));
    assert_eq!(json_decode_string("\"\\u00E9\""), Some(String::from("\u{e9}")));
    assert_eq!(json_decode_string("\"\\u2713\""), Some(String::from("\u{2713}")));
}

#[test]
fn decode_resolves_surrogate_pairs() {
    assert_eq!(
        json_decode_string("\"\\ud83d\\ude00\""),
        Some(String::from("\u{1f600}"))
    );
    let from_serde: String = serde_json::from_str("\"\\ud83d\\ude00\"").unwrap();
    assert_eq!(from_serde, "\u{1f600}");
    assert_eq!(
        json_decode_string("\"a\\uD834\\uDD1Eb\""),
        Some(String::from("a\u{1d11e}b"))
    );
}

#[test]
fn decode_rejects_malformed_literals() {
    assert_eq!(json_decode_string(""), None);
    assert_eq!(json_decode_string("\""), None);
    assert_eq!(json_decode_string("hello"), None);
    assert_eq!(json_decode_string("\"unterminated"), None);
    assert_eq!(json_decode_string("\"stray\\\""), None);
    assert_eq!(json_decode_string("\"bad\\q\""), None);
    assert_eq!(json_decode_string("\"short\\u00\""), None);
    assert_eq!(json_decode_string("\"surrogate\\ud800\""), None);
    assert_eq!(json_decode_string("\"\\ud83d\\u0041\""), None);
    assert_eq!(json_decode_string("\"\\ude00\\ud83d\""), None);
    assert_eq!(json_decode_string("\"raw\u{1}control\""), None);
    assert_eq!(json_decode_string("\"inner\"quote\""), None);
}

#[test]
fn xml_document_wraps_payload() {
    assert_eq!(
        xml_document("\"hello\""),
        "<process_data>&quot;hello&quot;</process_data>"
    );
}

#[test]
fn xml_document_escapes_specials() {
    assert_eq!(
        xml_document("a<b>&c'd\"e"),
        "<process_data>a&lt;b&gt;&amp;c&apos;d&quot;e</process_data>"
    );
}

#[test]
fn xml_extract_inverts_document() {
    let payloads = vec![
        String::from(""),
        String::from("\"hello\""),
        String::from("a<b>&c'd\"e"),
        String::from("plain text"),
    ];
    for p in payloads {
        let doc = xml_document(p.as_str());
        assert_eq!(xml_extract_text(doc.as_str()), Some(p));
    }
}

#[test]
fn xml_extract_rejects_other_shapes() {
    assert_eq!(xml_extract_text(""), None);
    assert_eq!(xml_extract_text("<other>x</other>"), None);
    assert_eq!(xml_extract_text("<process_data>unclosed"), None);
    assert_eq!(xml_extract_text("<process_data>raw<</process_data>"), None);
}

fn parse_with_quick_xml(doc: &str) -> String {
    let mut reader = Reader::from_str(doc);
    let mut text = String::new();
    let mut depth = 0i32;
    loop {
        match reader.read_event().unwrap() {
            Event::Start(e) => {
                assert_eq!(e.name().as_ref(), "process_data");
                depth += 1;
            }
            Event::End(e) => {
                assert_eq!(e.name().as_ref(), "process_data");
                depth -= 1;
            }
            Event::Text(e) => {
                text.push_str(&e.xml10_content());
            }
            Event::GeneralRef(e) => {
                let name: &str = &e;
                match name {
                    "amp" => text.push('&'),
                    "lt" => text.push('<'),
                    "gt" => text.push('>'),
                    "quot" => text.push('"'),
                    "apos" => text.push('\''),
                    other => panic!("unexpected entity {}", other),
                }
            }
            Event::Eof => break,
            other => panic!("unexpected event {:?}", other),
        }
    }
    assert_eq!(depth, 0);
    text
}

#[test]
fn xml_mode_output_is_well_formed() {
    for s in sample_strings() {
        let doc = xml_document(json_encode_string(s.as_str()).as_str());
        let text = parse_with_quick_xml(doc.as_str());
        let decoded: String = serde_json::from_str(text.as_str()).unwrap();
        assert_eq!(decoded, s);
    }
}
