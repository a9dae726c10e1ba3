use lang_switcher::codec::{config_to_json, load_config, parse_config};
use lang_switcher::config::Config;

fn cfg(pairs: &[(&str, &str)]) -> Config {
    let mut c = Config(Vec::new());
    for (k, v) in pairs {
        c.insert(k, v);
    }
    c
}

fn entries(c: &Config) -> Vec<(String, String)> {
    c.0.iter().map(|e| (e.key.clone(), e.value.clone())).collect()
}

#[test]
fn prints_empty_document() {
    let c = Config(Vec::new());
    assert_eq!(config_to_json(&c), b"{}".to_vec());
}

#[test]
fn prints_members_in_order() {
    let c = cfg(&[("chrome.exe", "fa"), ("Code.exe", "en")]);
    let doc = config_to_json(&c);
    assert_eq!(
        String::from_utf8(doc).unwrap(),
        "{\"chrome.exe\":\"fa\",\"Code.exe\":\"en\"}"
    );
}

#[test]
fn escapes_quote_and_backslash() {
    let c = cfg(&[("a\"b\\c", "en")]);
    let doc = config_to_json(&c);
    assert_eq!(String::from_utf8(doc).unwrap(), "{\"a\\\"b\\\\c\":\"en\"}");
}

#[test]
fn escapes_control_bytes_as_hex() {
    let c = cfg(&[("a\nb", "en")]);
    let doc = config_to_json(&c);
    assert_eq!(String::from_utf8(doc).unwrap(), "{\"a\\u000ab\":\"en\"}");
}

#[test]
fn parses_what_it_prints() {
    let c = cfg(&[
        ("chrome.exe", "fa"),
        ("Code.exe", "en"),
        ("odd \"name\"\\path", "fa"),
        ("tab\there", "en"),
    ]);
    let doc = config_to_json(&c);
    let back = parse_config(&doc).expect("printed document must parse");
    assert_eq!(entries(&back), entries(&c));
}

#[test]
fn parses_empty_object() {
    let back = parse_config(&b"{}".to_vec()).unwrap();
    assert!(back.0.is_empty());
    let back = parse_config(&b"  { }  ".to_vec()).unwrap();
    assert!(back.0.is_empty());
}

#[test]
fn parses_with_whitespace_between_tokens() {
    let doc = b" {\n  \"chrome.exe\" : \"fa\" ,\r\n  \"Code.exe\" : \"en\"\n} ".to_vec();
    let back = parse_config(&doc).unwrap();
    assert_eq!(
        entries(&back),
        vec![
            ("chrome.exe".to_string(), "fa".to_string()),
            ("Code.exe".to_string(), "en".to_string())
        ]
    );
}

#[test]
fn parses_named_escapes() {
    let doc = b"{\"a\\nb\\tc\\\"d\\\\e\\/f\":\"en\"}".to_vec();
    let back = parse_config(&doc).unwrap();
    assert_eq!(back.0[0].key, "a\nb\tc\"d\\e/f");
}

#[test]
fn parses_unicode_escape_below_eighty() {
    let doc = b"{\"\\u0041\\u000a\":\"en\"}".to_vec();
    let back = parse_config(&doc).unwrap();
    assert_eq!(back.0[0].key, "A\n");
}

#[test]
fn rejects_unicode_escape_above_eighty() {
    let doc = b"{\"\\u00e9\":\"en\"}".to_vec();
    assert!(parse_config(&doc).is_none());
}

#[test]
fn later_duplicate_key_wins() {
    let doc = b"{\"a\":\"en\",\"a\":\"fa\"}".to_vec();
    let back = parse_config(&doc).unwrap();
    assert_eq!(entries(&back), vec![("a".to_string(), "fa".to_string())]);
}

#[test]
fn rejects_malformed_documents() {
    for bad in [
        &b"\n"[..],
        b"{",
        b"}",
        b"{\"a\"}",
        b"{\"a\":}",
        b"{\"a\":\"en\"",
        b"{\"a\":\"en\",}",
        b"{\"a\":\"en\"} trailing",
        b"[\"a\"]",
        b"{\"a\":1}",
        b"{\"a\":\"en\" \"b\":\"fa\"}",
        b"{\"a\\q\":\"en\"}",
        b"{\"a\x01b\":\"en\"}",
    ] {
        assert!(parse_config(&bad.to_vec()).is_none(), "accepted {:?}", bad);
    }
}

#[test]
fn rejects_invalid_utf8_strings() {
    // a raw 0xFF byte inside a key: scans as a string but is not UTF-8
    let mut doc = Vec::new();
    doc.extend_from_slice(b"{\"a");
    doc.push(0xFF);
    doc.extend_from_slice(b"\":\"en\"}");
    assert!(parse_config(&doc).is_none());
}

#[test]
fn keeps_non_ascii_text_raw() {
    let c = cfg(&[("éditeur.exe", "fa")]);
    let doc = config_to_json(&c);
    assert_eq!(String::from_utf8(doc.clone()).unwrap(), "{\"éditeur.exe\":\"fa\"}");
    let back = parse_config(&doc).unwrap();
    assert_eq!(back.0[0].key, "éditeur.exe");
}

#[test]
fn load_config_treats_missing_and_corrupt_as_empty() {
    assert!(load_config(None).0.is_empty());
    assert!(load_config(Some(&b"not json".to_vec())).0.is_empty());
    assert!(load_config(Some(&b"".to_vec())).0.is_empty());
    let loaded = load_config(Some(&b"{\"a\":\"fa\"}".to_vec()));
    assert_eq!(entries(&loaded), vec![("a".to_string(), "fa".to_string())]);
}

#[test]
fn save_then_load_round_trips_every_entry() {
    let c = cfg(&[
        ("chrome.exe", "fa"),
        ("WINWORD.EXE", "en"),
        ("weird\\\"one\n", "fa"),
    ]);
    let doc = config_to_json(&c);
    let back = load_config(Some(&doc));
    assert_eq!(entries(&back), entries(&c));
}

#[test]
fn parses_pretty_printed_documents() {
    let doc = b"{\n  \"chrome.exe\": \"fa\",\n  \"Code.exe\": \"en\"\n}".to_vec();
    let back = parse_config(&doc).unwrap();
    assert_eq!(
        entries(&back),
        vec![
            ("chrome.exe".to_string(), "fa".to_string()),
            ("Code.exe".to_string(), "en".to_string())
        ]
    );
}

#[test]
fn print_then_parse_is_identity() {
    let c = cfg(&[("chrome.exe", "fa"), ("Code.exe", "en")]);
    let back = lang_switcher::codec::print_then_parse(&c);
    assert_eq!(entries(&back), entries(&c));
}
