use saphyr_parser_bw::yaml::Yaml;

fn single(source: &str) -> Yaml {
    let mut docs = Yaml::load_from_str(source).unwrap();
    assert_eq!(docs.len(), 1);
    docs.pop().unwrap()
}

#[test]
fn empty_text_holds_no_document() {
    assert!(Yaml::load_from_str("").unwrap().is_empty());
    assert!(Yaml::load_from_str("\n  \n\n").unwrap().is_empty());
}

#[test]
fn entries_are_read_in_order() {
    let doc = single("name: \"saphyr\"\n\nversion: \"0.0.6\"  \n   \nkind-of.thing_1: \"\"");
    assert_eq!(doc.get("name"), Some("saphyr"));
    assert_eq!(doc.get("version"), Some("0.0.6"));
    assert_eq!(doc.get("kind-of.thing_1"), Some(""));
    assert_eq!(doc.get("missing"), None);
}

#[test]
fn repeated_key_gives_last_value() {
    let doc = single("a: \"1\"\na: \"2\"\n");
    assert_eq!(doc.get("a"), Some("2"));
}

#[test]
fn single_character_escapes_are_decoded() {
    let doc = single("a: \"\\0\\a\\b\\t\\n\\v\\f\\r\\e\\ \\\"\\/\\\\\\N\\_\\L\\P\"");
    assert_eq!(
        doc.get("a"),
        Some("\0\u{7}\u{8}\t\n\u{B}\u{C}\r\u{1B} \"/\\\u{85}\u{A0}\u{2028}\u{2029}")
    );
    let tab = single("a: \"x\\\ty\"");
    assert_eq!(tab.get("a"), Some("x\ty"));
}

#[test]
fn hexadecimal_escapes_are_decoded() {
    let doc = single("a: \"\\x41\\x7e\\u00e9\\u4F60\\U0001F600\"");
    assert_eq!(doc.get("a"), Some("A~\u{e9}\u{4F60}\u{1F600}"));
}

#[test]
fn bad_escapes_are_refused() {
    assert!(Yaml::load_from_str("a: \"\\q\"").is_err());
    assert!(Yaml::load_from_str("a: \"\\x4\"").is_err());
    assert!(Yaml::load_from_str("a: \"\\xZZ\"").is_err());
    assert!(Yaml::load_from_str("a: \"\\U00110000\"").is_err());
    assert!(Yaml::load_from_str("a: \"\\U0000D800\"").is_err());
    assert!(Yaml::load_from_str("a: \"\\uD834x\"").is_err());
    assert!(Yaml::load_from_str("a: \"\\uD834\\u0041\"").is_err());
    assert!(Yaml::load_from_str("a: \"\\").is_err());
}

#[test]
fn malformed_lines_are_refused() {
    assert!(Yaml::load_from_str("a: \"unclosed").is_err());
    assert!(Yaml::load_from_str("a: \"broken\nline\"").is_err());
    assert!(Yaml::load_from_str("  a: \"indented\"").is_err());
    assert!(Yaml::load_from_str("a:\"no space\"").is_err());
    assert!(Yaml::load_from_str("a: plain").is_err());
    assert!(Yaml::load_from_str(": \"no key\"").is_err());
    assert!(Yaml::load_from_str("a: \"x\" trailing").is_err());
    assert!(Yaml::load_from_str("a b: \"x\"").is_err());
    assert!(Yaml::load_from_str("a: \"x\"\r\n").is_err());
}

#[test]
fn refusal_points_at_the_offending_line() {
    let err = Yaml::load_from_str("a: \"x\"\n\n  b: \"y\"").unwrap_err();
    assert_eq!(err.marker().index, 8);
    assert_eq!(err.marker().line, 3);
    assert_eq!(err.marker().col, 0);
    assert_eq!(err.info(), "expected an entry of the form key: \"value\"");

    let err = Yaml::load_from_str("a: \"\\uD834\"\n").unwrap_err();
    assert_eq!(*err.marker(), saphyr_parser_bw::scanner::Marker::new(0, 1, 0));
}
