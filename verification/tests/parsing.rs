use tabctl::classify::is_tabbed_class;
use tabctl::parse::{parse_hex_output, parse_node_add_event, parse_wid, split_ws, EventError, OutputError};
use tabctl::render::{first_ancestor_selector, wid_dec, wid_hex_upper};

#[test]
fn hex_token_resolves_locally() {
    // a numeric selector never needs the external manager query
    assert_eq!(parse_wid(b"0x1a2"), Some(0x1a2));
}

#[test]
fn decimal_token_resolves_locally() {
    assert_eq!(parse_wid(b"418"), Some(418));
    assert_eq!(parse_wid(b"0"), Some(0));
}

#[test]
fn upper_hex_prefix_and_digits() {
    assert_eq!(parse_wid(b"0X1A2"), Some(0x1a2));
    assert_eq!(parse_wid(b"0xDeadBeef"), Some(0xdead_beef));
}

#[test]
fn non_numeric_token_is_not_local() {
    // such a token must go to the external manager query
    assert_eq!(parse_wid(b"focused"), None);
    assert_eq!(parse_wid(b""), None);
    assert_eq!(parse_wid(b"0x"), None);
    assert_eq!(parse_wid(b"12 "), None);
    assert_eq!(parse_wid(b"-3"), None);
}

#[test]
fn overflowing_token_is_rejected() {
    assert_eq!(parse_wid(b"0xffffffff"), Some(0xffff_ffff));
    assert_eq!(parse_wid(b"0x100000000"), None);
    assert_eq!(parse_wid(b"4294967295"), Some(4_294_967_295));
    assert_eq!(parse_wid(b"4294967296"), None);
}

#[test]
fn spawner_output_parses() {
    assert_eq!(parse_hex_output(b"0x1a2b\n"), Ok(0x1a2b));
    assert_eq!(parse_hex_output(b"0x00400005"), Ok(0x0040_0005));
}

#[test]
fn spawner_output_without_prefix() {
    assert_eq!(parse_hex_output(b"1a2b\n"), Err(OutputError::MissingHexPrefix));
    assert_eq!(parse_hex_output(b""), Err(OutputError::MissingHexPrefix));
}

#[test]
fn spawner_output_with_bad_digits() {
    assert_eq!(parse_hex_output(b"0xzz\n"), Err(OutputError::BadHexDigits));
    assert_eq!(parse_hex_output(b"0x\n"), Err(OutputError::BadHexDigits));
}

#[test]
fn event_line_yields_fifth_field() {
    let line = b"node_add 0x00200002 0x0 0x00200002 0x04000003\n";
    assert_eq!(parse_node_add_event(line), Ok(0x0400_0003));
}

#[test]
fn event_line_with_too_few_fields() {
    assert_eq!(
        parse_node_add_event(b"node_add 0x1 0x2\n"),
        Err(EventError::WrongFieldCount)
    );
    assert_eq!(parse_node_add_event(b""), Err(EventError::WrongFieldCount));
}

#[test]
fn event_line_without_prefix() {
    assert_eq!(
        parse_node_add_event(b"node_add 0x1 0x2 0x3 4000003\n"),
        Err(EventError::MissingHexPrefix)
    );
}

#[test]
fn event_line_with_bad_digits() {
    assert_eq!(
        parse_node_add_event(b"node_add 0x1 0x2 0x3 0xgg\n"),
        Err(EventError::BadHexDigits)
    );
}

#[test]
fn split_ws_separates_fields() {
    let toks = split_ws(b"  a bb\tccc\n");
    let toks: Vec<&[u8]> = toks.iter().map(|t| t.as_slice()).collect();
    assert_eq!(toks, vec![b"a" as &[u8], b"bb", b"ccc"]);
}

#[test]
fn classifier_accepts_only_the_sentinel() {
    assert!(is_tabbed_class(b"tabbed\0tabbed\0"));
    assert!(!is_tabbed_class(b"tabbed\0tabbed"));
    assert!(!is_tabbed_class(b"xterm\0XTerm\0"));
    assert!(!is_tabbed_class(b""));
    assert!(!is_tabbed_class(b"tabbed\0tabbed\0\0"));
}

#[test]
fn renders_decimal_and_hex() {
    assert_eq!(wid_dec(4066), b"4066".to_vec());
    assert_eq!(wid_dec(0), b"0".to_vec());
    assert_eq!(wid_hex_upper(0x1a2), b"0x1A2".to_vec());
    assert_eq!(wid_hex_upper(0), b"0x0".to_vec());
}

#[test]
fn render_then_parse_round_trips() {
    for w in [0u32, 7, 10, 16, 255, 4066, 0x0040_0005, u32::MAX] {
        assert_eq!(parse_wid(&wid_dec(w)), Some(w));
        assert_eq!(parse_wid(&wid_hex_upper(w)), Some(w));
    }
}

#[test]
fn ancestor_selector_shape() {
    assert_eq!(first_ancestor_selector(7), b"7#first_ancestor".to_vec());
    assert_eq!(first_ancestor_selector(4066), b"4066#first_ancestor".to_vec());
}
