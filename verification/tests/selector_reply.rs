use tabctl::selector::{interpret_query_reply, SelectorError};

#[test]
fn good_reply_parses_as_hex() {
    let r = interpret_query_reply(b"focused", b"0x00a0000b\n", b"");
    assert_eq!(r, Ok(0x00a0_000b));
}

#[test]
fn rejection_strips_known_prefix_and_whitespace() {
    let r = interpret_query_reply(b"@foo", b"", b"query -n: invalid selector\n");
    assert_eq!(r, Err(SelectorError::Rejected(b"invalid selector".to_vec())));
}

#[test]
fn rejection_without_prefix_is_kept_whole() {
    let r = interpret_query_reply(b"@foo", b"", b"some other failure\n");
    assert_eq!(r, Err(SelectorError::Rejected(b"some other failure".to_vec())));
}

#[test]
fn empty_reply_matches_no_node() {
    let r = interpret_query_reply(b"focused", b"", b"");
    assert_eq!(r, Err(SelectorError::NoMatch(b"focused".to_vec())));
}

#[test]
fn diagnostic_wins_over_reply() {
    // any diagnostic output is a rejection even if a reply came too
    let r = interpret_query_reply(b"t", b"0x1\n", b"query -n: nope");
    assert_eq!(r, Err(SelectorError::Rejected(b"nope".to_vec())));
}

#[test]
fn reply_without_hex_prefix_is_bad() {
    let r = interpret_query_reply(b"t", b"12345\n", b"");
    assert_eq!(r, Err(SelectorError::BadReply(b"12345\n".to_vec())));
}

#[test]
fn reply_with_bad_digits_is_bad() {
    let r = interpret_query_reply(b"t", b"0xnope\n", b"");
    assert_eq!(r, Err(SelectorError::BadReply(b"0xnope\n".to_vec())));
}

#[test]
fn reply_overflowing_a_window_id_is_bad() {
    let r = interpret_query_reply(b"t", b"0x100000000\n", b"");
    assert_eq!(r, Err(SelectorError::BadReply(b"0x100000000\n".to_vec())));
}
