use sse_feed::decoder::{char_is_ws, decode_block, decode_chunk, trim_str, Event};

#[test]
fn id_and_data_block() {
    let e = decode_block("id: 7\ndata: hello");
    assert_eq!(e.id, Some("7".to_string()));
    assert_eq!(e.data, "hello");
}

#[test]
fn data_is_trimmed() {
    let e = decode_block("data:   world  ");
    assert_eq!(e.id, None);
    assert_eq!(e.data, "world");
}

#[test]
fn id_is_not_trimmed() {
    let e = decode_block("id:  7 ");
    assert_eq!(e.id, Some(" 7 ".to_string()));
    assert_eq!(e.data, "");
}

#[test]
fn data_without_separator_is_empty() {
    let e = decode_block("data: filled\ndata");
    assert_eq!(e.id, None);
    assert_eq!(e.data, "");
}

#[test]
fn bare_id_line_clears_id() {
    let e = decode_block("id: 3\nid");
    assert_eq!(e.id, None);
}

#[test]
fn other_fields_are_ignored() {
    let e = decode_block("event: change\nretry: 3000\n: comment");
    assert_eq!(e.id, None);
    assert_eq!(e.data, "");
}

#[test]
fn last_data_line_wins() {
    let e = decode_block("data: first\ndata: second");
    assert_eq!(e.data, "second");
}

#[test]
fn last_id_line_wins() {
    let e = decode_block("id: 1\nid: 2\ndata: x");
    assert_eq!(e.id, Some("2".to_string()));
}

#[test]
fn crlf_line_endings() {
    let e = decode_block("id: 1\r\ndata: x\r\n");
    assert_eq!(e.id, Some("1".to_string()));
    assert_eq!(e.data, "x");
}

#[test]
fn lone_carriage_return_stays() {
    let e = decode_block("id: a\rb");
    assert_eq!(e.id, Some("a\rb".to_string()));
}

#[test]
fn empty_block_gives_empty_event() {
    let e = decode_block("");
    assert_eq!(e, Event { id: None, data: String::new() });
}

#[test]
fn colon_without_space_is_no_separator() {
    let e = decode_block("id:5");
    assert_eq!(e.id, None);
    assert_eq!(e.data, "");
}

#[test]
fn value_may_contain_separator() {
    let e = decode_block("data: a: b");
    assert_eq!(e.data, "a: b");
}

#[test]
fn chunk_with_invalid_bytes_gives_nothing() {
    assert_eq!(decode_chunk(&[0xff, 0xfe, 0x61]), None);
}

#[test]
fn chunk_with_text_gives_event() {
    let e = decode_chunk(b"id: 9\ndata: ok").unwrap();
    assert_eq!(e.id, Some("9".to_string()));
    assert_eq!(e.data, "ok");
}

#[test]
fn trim_removes_surrounding_whitespace() {
    assert_eq!(trim_str("  a b \t"), "a b");
    assert_eq!(trim_str("\u{3000}x\u{a0}"), "x");
    assert_eq!(trim_str("   "), "");
    assert_eq!(trim_str(""), "");
    assert_eq!(trim_str("y"), "y");
}

#[test]
fn whitespace_predicate() {
    assert!(char_is_ws(' '));
    assert!(char_is_ws('\t'));
    assert!(char_is_ws('\u{2003}'));
    assert!(char_is_ws('\u{85}'));
    assert!(!char_is_ws('x'));
    assert!(!char_is_ws('\u{200b}'));
}

#[test]
fn multibyte_text_decodes() {
    let e = decode_chunk("id: \u{e9}\ndata: sn\u{2603}w".as_bytes()).unwrap();
    assert_eq!(e.id, Some("\u{e9}".to_string()));
    assert_eq!(e.data, "sn\u{2603}w");
}
