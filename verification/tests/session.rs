use sse_feed::session::{FeedSession, Next, SessionError};

#[test]
fn chunk_with_id_updates_last_event_id() {
    let mut s = FeedSession::new(None);
    let e = s.process_chunk(b"id: 7\ndata: hello").unwrap();
    assert_eq!(e.id, Some("7".to_string()));
    assert_eq!(e.data, "hello");
    assert_eq!(s.last_event_id, Some("7".to_string()));
    assert_eq!(s.report(), Some("7".to_string()));
}

#[test]
fn chunk_without_id_keeps_last_event_id() {
    let mut s = FeedSession::new(Some("9".to_string()));
    let e = s.process_chunk(b"data:   world  ").unwrap();
    assert_eq!(e.id, None);
    assert_eq!(e.data, "world");
    assert_eq!(s.last_event_id, Some("9".to_string()));
}

#[test]
fn invalid_chunk_emits_nothing_and_keeps_last_event_id() {
    let mut s = FeedSession::new(Some("5".to_string()));
    assert_eq!(s.process_chunk(&[0xc3, 0x28]), None);
    assert_eq!(s.last_event_id, Some("5".to_string()));
}

#[test]
fn fresh_session_without_ids_reports_none() {
    let mut s = FeedSession::new(None);
    s.process_chunk(b"data: a");
    s.process_chunk(b"event: b");
    assert_eq!(s.report(), None);
}

#[test]
fn later_id_replaces_earlier_one() {
    let mut s = FeedSession::new(Some("1".to_string()));
    s.process_chunk(b"id: 2\ndata: x");
    s.process_chunk(b"id: 3\ndata: y");
    assert_eq!(s.report(), Some("3".to_string()));
}

#[test]
fn failure_reports_best_known_id() {
    let mut s = FeedSession::new(None);
    s.process_chunk(b"id: 42\ndata: x");
    let n = s.fail(SessionError::ChunkReadFailed);
    assert_eq!(n.last_event_id, Some("42".to_string()));
    assert_eq!(n.err, SessionError::ChunkReadFailed);
}

#[test]
fn send_failure_reports_the_seed() {
    let s = FeedSession::new(Some("42".to_string()));
    let n = s.fail(SessionError::SendFailed);
    assert_eq!(n.last_event_id, Some("42".to_string()));
    assert_eq!(n.err, SessionError::SendFailed);
}

#[test]
fn next_packages_outcome() {
    let n = Next::new(Some("a".to_string()), SessionError::SendFailed);
    assert_eq!(n.last_event_id, Some("a".to_string()));
    assert_eq!(n.err, SessionError::SendFailed);
    let n2 = Next::new(None, SessionError::ChunkReadFailed);
    assert_eq!(n2.last_event_id, None);
    assert_eq!(n2.err, SessionError::ChunkReadFailed);
}
