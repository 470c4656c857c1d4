use sse_feed::reconnect::{request, ReconnectLoop};
use sse_feed::session::SessionError;

const FEED_URL: &str = "https://stream.wikimedia.org/v2/stream/recentchange";

#[test]
fn request_without_resume_id_has_no_resume_header() {
    let r = request(&None);
    assert_eq!(r.url, FEED_URL);
    assert_eq!(r.accept, "text/event-stream");
    assert_eq!(r.last_event_id, None);
}

#[test]
fn request_with_resume_id_carries_it() {
    let r = request(&Some("42".to_string()));
    assert_eq!(r.url, FEED_URL);
    assert_eq!(r.accept, "text/event-stream");
    assert_eq!(r.last_event_id, Some("42".to_string()));
}

#[test]
fn fresh_loop_asks_for_nothing() {
    let l = ReconnectLoop::new();
    assert_eq!(l.resume_id, None);
    assert_eq!(l.next_request().last_event_id, None);
}

#[test]
fn failure_mid_stream_resumes_from_last_id() {
    let mut l = ReconnectLoop::new();
    let mut s = l.start_session();
    s.process_chunk(b"id: 42\ndata: x");
    let n = s.fail(SessionError::ChunkReadFailed);
    l.record_attempt(n.last_event_id);
    assert_eq!(l.next_request().last_event_id, Some("42".to_string()));
}

#[test]
fn send_failure_keeps_prior_resume_id() {
    let mut l = ReconnectLoop::new();
    l.record_attempt(Some("42".to_string()));
    let s = l.start_session();
    let n = s.fail(SessionError::SendFailed);
    l.record_attempt(n.last_event_id);
    assert_eq!(l.next_request().last_event_id, Some("42".to_string()));
}

#[test]
fn clean_end_keeps_reported_id() {
    let mut l = ReconnectLoop::new();
    let mut s = l.start_session();
    s.process_chunk(b"id: 7\ndata: hello");
    l.record_attempt(s.report());
    assert_eq!(l.next_request().last_event_id, Some("7".to_string()));
}

#[test]
fn idless_attempt_leaves_no_resume_id() {
    let mut l = ReconnectLoop::new();
    let mut s = l.start_session();
    s.process_chunk(b"data: only");
    let n = s.fail(SessionError::ChunkReadFailed);
    l.record_attempt(n.last_event_id);
    assert_eq!(l.next_request().last_event_id, None);
}
