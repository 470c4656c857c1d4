//! The reconnect loop's state: the resume id carried from attempt to attempt.
//!
//! The loop holds the one piece of state that outlives a connection attempt,
//! the resume id.  For each attempt it builds the outbound request — the
//! `Last-Event-Id` header is present exactly when a resume id is known — and
//! seeds a fresh [`FeedSession`] with the same id.  When the attempt ends,
//! however it ends, the id the session reports becomes the next resume id;
//! the loop itself never stops retrying.

use vstd::prelude::*;

use vstd::utf8::{decode_utf8, valid_utf8};

use crate::decoder::{has_id_line, opt_chars};
use crate::session::{lemma_run_without_ids, run_chunks, FeedSession};

verus! {

/// The outbound request of one attempt, as plain values: a GET of `url` with
/// an `Accept` header of `accept`, and, when `last_event_id` is present, a
/// `Last-Event-Id` header carrying it.
pub struct FeedRequest {
    pub url: String,
    pub accept: String,
    pub last_event_id: Option<String>,
}

/// The mathematical value of a [`FeedRequest`].
#[verifier::ext_equal]
pub struct RequestView {
    pub url: Seq<char>,
    pub accept: Seq<char>,
    pub last_event_id: Option<Seq<char>>,
}

impl View for FeedRequest {
    type V = RequestView;

    open spec fn view(&self) -> RequestView {
        RequestView {
            url: self.url@,
            accept: self.accept@,
            last_event_id: opt_chars(self.last_event_id),
        }
    }
}

/// The fixed feed endpoint.
pub open spec fn feed_url() -> Seq<char> {
    "https://stream.wikimedia.org/v2/stream/recentchange"@
}

/// The value of the `Accept` header on every request.
pub open spec fn accept_value() -> Seq<char> {
    "text/event-stream"@
}

/// The one request an attempt with resume id `resume` may send.
pub open spec fn request_model(resume: Option<Seq<char>>) -> RequestView {
    RequestView { url: feed_url(), accept: accept_value(), last_event_id: resume }
}

/// Build the outbound request for an attempt: the fixed endpoint, the fixed
/// `Accept` header, and the resume id as `Last-Event-Id` exactly when one is known.
pub fn request(last_event_id: &Option<String>) -> (r: FeedRequest)
    ensures
        r@ == request_model(opt_chars(*last_event_id)),
{
    let id = match last_event_id {
        Some(s) => Some(s.clone()),
        None => None,
    };
    let r = FeedRequest {
        url: String::from_str("https://stream.wikimedia.org/v2/stream/recentchange"),
        accept: String::from_str("text/event-stream"),
        last_event_id: id,
    };
    proof {
        assert(r@ =~= request_model(opt_chars(*last_event_id)));
    }
    r
}

/// The supervisor of repeated attempts: the resume id known at this instant.
pub struct ReconnectLoop {
    pub resume_id: Option<String>,
}

impl View for ReconnectLoop {
    type V = Option<Seq<char>>;

    open spec fn view(&self) -> Option<Seq<char>> {
        opt_chars(self.resume_id)
    }
}

impl ReconnectLoop {
    /// A fresh loop: no resume id yet.
    pub fn new() -> (r: ReconnectLoop)
        ensures
            r@ is None,
    {
        ReconnectLoop { resume_id: None }
    }

    /// The request the next attempt must send.
    pub fn next_request(&self) -> (r: FeedRequest)
        ensures
            r@ == request_model(self@),
    {
        request(&self.resume_id)
    }

    /// The session for the next attempt, seeded with the carried resume id,
    /// so that an attempt that sees no id still reports the best-known one.
    pub fn start_session(&self) -> (s: FeedSession)
        ensures
            s@ == self@,
    {
        let id = match &self.resume_id {
            Some(s) => Some(s.clone()),
            None => None,
        };
        FeedSession::new(id)
    }

    /// After an attempt ends — in success or in failure — carry the id it
    /// reported forward into the next attempt.
    pub fn record_attempt(&mut self, reported: Option<String>)
        ensures
            final(self)@ == opt_chars(reported),
    {
        self.resume_id = reported;
    }
}

/// Resume is idempotent: the request built after an attempt asks to continue
/// from exactly the id the attempt reported — the id is carried into the
/// `Last-Event-Id` header unchanged, and a header is present exactly when an
/// id was reported.
pub proof fn lemma_resume_idempotent(seed: Option<Seq<char>>, chunks: Seq<Seq<u8>>)
    ensures
        request_model(run_chunks(seed, chunks)).last_event_id == run_chunks(seed, chunks),
        request_model(run_chunks(seed, chunks)).last_event_id is Some <==> run_chunks(
            seed,
            chunks,
        ) is Some,
{
}

/// An attempt that fails before reading any chunk reports its seed itself, so
/// the next request repeats the previous resume id — a send failure never
/// resets a known id to none.
pub proof fn lemma_send_failure_keeps_resume(seed: Option<Seq<char>>)
    ensures
        request_model(run_chunks(seed, Seq::empty())).last_event_id == seed,
{
}

/// A loop that has never seen an id asks for nothing: after an attempt that
/// started with no resume id and whose chunks carried no `id` line, the next
/// request has no `Last-Event-Id` header.
pub proof fn lemma_no_id_no_header(chunks: Seq<Seq<u8>>)
    requires
        forall|k: int|
            0 <= k < chunks.len() ==> (valid_utf8(#[trigger] chunks[k]) ==> !has_id_line(
                decode_utf8(chunks[k]),
            )),
    ensures
        request_model(run_chunks(None, chunks)).last_event_id is None,
{
    lemma_run_without_ids(None, chunks);
}

} // verus!
