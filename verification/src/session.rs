//! One connection attempt: chunks in, events out, the last seen id tracked.
//!
//! A [`FeedSession`] starts from the resume id the reconnect loop carries, so
//! that an attempt which sees no id of its own still reports the best-known
//! one.  Each chunk decodes to at most one event; an event that carries an id
//! becomes the session's `last_event_id`; one that carries none, or a chunk
//! that is not valid text, leaves it untouched.

use vstd::prelude::*;
use vstd::utf8::{decode_utf8, valid_utf8};

use crate::decoder::{decode_chunk, decoded, has_id_line, lemma_no_id_line, opt_chars, Event};

verus! {

/// Why a connection attempt stopped: the request never got a response, or the
/// stream broke while a chunk was being read.
#[derive(Debug, Clone, Copy, PartialEq, Eq, Structural)]
pub enum SessionError {
    SendFailed,
    ChunkReadFailed,
}

/// What a finished attempt hands back to the reconnect loop: the id to resume
/// from, and the error that ended the attempt.
#[derive(Debug)]
pub struct Next {
    pub last_event_id: Option<String>,
    pub err: SessionError,
}

impl Next {
    /// Package an attempt's outcome for the reconnect loop.
    pub fn new(last_event_id: Option<String>, err: SessionError) -> (n: Next)
        ensures
            opt_chars(n.last_event_id) == opt_chars(last_event_id),
            n.err == err,
    {
        Next { last_event_id, err }
    }
}

/// The last seen id after one chunk: an id-bearing event replaces it, anything
/// else (an id-less event, bytes that are not text) leaves it unchanged.
pub open spec fn chunk_step(last: Option<Seq<char>>, chunk: Seq<u8>) -> Option<Seq<char>> {
    if valid_utf8(chunk) {
        match decoded(decode_utf8(chunk)).id {
            Some(id) => Some(id),
            None => last,
        }
    } else {
        last
    }
}

/// The last seen id after a whole run of chunks, starting from `seed`.
pub open spec fn run_chunks(seed: Option<Seq<char>>, chunks: Seq<Seq<u8>>) -> Option<Seq<char>>
    decreases chunks.len(),
{
    if chunks.len() == 0 {
        seed
    } else {
        run_chunks(chunk_step(seed, chunks[0]), chunks.skip(1))
    }
}

/// The state of one connection attempt: the id of the last fully decoded
/// id-bearing event, or, before any, the resume id the attempt started from.
pub struct FeedSession {
    pub last_event_id: Option<String>,
}

impl View for FeedSession {
    type V = Option<Seq<char>>;

    open spec fn view(&self) -> Option<Seq<char>> {
        opt_chars(self.last_event_id)
    }
}

impl FeedSession {
    /// Begin an attempt, seeded with the resume id carried in from outside.
    pub fn new(resume_id: Option<String>) -> (s: FeedSession)
        ensures
            s@ == opt_chars(resume_id),
    {
        FeedSession { last_event_id: resume_id }
    }

    /// Consume one chunk: hand back its event, if the bytes were text, and
    /// record its id, if it carried one.  A chunk that is not valid text
    /// yields no event and changes nothing.
    pub fn process_chunk(&mut self, chunk: &[u8]) -> (e: Option<Event>)
        ensures
            final(self)@ == chunk_step(old(self)@, chunk@),
            valid_utf8(chunk@) ==> (e matches Some(ev) && ev@ == decoded(decode_utf8(chunk@))),
            !valid_utf8(chunk@) ==> e is None && final(self)@ == old(self)@,
    {
        match decode_chunk(chunk) {
            Some(ev) => {
                match &ev.id {
                    Some(id) => {
                        self.last_event_id = Some(id.clone());
                    },
                    None => {},
                }
                Some(ev)
            },
            None => None,
        }
    }

    /// The id to resume from, as this attempt would report it now.
    pub fn report(&self) -> (r: Option<String>)
        ensures
            opt_chars(r) == self@,
    {
        match &self.last_event_id {
            Some(id) => Some(id.clone()),
            None => None,
        }
    }

    /// End the attempt in failure, reporting the best-known resume id with the error.
    pub fn fail(self, err: SessionError) -> (n: Next)
        ensures
            opt_chars(n.last_event_id) == self@,
            n.err == err,
    {
        Next { last_event_id: self.last_event_id, err }
    }
}

/// A chunk whose text has no `id` line leaves the last seen id unchanged,
/// whatever event it decodes to.
pub proof fn lemma_no_id_chunk_keeps_last(last: Option<Seq<char>>, chunk: Seq<u8>)
    requires
        valid_utf8(chunk) ==> !has_id_line(decode_utf8(chunk)),
    ensures
        chunk_step(last, chunk) == last,
{
    if valid_utf8(chunk) {
        lemma_no_id_line(decode_utf8(chunk));
    }
}

/// A chunk that is not valid text leaves the last seen id unchanged — it is
/// skipped, never decoded and never an error.
pub proof fn lemma_invalid_chunk_keeps_last(last: Option<Seq<char>>, chunk: Seq<u8>)
    requires
        !valid_utf8(chunk),
    ensures
        chunk_step(last, chunk) == last,
{
}

/// An attempt in which no chunk carries an `id` line reports its seed unchanged.
pub proof fn lemma_run_without_ids(seed: Option<Seq<char>>, chunks: Seq<Seq<u8>>)
    requires
        forall|k: int|
            0 <= k < chunks.len() ==> (valid_utf8(#[trigger] chunks[k]) ==> !has_id_line(
                decode_utf8(chunks[k]),
            )),
    ensures
        run_chunks(seed, chunks) == seed,
    decreases chunks.len(),
{
    if chunks.len() > 0 {
        lemma_no_id_chunk_keeps_last(seed, chunks[0]);
        let tail = chunks.skip(1);
        assert forall|k: int|
            0 <= k < tail.len() && valid_utf8(#[trigger] tail[k]) implies !has_id_line(
            decode_utf8(tail[k]),
        ) by {
            assert(tail[k] == chunks[k + 1]);
        }
        lemma_run_without_ids(chunk_step(seed, chunks[0]), tail);
    }
}

} // verus!
