//! A client core for a continuous, line-framed text event feed.
//!
//! The feed arrives as a sequence of transport chunks.  Each chunk is decoded
//! into one [`decoder::Event`]; a [`session::FeedSession`] tracks the id of
//! the last fully decoded event across the chunks of one connection attempt;
//! a [`reconnect::ReconnectLoop`] carries that id from attempt to attempt and
//! builds the request with which the next attempt resumes the feed.
//!
//! Transport itself (sending the request, pulling chunks) is a collaborator
//! outside this crate: the library only decides, on plain values, what each
//! chunk means and what the next attempt must send.

pub mod decoder;
pub mod reconnect;
pub mod session;
