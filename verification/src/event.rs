//! What the server reports to its user, and what it tells its driver to do
//! after each piece of outside work.
use crate::headers::Header;
use vstd::prelude::*;

verus! {

/// Events that a poll of the server produces.
#[derive(Clone, Debug, PartialEq, Eq)]
pub enum WtEvent {
    /// A WebTransport session was established by Extended CONNECT.
    NewSession { session_id: u64, path: String },
    /// The peer opened a WebTransport data stream.
    NewStream { session_id: u64, stream_id: u64, bidi: bool },
    /// Payload arrived on a WebTransport stream; read it with `stream_recv`.
    Data { stream_id: u64 },
    /// A WebTransport stream delivered its FIN and its payload was all read.
    Finished { stream_id: u64 },
    /// Request or response headers on a stream that is not WebTransport.
    H3Headers { stream_id: u64, headers: Vec<Header>, has_body: bool },
    /// Body data on a stream that is not WebTransport.
    H3Data { stream_id: u64 },
    /// A stream that is not WebTransport was finished.
    H3Finished { stream_id: u64 },
}

/// An event of the HTTP/3 layer, as the server needs to see it.
#[derive(Clone, Debug, PartialEq, Eq)]
pub enum H3Event {
    /// Headers were received; `more_frames` tells whether a body follows.
    Headers { list: Vec<Header>, more_frames: bool },
    /// Body data was received.
    Data,
    /// The stream was finished.
    Finished,
    /// The stream was reset with the given error code.
    Reset(u64),
    /// A PRIORITY_UPDATE was received.
    PriorityUpdate,
    /// A GOAWAY was received.
    GoAway,
}

/// What to do with a stream that the transport reports readable.
#[derive(Clone, Copy, Debug, PartialEq, Eq)]
pub enum ReadableAction {
    /// A classified WebTransport stream: drain its payload.
    Drain,
    /// A stream whose WebTransport prefix is being read: go on reading it.
    ParsePrefix,
    /// Not a WebTransport stream: leave it to the HTTP/3 layer.
    Skip,
}

/// Where reading a stream's WebTransport prefix stands after a read.
#[derive(Clone, Debug, PartialEq, Eq)]
pub enum PrefixStep {
    /// No bytes came: stop reading until the stream is readable again.
    Waiting,
    /// The prefix is not complete: read the bytes that the server asks for next.
    NeedMore,
    /// The stream type is not a WebTransport one; the stream is forgotten.
    NotWebTransport,
    /// The prefix is complete; the event announces the new stream.
    Classified(WtEvent),
}

/// What to do with an event of the HTTP/3 layer.
#[derive(Clone, Debug, PartialEq, Eq)]
pub enum H3Step {
    /// Drop it.
    Ignore,
    /// Report the event.
    Forward(WtEvent),
    /// Send the session-accepting response on the stream, then report the event.
    AcceptSession(WtEvent),
}

} // verus!
