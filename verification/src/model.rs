//! The abstract state of the server and the effect of each of its
//! operations on it, with the consistency that every operation keeps.
use crate::event::{H3Event, H3Step, PrefixStep, ReadableAction, WtEvent};
use crate::headers::{is_wt_connect, path_of};
use crate::varint::{varint_complete, varint_len, varint_value};
use vstd::prelude::*;

verus! {

/// Stream type of a bidirectional WebTransport stream (a variable-length integer).
pub const WT_STREAM_TYPE_BIDI: u64 = 0x41;

/// Stream type of a unidirectional WebTransport stream (a variable-length integer).
pub const WT_STREAM_TYPE_UNI: u64 = 0x54;

/// Where the parse of a WebTransport stream's prefix stands.
#[derive(Clone, Copy, Debug, PartialEq, Eq)]
pub enum StreamParseState {
    /// Waiting for the stream type prefix.
    AwaitingType,
    /// Type parsed, waiting for the session identifier.
    AwaitingSessionId { bidi: bool },
    /// Fully classified WebTransport stream.
    Ready { session_id: u64, bidi: bool },
}

/// The abstract state of a `WtServer`.
#[verifier::ext_equal]
pub struct WtServerView {
    pub streams: Map<u64, StreamParseState>,
    pub sessions: Map<u64, u64>,
    pub parse_bufs: Map<u64, Seq<u8>>,
    pub stream_data: Map<u64, Seq<u8>>,
    pub stream_fin: Map<u64, bool>,
    pub finished_reported: Map<u64, bool>,
}

/// True when `id` could be a WebTransport data stream opened by the client:
/// a client bidirectional stream other than stream 0, or a client
/// unidirectional stream past the three that HTTP/3 itself opens (2, 6, 10).
pub open spec fn spec_might_be_wt_stream(id: u64) -> bool {
    (id % 4 == 0 && id > 0) || (id % 4 == 2 && id > 10)
}

/// The stream id whose presence makes choosing the next server stream id with
/// residue `base` overflow: the largest `u64` with that residue modulo 4.
pub open spec fn overflow_id(base: u64) -> u64 {
    if base == 3 {
        0xffff_ffff_ffff_ffff
    } else {
        0xffff_ffff_ffff_fffd
    }
}

/// `r` is the next server stream id with residue `base` modulo 4 beside the
/// known ids `ids`: the smallest such id above every known one, and `base`
/// itself when none is known.
pub open spec fn is_next_id(ids: Set<u64>, base: u64, r: u64) -> bool {
    &&& r % 4 == base % 4
    &&& r >= base
    &&& forall|k: u64| #[trigger] ids.contains(k) && k % 4 == base % 4 ==> k < r
    &&& (r == base || ids.contains((r - 4) as u64))
}

/// The end-of-stream marks `reported` with every stream of `ids` marked.
pub open spec fn marked_reported(reported: Map<u64, bool>, ids: Seq<u64>) -> Map<u64, bool> {
    Map::new(
        |id: u64| reported.contains_key(id) || ids.contains(id),
        |id: u64|
            if ids.contains(id) {
                true
            } else {
                reported[id]
            },
    )
}

/// The event that reports the end of stream `id`.
pub open spec fn finished_event(id: u64) -> WtEvent {
    WtEvent::Finished { stream_id: id }
}

/// The stream type that opens a WebTransport stream of the given direction.
pub open spec fn stream_type(bidi: bool) -> u64 {
    if bidi {
        WT_STREAM_TYPE_BIDI
    } else {
        WT_STREAM_TYPE_UNI
    }
}

impl WtServerView {
    /// The payload buffered for `id`, empty when there is none.
    pub open spec fn buffered(self, id: u64) -> Seq<u8> {
        if self.stream_data.contains_key(id) {
            self.stream_data[id]
        } else {
            Seq::empty()
        }
    }

    /// The partial prefix held for `id`, empty when there is none.
    pub open spec fn stash(self, id: u64) -> Seq<u8> {
        if self.parse_bufs.contains_key(id) {
            self.parse_bufs[id]
        } else {
            Seq::empty()
        }
    }

    /// True when `id` has delivered its FIN.
    pub open spec fn fin_seen(self, id: u64) -> bool {
        self.stream_fin.contains_key(id) && self.stream_fin[id]
    }

    /// True when the end of `id` was already reported.
    pub open spec fn end_reported(self, id: u64) -> bool {
        self.finished_reported.contains_key(id) && self.finished_reported[id]
    }

    /// True when `id` is a fully classified WebTransport stream.
    pub open spec fn is_classified(self, id: u64) -> bool {
        self.streams.contains_key(id) && self.streams[id] is Ready
    }

    /// True when the prefix of `id` is being read.
    pub open spec fn is_parsing(self, id: u64) -> bool {
        self.streams.contains_key(id) && !(self.streams[id] is Ready)
    }

    /// The session of `id`, when it is a fully classified WebTransport stream.
    pub open spec fn session_of(self, id: u64) -> Option<u64> {
        if self.streams.contains_key(id) {
            match self.streams[id] {
                StreamParseState::Ready { session_id, .. } => Some(session_id),
                _ => None,
            }
        } else {
            None
        }
    }

    /// The state with the payload buffered for `id` replaced by `data`.
    pub open spec fn with_buffered(self, id: u64, data: Seq<u8>) -> WtServerView {
        WtServerView { stream_data: self.stream_data.insert(id, data), ..self }
    }

    /// The state with the partial prefix of `id` set to `s`; an empty prefix
    /// is held as no entry at all.
    pub open spec fn with_stash(self, id: u64, s: Seq<u8>) -> WtServerView {
        WtServerView {
            parse_bufs: if s.len() == 0 {
                self.parse_bufs.remove(id)
            } else {
                self.parse_bufs.insert(id, s)
            },
            ..self
        }
    }

    /// The state with the parse state of `id` set to `st`.
    pub open spec fn with_state(self, id: u64, st: StreamParseState) -> WtServerView {
        WtServerView { streams: self.streams.insert(id, st), ..self }
    }

    /// The state with every trace of stream `id` gone but its session entry.
    pub open spec fn without_stream(self, id: u64) -> WtServerView {
        WtServerView {
            streams: self.streams.remove(id),
            parse_bufs: self.parse_bufs.remove(id),
            stream_data: self.stream_data.remove(id),
            stream_fin: self.stream_fin.remove(id),
            finished_reported: self.finished_reported.remove(id),
            ..self
        }
    }

    /// What happens to a stream that the transport reports readable.
    pub open spec fn readable_outcome(self, id: u64) -> (WtServerView, ReadableAction) {
        if self.streams.contains_key(id) {
            if self.streams[id] is Ready {
                (self, ReadableAction::Drain)
            } else {
                (self, ReadableAction::ParsePrefix)
            }
        } else if spec_might_be_wt_stream(id) {
            (
                WtServerView {
                    streams: self.streams.insert(id, StreamParseState::AwaitingType),
                    parse_bufs: self.parse_bufs.insert(id, Seq::empty()),
                    ..self
                },
                ReadableAction::ParsePrefix,
            )
        } else {
            (self, ReadableAction::Skip)
        }
    }

    /// How many bytes the prefix reader of `id` asks for next: one for the
    /// first byte of an integer, then the rest of that integer; nothing when
    /// the prefix of `id` is not being read.
    pub open spec fn prefix_want(self, id: u64) -> Option<nat> {
        if !self.is_parsing(id) {
            None
        } else if self.stash(id).len() == 0 {
            Some(1)
        } else if varint_complete(self.stash(id)) {
            Some(0)
        } else {
            Some((varint_len(self.stash(id)[0]) - self.stash(id).len()) as nat)
        }
    }

    /// The outcome of reading the session id from the bytes `u`.
    pub open spec fn session_outcome(self, id: u64, bidi: bool, u: Seq<u8>) -> (
        WtServerView,
        PrefixStep,
    ) {
        if varint_complete(u) {
            let session_id = varint_value(u) as u64;
            (
                WtServerView {
                    streams: self.streams.insert(
                        id,
                        StreamParseState::Ready { session_id, bidi },
                    ),
                    parse_bufs: self.parse_bufs.remove(id),
                    ..self
                },
                PrefixStep::Classified(WtEvent::NewStream { session_id, stream_id: id, bidi }),
            )
        } else {
            (self.with_stash(id, u), PrefixStep::NeedMore)
        }
    }

    /// The outcome of handing the bytes read from `id` to its prefix reader.
    /// An empty read means that nothing came; it ends the reading unless the
    /// partial prefix already holds a whole integer.
    pub open spec fn prefix_outcome(self, id: u64, bytes: Seq<u8>) -> (WtServerView, PrefixStep) {
        let u = self.stash(id) + bytes;
        if !self.is_parsing(id) {
            (self, PrefixStep::Waiting)
        } else if !varint_complete(u) {
            (self.with_stash(id, u), if bytes.len() == 0 {
                PrefixStep::Waiting
            } else {
                PrefixStep::NeedMore
            })
        } else {
            match self.streams[id] {
                StreamParseState::AwaitingSessionId { bidi } => self.session_outcome(id, bidi, u),
                _ => {
                    let ty = varint_value(u);
                    let rest = u.skip(varint_len(u[0]) as int);
                    if ty == WT_STREAM_TYPE_BIDI || ty == WT_STREAM_TYPE_UNI {
                        let bidi = ty == WT_STREAM_TYPE_BIDI;
                        self.with_state(id, StreamParseState::AwaitingSessionId { bidi }).session_outcome(
                            id,
                            bidi,
                            rest,
                        )
                    } else {
                        (
                            WtServerView {
                                streams: self.streams.remove(id),
                                parse_bufs: self.parse_bufs.remove(id),
                                ..self
                            },
                            PrefixStep::NotWebTransport,
                        )
                    }
                },
            }
        }
    }

    /// The state after recording a read of `data` (and of the FIN when `fin`)
    /// on the classified stream `id`.
    pub open spec fn with_received(self, id: u64, data: Seq<u8>, fin: bool) -> WtServerView {
        WtServerView {
            stream_data: if data.len() > 0 {
                self.stream_data.insert(id, self.buffered(id) + data)
            } else {
                self.stream_data
            },
            stream_fin: if fin {
                self.stream_fin.insert(id, true)
            } else {
                self.stream_fin
            },
            ..self
        }
    }

    /// True when the end of `id` is due to be reported: its FIN was seen,
    /// its payload was all read, and its end was not reported yet.
    pub open spec fn end_pending(self, id: u64) -> bool {
        self.fin_seen(id) && !self.end_reported(id) && self.buffered(id).len() == 0
    }

    /// True when `e` reports the end of a stream whose end is pending.
    pub open spec fn reports_pending_end(self, e: WtEvent) -> bool {
        match e {
            WtEvent::Finished { stream_id } => self.end_pending(stream_id),
            _ => false,
        }
    }

    /// The state after the end of every stream whose end is pending is reported.
    pub open spec fn with_ends_reported(self) -> WtServerView {
        WtServerView {
            finished_reported: Map::new(
                |id: u64| self.finished_reported.contains_key(id) || self.end_pending(id),
                |id: u64|
                    if self.end_pending(id) {
                        true
                    } else {
                        self.finished_reported[id]
                    },
            ),
            ..self
        }
    }

    /// True when `events` report the end of every stream whose end is pending,
    /// each once, and nothing else.
    pub open spec fn reports_ends(self, events: Seq<WtEvent>) -> bool {
        &&& forall|i: int| 0 <= i < events.len() ==> self.reports_pending_end(#[trigger] events[i])
        &&& forall|id: u64| #[trigger] self.end_pending(id) ==> events.contains(finished_event(id))
        &&& events.no_duplicates()
    }

    /// True when `step` is the reaction to the HTTP/3 event `ev` on stream
    /// `id`: events on classified streams are dropped; an Extended CONNECT for
    /// WebTransport is accepted as the session `id` with the request's path;
    /// other headers, data and ends are forwarded; resets, priority updates
    /// and GOAWAY are dropped.
    pub open spec fn h3_reaction(self, id: u64, ev: H3Event, step: H3Step) -> bool {
        match ev {
            H3Event::Headers { list, more_frames } => {
                if self.is_classified(id) {
                    step == H3Step::Ignore
                } else if is_wt_connect(list@) {
                    &&& step matches H3Step::AcceptSession(WtEvent::NewSession { session_id, path })
                    &&& session_id == id
                    &&& path@ == path_of(list@)
                } else {
                    step == H3Step::Forward(
                        WtEvent::H3Headers { stream_id: id, headers: list, has_body: more_frames },
                    )
                }
            },
            H3Event::Data => step == if self.is_classified(id) {
                H3Step::Ignore
            } else {
                H3Step::Forward(WtEvent::H3Data { stream_id: id })
            },
            H3Event::Finished => step == if self.is_classified(id) {
                H3Step::Ignore
            } else {
                H3Step::Forward(WtEvent::H3Finished { stream_id: id })
            },
            _ => step == H3Step::Ignore,
        }
    }

    /// How many bytes a read of at most `cap` bytes takes from the buffer of `id`.
    pub open spec fn recv_count(self, id: u64, cap: nat) -> nat {
        if self.buffered(id).len() < cap {
            self.buffered(id).len()
        } else {
            cap
        }
    }

    /// The state after a read of at most `cap` bytes from the buffer of `id`.
    pub open spec fn after_recv(self, id: u64, cap: nat) -> WtServerView {
        if self.recv_count(id, cap) == 0 {
            self
        } else {
            self.with_buffered(id, self.buffered(id).skip(self.recv_count(id, cap) as int))
        }
    }

    /// True when `id` delivered its FIN and all its buffered payload was read.
    pub open spec fn fin_reached(self, id: u64) -> bool {
        self.fin_seen(id) && self.buffered(id).len() == 0
    }

    /// The state after an event of the HTTP/3 layer on stream `id`: only the
    /// sessions change, when a CONNECT opens one or its stream finishes.
    pub open spec fn h3_state(self, id: u64, ev: H3Event) -> WtServerView {
        if self.is_classified(id) {
            self
        } else {
            match ev {
                H3Event::Headers { list, .. } => {
                    if is_wt_connect(list@) {
                        WtServerView { sessions: self.sessions.insert(id, id), ..self }
                    } else {
                        self
                    }
                },
                H3Event::Finished => WtServerView { sessions: self.sessions.remove(id), ..self },
                _ => self,
            }
        }
    }

    /// The outcome of the prefix reader of `id` reading one integer from its
    /// partial prefix followed by `bytes`: the value once it is whole (the
    /// bytes after it are kept as the partial prefix), and otherwise all the
    /// bytes kept as the partial prefix.
    pub open spec fn varint_read(self, id: u64, bytes: Seq<u8>) -> (WtServerView, Option<u64>) {
        let u = self.stash(id) + bytes;
        if varint_complete(u) {
            (self.with_stash(id, u.skip(varint_len(u[0]) as int)), Some(varint_value(u) as u64))
        } else {
            (self.with_stash(id, u), None)
        }
    }
}

/// One operation on the server, as its abstract effect is stated.
pub ghost enum ServerOp {
    /// `on_readable(id)`.
    Readable(u64),
    /// `try_parse_prefix(id, bytes)`.
    Prefix(u64, Seq<u8>),
    /// `on_stream_data(id, data, fin)`.
    Received(u64, Seq<u8>, bool),
    /// `stream_recv(id, out)` with an `out` of the given length.
    Recv(u64, nat),
    /// `take_finished()`.
    TakeFinished,
    /// `on_h3_event(id, ev)`.
    H3(u64, H3Event),
    /// `remove_stream(id)`.
    Remove(u64),
    /// `finish_open_stream(id, session_id, bidi, Ok(..))`.
    Opened(u64, u64, bool),
}

/// True when `op` may be applied in state `v`: a stream is opened only under
/// an id that the server has no record of.
pub open spec fn op_allowed(v: WtServerView, op: ServerOp) -> bool {
    match op {
        ServerOp::Opened(id, _, _) => !v.streams.contains_key(id),
        _ => true,
    }
}

/// The state after `op` in state `v`; each method's contract states that its
/// effect is this.
pub open spec fn apply_op(v: WtServerView, op: ServerOp) -> WtServerView {
    match op {
        ServerOp::Readable(id) => v.readable_outcome(id).0,
        ServerOp::Prefix(id, bytes) => v.prefix_outcome(id, bytes).0,
        ServerOp::Received(id, data, fin) => {
            if v.is_classified(id) {
                v.with_received(id, data, fin)
            } else {
                v
            }
        },
        ServerOp::Recv(id, cap) => v.after_recv(id, cap),
        ServerOp::TakeFinished => v.with_ends_reported(),
        ServerOp::H3(id, ev) => v.h3_state(id, ev),
        ServerOp::Remove(id) => v.without_stream(id),
        ServerOp::Opened(id, session_id, bidi) => v.with_state(
            id,
            StreamParseState::Ready { session_id, bidi },
        ),
    }
}

/// The server's consistency: a partial prefix is held only for a stream whose
/// prefix is being read, and is never a whole integer; payload and FIN marks
/// are held only for classified streams; a stream's end is marked reported
/// only once its FIN was seen.
pub open spec fn consistent(v: WtServerView) -> bool {
    &&& forall|id: u64| #[trigger]
        v.parse_bufs.contains_key(id) ==> v.is_parsing(id) && !varint_complete(v.parse_bufs[id])
    &&& forall|id: u64| #[trigger] v.stream_data.contains_key(id) ==> v.is_classified(id)
    &&& forall|id: u64| #[trigger] v.stream_fin.contains_key(id) ==> v.is_classified(id)
    &&& forall|id: u64| #[trigger] v.finished_reported.contains_key(id) ==> v.fin_seen(id)
}

/// A server that knows nothing, as `WtServer::new` makes it, is consistent.
pub proof fn lemma_empty_is_consistent(v: WtServerView)
    requires
        v.streams == Map::<u64, StreamParseState>::empty(),
        v.parse_bufs == Map::<u64, Seq<u8>>::empty(),
        v.stream_data == Map::<u64, Seq<u8>>::empty(),
        v.stream_fin == Map::<u64, bool>::empty(),
        v.finished_reported == Map::<u64, bool>::empty(),
    ensures
        consistent(v),
{
}

/// Every operation keeps the server consistent.
pub broadcast proof fn lemma_op_keeps_consistent(v: WtServerView, op: ServerOp)
    requires
        consistent(v),
        op_allowed(v, op),
    ensures
        #[trigger] consistent(apply_op(v, op)),
{
    let w = apply_op(v, op);
    match op {
        ServerOp::Readable(id) => {
            assert forall|k: u64| #[trigger] w.parse_bufs.contains_key(k) implies w.is_parsing(k)
                && !varint_complete(w.parse_bufs[k]) by {
                if k != id {
                    assert(v.parse_bufs.contains_key(k));
                }
            }
            assert forall|k: u64| #[trigger] w.stream_data.contains_key(k) implies w.is_classified(k) by {
                assert(v.stream_data.contains_key(k));
            }
            assert forall|k: u64| #[trigger] w.stream_fin.contains_key(k) implies w.is_classified(k) by {
                assert(v.stream_fin.contains_key(k));
            }
        },
        ServerOp::Prefix(id, bytes) => {
            assert forall|k: u64| #[trigger] w.parse_bufs.contains_key(k) implies w.is_parsing(k)
                && !varint_complete(w.parse_bufs[k]) by {
                if k != id {
                    assert(v.parse_bufs.contains_key(k));
                }
            }
            assert forall|k: u64| #[trigger] w.stream_data.contains_key(k) implies w.is_classified(k) by {
                assert(v.stream_data.contains_key(k));
            }
            assert forall|k: u64| #[trigger] w.stream_fin.contains_key(k) implies w.is_classified(k) by {
                assert(v.stream_fin.contains_key(k));
            }
            assert forall|k: u64| #[trigger] w.finished_reported.contains_key(k) implies w.fin_seen(k) by {
                assert(v.finished_reported.contains_key(k));
            }
        },
        ServerOp::Received(id, data, fin) => {
            assert forall|k: u64| #[trigger] w.stream_data.contains_key(k) implies w.is_classified(k) by {
                if k != id {
                    assert(v.stream_data.contains_key(k));
                }
            }
            assert forall|k: u64| #[trigger] w.stream_fin.contains_key(k) implies w.is_classified(k) by {
                if k != id {
                    assert(v.stream_fin.contains_key(k));
                }
            }
            assert forall|k: u64| #[trigger] w.finished_reported.contains_key(k) implies w.fin_seen(k) by {
                assert(v.finished_reported.contains_key(k));
            }
        },
        ServerOp::Recv(id, cap) => {
            if v.recv_count(id, cap) > 0 {
                assert(v.stream_data.contains_key(id));
            }
            assert forall|k: u64| #[trigger] w.stream_data.contains_key(k) implies w.is_classified(k) by {
                assert(v.stream_data.contains_key(k));
            }
        },
        ServerOp::TakeFinished => {
            assert forall|k: u64| #[trigger] w.finished_reported.contains_key(k) implies w.fin_seen(k) by {
                if !v.end_pending(k) {
                    assert(v.finished_reported.contains_key(k));
                }
            }
        },
        ServerOp::H3(id, ev) => {
        },
        ServerOp::Remove(id) => {
            assert forall|k: u64| #[trigger] w.parse_bufs.contains_key(k) implies w.is_parsing(k)
                && !varint_complete(w.parse_bufs[k]) by {
                assert(v.parse_bufs.contains_key(k));
            }
            assert forall|k: u64| #[trigger] w.stream_data.contains_key(k) implies w.is_classified(k) by {
                assert(v.stream_data.contains_key(k));
            }
            assert forall|k: u64| #[trigger] w.stream_fin.contains_key(k) implies w.is_classified(k) by {
                assert(v.stream_fin.contains_key(k));
            }
            assert forall|k: u64| #[trigger] w.finished_reported.contains_key(k) implies w.fin_seen(k) by {
                assert(v.finished_reported.contains_key(k));
            }
        },
        ServerOp::Opened(id, session_id, bidi) => {
            assert forall|k: u64| #[trigger] w.parse_bufs.contains_key(k) implies w.is_parsing(k)
                && !varint_complete(w.parse_bufs[k]) by {
                assert(v.parse_bufs.contains_key(k));
            }
            assert forall|k: u64| #[trigger] w.stream_data.contains_key(k) implies w.is_classified(k) by {
                assert(v.stream_data.contains_key(k));
            }
            assert forall|k: u64| #[trigger] w.stream_fin.contains_key(k) implies w.is_classified(k) by {
                assert(v.stream_fin.contains_key(k));
            }
        },
    }
}


} // verus!
