//! The WebTransport server state: which streams are WebTransport streams,
//! to which session each belongs, and the payload drained from them.
//!
//! Every decision of the server is a method here. The reads and writes on the
//! QUIC connection are its driver's: the driver asks what to do with a
//! readable stream, reads, hands the bytes back, and does what it is told.
use crate::event::{H3Event, H3Step, PrefixStep, ReadableAction, WtEvent};
pub use crate::model::{
    apply_op,
    finished_event,
    is_next_id,
    marked_reported,
    op_allowed,
    overflow_id,
    spec_might_be_wt_stream,
    stream_type,
    ServerOp,
    StreamParseState,
    WtServerView,
    WT_STREAM_TYPE_BIDI,
    WT_STREAM_TYPE_UNI,
};
use crate::model::{consistent, lemma_empty_is_consistent, lemma_op_keeps_consistent};
use crate::headers::{extract_path, is_webtransport_connect, is_wt_connect, path_of};
use crate::varint::{
    decode_varint,
    encoded_len,
    encode_varint,
    varint_complete,
    varint_encoding,
    lemma_varint_value_bound,
    varint_len,
    varint_value,
};
use std::collections::HashMap;
use vstd::prelude::*;

verus! {

broadcast use {vstd::std_specs::hash::group_hash_axioms, crate::model::lemma_op_keeps_consistent};

/// WebTransport bookkeeping that sits beside quiche's HTTP/3 connection.
pub struct WtServer {
    /// Known WebTransport streams: stream id to parse state.
    streams: HashMap<u64, StreamParseState>,
    /// Session id to the id of its CONNECT request stream.
    sessions: HashMap<u64, u64>,
    /// Partial prefix bytes of streams still being classified.
    parse_bufs: HashMap<u64, Vec<u8>>,
    /// Payload drained from classified streams and not yet read by the caller.
    stream_data: HashMap<u64, Vec<u8>>,
    /// Whether each classified stream has delivered its FIN.
    stream_fin: HashMap<u64, bool>,
    /// Streams whose end was already reported, so it is reported once.
    finished_reported: HashMap<u64, bool>,
}

/// The byte-sequence view of a map of byte vectors.
pub open spec fn bytes_view(m: Map<u64, Vec<u8>>) -> Map<u64, Seq<u8>> {
    m.map_values(|v: Vec<u8>| v@)
}

proof fn lemma_bytes_view_insert(m: Map<u64, Vec<u8>>, k: u64, v: Vec<u8>)
    ensures
        bytes_view(m.insert(k, v)) == bytes_view(m).insert(k, v@),
{
    assert(bytes_view(m.insert(k, v)) =~= bytes_view(m).insert(k, v@));
}

proof fn lemma_bytes_view_remove(m: Map<u64, Vec<u8>>, k: u64)
    ensures
        bytes_view(m.remove(k)) == bytes_view(m).remove(k),
{
    assert(bytes_view(m.remove(k)) =~= bytes_view(m).remove(k));
}

impl View for WtServer {
    type V = WtServerView;

    closed spec fn view(&self) -> WtServerView {
        WtServerView {
            streams: self.streams@,
            sessions: self.sessions@,
            parse_bufs: bytes_view(self.parse_bufs@),
            stream_data: bytes_view(self.stream_data@),
            stream_fin: self.stream_fin@,
            finished_reported: self.finished_reported@,
        }
    }
}


impl WtServer {
    /// A server that knows no stream and no session.
    pub fn new() -> (s: Self)
        ensures
            s@.streams == Map::<u64, StreamParseState>::empty(),
            s@.sessions == Map::<u64, u64>::empty(),
            s@.parse_bufs == Map::<u64, Seq<u8>>::empty(),
            s@.stream_data == Map::<u64, Seq<u8>>::empty(),
            s@.stream_fin == Map::<u64, bool>::empty(),
            s@.finished_reported == Map::<u64, bool>::empty(),
            consistent(s@),
    {
        let s = WtServer {
            streams: HashMap::new(),
            sessions: HashMap::new(),
            parse_bufs: HashMap::new(),
            stream_data: HashMap::new(),
            stream_fin: HashMap::new(),
            finished_reported: HashMap::new(),
        };
        assert(bytes_view(s.parse_bufs@) =~= Map::<u64, Seq<u8>>::empty());
        assert(bytes_view(s.stream_data@) =~= Map::<u64, Seq<u8>>::empty());
        proof {
            lemma_empty_is_consistent(s@);
        }
        s
    }

    /// True when `stream_id` is a fully classified WebTransport stream. Only
    /// such a stream may be drained.
    pub fn is_wt_classified(&self, stream_id: u64) -> (res: bool)
        ensures
            res == self@.is_classified(stream_id),
    {
        match self.streams.get(&stream_id) {
            Some(StreamParseState::Ready { .. }) => true,
            _ => false,
        }
    }

    /// Moves drained payload of `stream_id` into the front of `out`.
    ///
    /// Returns how many bytes were copied: all that is buffered, or as many
    /// as fit in `out`. Those bytes leave the buffer; the rest stays, in order.
    /// Use `stream_fin_reached` to detect the end once the buffer is empty.
    pub fn stream_recv(&mut self, stream_id: u64, out: &mut [u8]) -> (n: usize)
        ensures
            n as nat == if old(self)@.buffered(stream_id).len() < old(out)@.len() {
                old(self)@.buffered(stream_id).len()
            } else {
                old(out)@.len() as nat
            },
            final(out)@ == old(self)@.buffered(stream_id).take(n as int) + old(out)@.skip(
                n as int,
            ),
            final(self)@ == if n == 0 {
                old(self)@
            } else {
                old(self)@.with_buffered(
                    stream_id,
                    old(self)@.buffered(stream_id).skip(n as int),
                )
            },
            n as nat == old(self)@.recv_count(stream_id, old(out)@.len() as nat),
            final(self)@ == apply_op(old(self)@, ServerOp::Recv(stream_id, old(out)@.len() as nat)),
            consistent(old(self)@) ==> consistent(final(self)@),
    {
        let ghost old_data = self.stream_data@;
        let mut buf = match self.stream_data.remove(&stream_id) {
            Some(b) => b,
            None => {
                proof {
                    assert(self.stream_data@ =~= old_data);
                    assert(out@ =~= Seq::<u8>::empty().take(0) + out@.skip(0));
                }
                return 0;
            },
        };
        let n = if buf.len() < out.len() {
            buf.len()
        } else {
            out.len()
        };
        if n == 0 {
            self.stream_data.insert(stream_id, buf);
            proof {
                assert(self.stream_data@ =~= old_data);
                assert(out@ =~= buf@.take(0) + out@.skip(0));
            }
            return 0;
        }
        let mut i: usize = 0;
        while i < n
            invariant
                0 <= i <= n,
                n <= buf@.len(),
                n <= old(out)@.len(),
                out@.len() == old(out)@.len(),
                forall|j: int| 0 <= j < i ==> out@[j] == buf@[j],
                forall|j: int| n <= j < out@.len() ==> out@[j] == old(out)@[j],
            decreases n - i,
        {
            out[i] = buf[i];
            i = i + 1;
        }
        let rest = buf.split_off(n);
        proof {
            assert(out@ =~= buf@.take(n as int) + old(out)@.skip(n as int));
        }
        self.stream_data.insert(stream_id, rest);
        proof {
            assert(old_data.remove(stream_id).insert(stream_id, rest) =~= old_data.insert(
                stream_id,
                rest,
            ));
            lemma_bytes_view_insert(old_data, stream_id, rest);
        }
        n
    }

    /// True when FIN has been seen on `stream_id` and every buffered byte has
    /// been read through `stream_recv`.
    pub fn stream_fin_reached(&self, stream_id: u64) -> (res: bool)
        ensures
            res == (self@.fin_seen(stream_id) && self@.buffered(stream_id).len() == 0),
    {
        let fin = match self.stream_fin.get(&stream_id) {
            Some(f) => *f,
            None => false,
        };
        if !fin {
            return false;
        }
        match self.stream_data.get(&stream_id) {
            Some(b) => b.len() == 0,
            None => true,
        }
    }

    /// The session of a fully classified WebTransport stream.
    pub fn stream_session_id(&self, stream_id: u64) -> (res: Option<u64>)
        ensures
            res == self@.session_of(stream_id),
    {
        match self.streams.get(&stream_id) {
            Some(StreamParseState::Ready { session_id, .. }) => Some(*session_id),
            _ => None,
        }
    }

    /// Forgets a stream (for example once it is closed): its parse state,
    /// partial prefix, buffered payload and end-of-stream marks.
    pub fn remove_stream(&mut self, stream_id: u64)
        ensures
            final(self)@ == old(self)@.without_stream(stream_id),
            final(self)@ == apply_op(old(self)@, ServerOp::Remove(stream_id)),
            consistent(old(self)@) ==> consistent(final(self)@),
    {
        proof {
            lemma_bytes_view_remove(self.parse_bufs@, stream_id);
            lemma_bytes_view_remove(self.stream_data@, stream_id);
        }
        self.streams.remove(&stream_id);
        self.parse_bufs.remove(&stream_id);
        self.stream_data.remove(&stream_id);
        self.stream_fin.remove(&stream_id);
        self.finished_reported.remove(&stream_id);
    }

    /// Heuristic: could this stream be a WebTransport data stream?
    fn might_be_wt_stream(&self, stream_id: u64) -> (res: bool)
        ensures
            res == spec_might_be_wt_stream(stream_id),
    {
        let is_client_bidi = stream_id % 4 == 0 && stream_id > 0;
        let is_client_uni = stream_id % 4 == 2 && stream_id > 10;
        is_client_bidi || is_client_uni
    }
}

impl WtServer {
    /// Decides what to do with a stream that the transport reports readable.
    ///
    /// A classified stream is drained, a stream whose prefix is being read is
    /// read further, and an unknown stream that could be a WebTransport stream
    /// is registered as awaiting its type before its prefix is read. Any other
    /// stream is left to the HTTP/3 layer.
    pub fn on_readable(&mut self, stream_id: u64) -> (action: ReadableAction)
        ensures
            final(self)@ == old(self)@.readable_outcome(stream_id).0,
            action == old(self)@.readable_outcome(stream_id).1,
            final(self)@ == apply_op(old(self)@, ServerOp::Readable(stream_id)),
            consistent(old(self)@) ==> consistent(final(self)@),
    {
        match self.streams.get(&stream_id) {
            Some(StreamParseState::Ready { .. }) => return ReadableAction::Drain,
            Some(_) => return ReadableAction::ParsePrefix,
            None => {},
        }
        if self.might_be_wt_stream(stream_id) {
            let empty: Vec<u8> = Vec::new();
            proof {
                lemma_bytes_view_insert(self.parse_bufs@, stream_id, empty);
            }
            self.streams.insert(stream_id, StreamParseState::AwaitingType);
            self.parse_bufs.insert(stream_id, empty);
            ReadableAction::ParsePrefix
        } else {
            ReadableAction::Skip
        }
    }

    /// How many bytes to read next from `stream_id` for its prefix: one byte
    /// to start an integer, then the rest of that integer, so that no payload
    /// byte after the prefix is ever read here. `None` when the prefix of
    /// `stream_id` is not being read.
    pub fn prefix_read_len(&self, stream_id: u64) -> (want: Option<usize>)
        ensures
            want matches Some(n) ==> self@.prefix_want(stream_id) == Some(n as nat),
            want is None ==> self@.prefix_want(stream_id) is None,
    {
        match self.streams.get(&stream_id) {
            Some(StreamParseState::Ready { .. }) => return None,
            None => return None,
            Some(_) => {},
        }
        match self.parse_bufs.get(&stream_id) {
            None => Some(1),
            Some(stash) => {
                if stash.len() == 0 {
                    Some(1)
                } else {
                    let len = encoded_len(stash[0]);
                    if stash.len() >= len {
                        Some(0)
                    } else {
                        Some(len - stash.len())
                    }
                }
            },
        }
    }

    /// Holds `bytes` as the partial prefix of `id`, or no entry when empty.
    fn put_stash(&mut self, id: u64, bytes: Vec<u8>)
        requires
            !old(self)@.parse_bufs.contains_key(id),
        ensures
            final(self)@ == old(self)@.with_stash(id, bytes@),
    {
        if bytes.len() > 0 {
            proof {
                lemma_bytes_view_insert(self.parse_bufs@, id, bytes);
            }
            self.parse_bufs.insert(id, bytes);
        } else {
            proof {
                assert(self@.parse_bufs.remove(id) =~= self@.parse_bufs);
            }
        }
    }

    /// Reads one variable-length integer of `stream_id`'s prefix from its
    /// partial prefix followed by the bytes just read.
    ///
    /// When they hold a whole integer, returns its value and keeps any bytes
    /// after it as the partial prefix; otherwise keeps all of them as the
    /// partial prefix and returns `None`.
    fn read_varint_incremental(&mut self, stream_id: u64, bytes: &[u8]) -> (res: Option<u64>)
        ensures
            final(self)@ == old(self)@.varint_read(stream_id, bytes@).0,
            res == old(self)@.varint_read(stream_id, bytes@).1,
    {
        let ghost old_bufs = self.parse_bufs@;
        proof {
            lemma_bytes_view_remove(self.parse_bufs@, stream_id);
        }
        let mut accum = match self.parse_bufs.remove(&stream_id) {
            Some(v) => v,
            None => Vec::new(),
        };
        let ghost stashed = accum@;
        assert(stashed == old(self)@.stash(stream_id));
        let mut i: usize = 0;
        while i < bytes.len()
            invariant
                0 <= i <= bytes@.len(),
                accum@ == stashed + bytes@.take(i as int),
            decreases bytes@.len() - i,
        {
            accum.push(bytes[i]);
            i = i + 1;
            assert(accum@ =~= stashed + bytes@.take(i as int));
        }
        assert(bytes@.take(bytes@.len() as int) =~= bytes@);
        proof {
            assert(self@.parse_bufs.remove(stream_id) =~= self@.parse_bufs);
        }
        match decode_varint(accum.as_slice()) {
            None => {
                self.put_stash(stream_id, accum);
                proof {
                    assert(self@.parse_bufs =~= old(self)@.with_stash(stream_id, stashed + bytes@).parse_bufs);
                }
                None
            },
            Some((val, len)) => {
                let rest = accum.split_off(len);
                self.put_stash(stream_id, rest);
                proof {
                    let u = stashed + bytes@;
                    assert(self@.parse_bufs =~= old(self)@.with_stash(
                        stream_id,
                        u.skip(varint_len(u[0]) as int),
                    ).parse_bufs);
                }
                Some(val)
            },
        }
    }

    /// Reads the session id of `stream_id` from its partial prefix followed
    /// by `bytes`; once it is whole, the stream is classified.
    fn read_session_id(&mut self, stream_id: u64, bidi: bool, bytes: &[u8]) -> (ev: Option<
        WtEvent,
    >)
        requires
            old(self)@.streams.contains_key(stream_id),
        ensures
            ({
                let (v, step) = old(self)@.session_outcome(
                    stream_id,
                    bidi,
                    old(self)@.stash(stream_id) + bytes@,
                );
                &&& final(self)@ == v
                &&& ev matches Some(e) ==> step == PrefixStep::Classified(e)
                &&& ev is None ==> step == PrefixStep::NeedMore
            }),
    {
        let ghost u = self@.stash(stream_id) + bytes@;
        let session_id = match self.read_varint_incremental(stream_id, bytes) {
            Some(v) => v,
            None => return None,
        };
        proof {
            lemma_varint_value_bound(u);
            lemma_bytes_view_remove(self.parse_bufs@, stream_id);
        }
        self.streams.insert(stream_id, StreamParseState::Ready { session_id, bidi });
        self.parse_bufs.remove(&stream_id);
        proof {
            assert(self@.parse_bufs =~= old(self)@.parse_bufs.remove(stream_id));
        }
        Some(WtEvent::NewStream { session_id, stream_id, bidi })
    }

    /// Hands the bytes just read from `stream_id` for its prefix to the prefix
    /// reader (an empty slice when the read gave nothing), and says how the
    /// reading stands.
    ///
    /// The prefix is the stream type (0x41 bidirectional, 0x54
    /// unidirectional) followed by the session id, both variable-length
    /// integers. A whole prefix classifies the stream; any other type makes
    /// the server forget the stream.
    pub fn try_parse_prefix(&mut self, stream_id: u64, bytes: &[u8]) -> (step: PrefixStep)
        ensures
            final(self)@ == old(self)@.prefix_outcome(stream_id, bytes@).0,
            step == old(self)@.prefix_outcome(stream_id, bytes@).1,
            final(self)@ == apply_op(old(self)@, ServerOp::Prefix(stream_id, bytes@)),
            consistent(old(self)@) ==> consistent(final(self)@),
    {
        let state = match self.streams.get(&stream_id) {
            Some(StreamParseState::AwaitingType) => StreamParseState::AwaitingType,
            Some(StreamParseState::AwaitingSessionId { bidi }) => {
                StreamParseState::AwaitingSessionId { bidi: *bidi }
            },
            _ => return PrefixStep::Waiting,
        };
        let ghost u = self@.stash(stream_id) + bytes@;
        match state {
            StreamParseState::AwaitingSessionId { bidi } => {
                match self.read_session_id(stream_id, bidi, bytes) {
                    Some(ev) => PrefixStep::Classified(ev),
                    None => {
                        if bytes.len() == 0 {
                            PrefixStep::Waiting
                        } else {
                            PrefixStep::NeedMore
                        }
                    },
                }
            },
            _ => {
                let val = match self.read_varint_incremental(stream_id, bytes) {
                    Some(v) => v,
                    None => {
                        return if bytes.len() == 0 {
                            PrefixStep::Waiting
                        } else {
                            PrefixStep::NeedMore
                        };
                    },
                };
                proof {
                    lemma_varint_value_bound(u);
                }
                let bidi = if val == WT_STREAM_TYPE_BIDI {
                    true
                } else if val == WT_STREAM_TYPE_UNI {
                    false
                } else {
                    proof {
                        lemma_bytes_view_remove(self.parse_bufs@, stream_id);
                    }
                    self.streams.remove(&stream_id);
                    self.parse_bufs.remove(&stream_id);
                    proof {
                        assert(self@.parse_bufs =~= old(self)@.parse_bufs.remove(stream_id));
                    }
                    return PrefixStep::NotWebTransport;
                };
                self.streams.insert(stream_id, StreamParseState::AwaitingSessionId { bidi });
                let nothing: Vec<u8> = Vec::new();
                proof {
                    assert(self@.stash(stream_id) + nothing@ =~= u.skip(varint_len(u[0]) as int));
                }
                match self.read_session_id(stream_id, bidi, nothing.as_slice()) {
                    Some(ev) => PrefixStep::Classified(ev),
                    None => PrefixStep::NeedMore,
                }
            },
        }
    }

    /// Records one read from the classified stream `stream_id` while it is
    /// drained: the bytes join its buffer and a FIN is remembered.
    ///
    /// Returns whether to read again: yes while bytes keep coming and no FIN
    /// was seen. A stream that is not classified is left alone (its bytes
    /// belong to the prefix reader or to HTTP/3) and nothing more is read.
    pub fn on_stream_data(&mut self, stream_id: u64, data: &[u8], fin: bool) -> (more: bool)
        ensures
            !old(self)@.is_classified(stream_id) ==> final(self)@ == old(self)@ && !more,
            old(self)@.is_classified(stream_id) ==> {
                &&& final(self)@ == old(self)@.with_received(stream_id, data@, fin)
                &&& more == (!fin && data@.len() > 0)
            },
            final(self)@ == apply_op(old(self)@, ServerOp::Received(stream_id, data@, fin)),
            consistent(old(self)@) ==> consistent(final(self)@),
    {
        proof {
            if consistent(self@) {
                lemma_op_keeps_consistent(self@, ServerOp::Received(stream_id, data@, fin));
            }
        }
        if !self.is_wt_classified(stream_id) {
            return false;
        }
        let ghost old_data = self.stream_data@;
        if data.len() > 0 {
            proof {
                lemma_bytes_view_remove(self.stream_data@, stream_id);
            }
            let mut buf = match self.stream_data.remove(&stream_id) {
                Some(b) => b,
                None => Vec::new(),
            };
            let ghost before = buf@;
            assert(before == old(self)@.buffered(stream_id));
            let mut i: usize = 0;
            while i < data.len()
                invariant
                    0 <= i <= data@.len(),
                    buf@ == before + data@.take(i as int),
                decreases data@.len() - i,
            {
                buf.push(data[i]);
                i = i + 1;
                assert(buf@ =~= before + data@.take(i as int));
            }
            assert(data@.take(data@.len() as int) =~= data@);
            proof {
                lemma_bytes_view_insert(old_data, stream_id, buf);
                assert(old_data.remove(stream_id).insert(stream_id, buf) =~= old_data.insert(
                    stream_id,
                    buf,
                ));
            }
            self.stream_data.insert(stream_id, buf);
        }
        if fin {
            self.stream_fin.insert(stream_id, true);
        }
        !fin && data.len() > 0
    }

    /// Handles an event of the HTTP/3 layer on `stream_id`.
    ///
    /// Events on classified WebTransport streams are dropped: HTTP/3 may still
    /// hold state for them. An Extended CONNECT for WebTransport opens a
    /// session whose id is the request stream's id; the driver must accept it
    /// with `session_accept_headers`. A finished request stream ends its
    /// session. Other headers, data and ends are reported as HTTP/3 events;
    /// resets, priority updates and GOAWAY are dropped.
    pub fn on_h3_event(&mut self, stream_id: u64, event: H3Event) -> (step: H3Step)
        ensures
            old(self)@.h3_reaction(stream_id, event, step),
            final(self)@ == old(self)@.h3_state(stream_id, event),
            final(self)@ == apply_op(old(self)@, ServerOp::H3(stream_id, event)),
            consistent(old(self)@) ==> consistent(final(self)@),
    {
        match event {
            H3Event::Headers { list, more_frames } => {
                if self.is_wt_classified(stream_id) {
                    return H3Step::Ignore;
                }
                if is_webtransport_connect(list.as_slice()) {
                    let path = extract_path(list.as_slice());
                    let session_id = stream_id;
                    self.sessions.insert(session_id, stream_id);
                    H3Step::AcceptSession(WtEvent::NewSession { session_id, path })
                } else {
                    H3Step::Forward(
                        WtEvent::H3Headers { stream_id, headers: list, has_body: more_frames },
                    )
                }
            },
            H3Event::Data => {
                if self.is_wt_classified(stream_id) {
                    return H3Step::Ignore;
                }
                H3Step::Forward(WtEvent::H3Data { stream_id })
            },
            H3Event::Finished => {
                if self.is_wt_classified(stream_id) {
                    return H3Step::Ignore;
                }
                if self.sessions.contains_key(&stream_id) {
                    self.sessions.remove(&stream_id);
                }
                proof {
                    assert(self@.sessions =~= old(self)@.sessions.remove(stream_id));
                }
                H3Step::Forward(WtEvent::H3Finished { stream_id })
            },
            H3Event::Reset(_) | H3Event::PriorityUpdate | H3Event::GoAway => H3Step::Ignore,
        }
    }

    /// Reports the end of every classified stream whose FIN was seen and whose
    /// payload was all read, once per stream: each such stream is marked as
    /// reported and gets one `Finished` event. The order of the events is
    /// the order in which the end-of-stream table is walked.
    pub fn take_finished(&mut self) -> (events: Vec<WtEvent>)
        ensures
            final(self)@ == old(self)@.with_ends_reported(),
            final(self)@ == apply_op(old(self)@, ServerOp::TakeFinished),
            consistent(old(self)@) ==> consistent(final(self)@),
            old(self)@.reports_ends(events@),
    {
        let ghost v = self@;
        let mut fin_streams: Vec<u64> = Vec::new();
        let ghost mut pos: Seq<int> = Seq::empty();
        let entries = self.stream_fin.iter();
        let ghost walk = vstd::std_specs::iter::IteratorSpec::remaining(
            &vstd::std_specs::hash::spec_hash_map_iter(&self.stream_fin),
        );
        let ghost mut scanned: int = 0;
        for (sid, fin) in it: entries
            invariant
                self@ == v,
                it.seq() == walk,
                scanned == it.index(),
                it.seq().no_duplicates(),
                forall|j: int|
                    0 <= j < it.seq().len() ==> v.stream_fin.contains_key(*it.seq()[j].0)
                        && v.stream_fin[*it.seq()[j].0] == *it.seq()[j].1,
                forall|id: u64|
                    #[trigger] v.stream_fin.contains_key(id) ==> it.seq().contains(
                        (&id, &v.stream_fin[id]),
                    ),
                forall|k: int|
                    0 <= k < fin_streams@.len() ==> #[trigger] v.end_pending(fin_streams@[k]),
                pos.len() == fin_streams@.len(),
                forall|k: int|
                    0 <= k < fin_streams@.len() ==> 0 <= #[trigger] pos[k] < it.index()
                        && *it.seq()[pos[k]].0 == fin_streams@[k],
                forall|j: int|
                    0 <= j < scanned && #[trigger] v.end_pending(*walk[j].0)
                        ==> fin_streams@.contains(*walk[j].0),
                fin_streams@.no_duplicates(),
        {
            let id = *sid;
            let ghost j0 = it.index();
            let ghost before = fin_streams@;
            assert(it.seq()[j0] == (sid, fin));
            assert(v.stream_fin.contains_key(id) && v.stream_fin[id] == *fin);
            if *fin {
                let reported = match self.finished_reported.get(&id) {
                    Some(r) => *r,
                    None => false,
                };
                if !reported {
                    let buf_empty = match self.stream_data.get(&id) {
                        Some(b) => b.len() == 0,
                        None => true,
                    };
                    if buf_empty {
                        proof {
                            if before.contains(id) {
                                let k = choose|k: int| 0 <= k < before.len() && before[k] == id;
                                let j = pos[k];
                                assert(it.seq()[j] == it.seq()[j0]);
                                assert(it.seq().no_duplicates());
                                assert(false);
                            }
                        }
                        fin_streams.push(id);
                        proof {
                            pos = pos.push(j0);
                            assert(fin_streams@[before.len() as int] == id);
                        }
                    }
                }
            }
            proof {
                scanned = scanned + 1;
                assert forall|j: int|
                    0 <= j < scanned && #[trigger] v.end_pending(*walk[j].0) implies fin_streams@.contains(
                    *walk[j].0,
                ) by {
                    if j < j0 {
                        assert(before.contains(*it.seq()[j].0));
                        let k = choose|k: int| 0 <= k < before.len() && before[k] == *it.seq()[j].0;
                        assert(fin_streams@[k] == before[k]);
                    } else {
                        assert(fin_streams@[before.len() as int] == id);
                    }
                }
            }
        }
        proof {
            assert forall|id: u64| #[trigger] v.end_pending(id) implies fin_streams@.contains(id) by {
                assert(v.stream_fin.contains_key(id));
                let pair = (&id, &v.stream_fin[id]);
                assert(walk.contains(pair));
                let j = choose|j: int| 0 <= j < walk.len() && walk[j] == pair;
                assert(*walk[j].0 == id);
            }
        }
        let ghost ids = fin_streams@;
        let mut events: Vec<WtEvent> = Vec::new();
        let mut i: usize = 0;
        while i < fin_streams.len()
            invariant
                fin_streams@ == ids,
                ids.no_duplicates(),
                forall|k: int| 0 <= k < ids.len() ==> #[trigger] v.end_pending(ids[k]),
                forall|id: u64| #[trigger] v.end_pending(id) ==> ids.contains(id),
                0 <= i <= ids.len(),
                events@.len() == i,
                forall|k: int| 0 <= k < i ==> #[trigger] events@[k] == finished_event(ids[k]),
                self@ == (WtServerView { finished_reported: marked_reported(v.finished_reported, ids.take(i as int)), ..v }),
            decreases ids.len() - i,
        {
            let sid = fin_streams[i];
            let ghost old_fr = self.finished_reported@;
            self.finished_reported.insert(sid, true);
            events.push(WtEvent::Finished { stream_id: sid });
            proof {
                let prev = ids.take(i as int);
                let next = ids.take(i + 1);
                assert(next =~= prev.push(sid));
                assert forall|id: u64| #[trigger] next.contains(id) == (prev.contains(id) || id == sid) by {
                    if prev.contains(id) {
                        let k = choose|k: int| 0 <= k < prev.len() && prev[k] == id;
                        assert(next[k] == id);
                    }
                    if id == sid {
                        assert(next[i as int] == id);
                    }
                    if next.contains(id) {
                        let k = choose|k: int| 0 <= k < next.len() && next[k] == id;
                        if k < i {
                            assert(prev[k] == id);
                        }
                    }
                }
                assert(self.finished_reported@ =~= marked_reported(v.finished_reported, ids.take(i + 1)));
            }
            i = i + 1;
        }
        proof {
            assert(ids.take(ids.len() as int) =~= ids);
            assert(self@.finished_reported =~= v.with_ends_reported().finished_reported);
            assert forall|id: u64| #[trigger] v.end_pending(id) implies events@.contains(finished_event(id)) by {
                let k = choose|k: int| 0 <= k < ids.len() && ids[k] == id;
                assert(events@[k] == finished_event(id));
            }
            assert forall|a: int, b: int| 0 <= a < b < events@.len() implies events@[a] != events@[b] by {
                assert(events@[a] == finished_event(ids[a]));
                assert(events@[b] == finished_event(ids[b]));
            }
            assert forall|k: int| 0 <= k < events@.len() implies v.reports_pending_end(#[trigger] events@[k]) by {
                assert(events@[k] == finished_event(ids[k]));
            }
        }
        events
    }

    /// The next free server stream id with residue `base` modulo 4: one past
    /// (by 4) the largest id with that residue that the server knows or that
    /// `used` lists, or `base` itself when there is none.
    fn next_free_stream_id(&self, base: u64, used: &[u64]) -> (id: u64)
        requires
            base == 1 || base == 3,
            !self@.streams.contains_key(overflow_id(base)),
            !used@.contains(overflow_id(base)),
        ensures
            is_next_id(self@.streams.dom().union(used@.to_set()), base, id),
    {
        let ghost dom = self@.streams.dom();
        let ghost all = dom.union(used@.to_set());
        let mut max_id: u64 = base;
        let ids = self.streams.keys();
        let ghost walk = vstd::std_specs::iter::IteratorSpec::remaining(
            &vstd::std_specs::hash::spec_keys_iter(&self.streams),
        );
        let ghost mut scanned: int = 0;
        for sid in it: ids
            invariant
                base == 1 || base == 3,
                !dom.contains(overflow_id(base)),
                dom == self@.streams.dom(),
                it.seq() == walk,
                walk.unref().to_set() == dom,
                scanned == it.index(),
                max_id % 4 == base,
                max_id >= base,
                max_id == base || dom.contains((max_id - 4) as u64),
                forall|j: int|
                    0 <= j < scanned && #[trigger] walk[j] % 4 == base ==> *walk[j] < max_id,
        {
            let ghost j0 = scanned;
            proof {
                assert(walk.unref()[j0] == *walk[j0]);
                assert(dom.contains(*sid));
            }
            if *sid % 4 == base && *sid >= max_id {
                max_id = *sid + 4;
            }
            proof {
                scanned = scanned + 1;
            }
        }
        proof {
            assert forall|k: u64| #[trigger] dom.contains(k) && k % 4 == base % 4 implies k < max_id by {
                assert(walk.unref().to_set().contains(k));
                let j = choose|j: int| 0 <= j < walk.unref().len() && walk.unref()[j] == k;
                assert(*walk[j] == k);
            }
        }
        let mut i: usize = 0;
        while i < used.len()
            invariant
                base == 1 || base == 3,
                !used@.contains(overflow_id(base)),
                0 <= i <= used@.len(),
                max_id % 4 == base,
                max_id >= base,
                max_id == base || dom.contains((max_id - 4) as u64) || used@.contains(
                    (max_id - 4) as u64,
                ),
                forall|k: u64| #[trigger] dom.contains(k) && k % 4 == base % 4 ==> k < max_id,
                forall|j: int| 0 <= j < i && #[trigger] used@[j] % 4 == base ==> used@[j] < max_id,
            decreases used@.len() - i,
        {
            let u = used[i];
            proof {
                assert(used@[i as int] == u);
            }
            if u % 4 == base && u >= max_id {
                max_id = u + 4;
            }
            i = i + 1;
        }
        proof {
            if max_id != base && !dom.contains((max_id - 4) as u64) {
                assert(used@.to_set().contains((max_id - 4) as u64));
            }
            assert forall|k: u64| #[trigger] all.contains(k) && k % 4 == base % 4 implies k < max_id by {
                if !dom.contains(k) {
                    assert(used@.to_set().contains(k));
                    let j = choose|j: int| 0 <= j < used@.len() && used@[j] == k;
                    assert(used@[j] % 4 == base);
                }
            }
        }
        max_id
    }

    /// The next server-initiated unidirectional stream id (3, 7, 11, ...):
    /// past every such id that the server knows or that `used` lists as
    /// taken on the connection.
    fn next_server_uni_stream_id(&self, used: &[u64]) -> (id: u64)
        requires
            !self@.streams.contains_key(overflow_id(3)),
            !used@.contains(overflow_id(3)),
        ensures
            is_next_id(self@.streams.dom().union(used@.to_set()), 3, id),
    {
        self.next_free_stream_id(3, used)
    }

    /// The next server-initiated bidirectional stream id (1, 5, 9, ...):
    /// past every such id that the server knows or that `used` lists as
    /// taken on the connection.
    fn next_server_bidi_stream_id(&self, used: &[u64]) -> (id: u64)
        requires
            !self@.streams.contains_key(overflow_id(1)),
            !used@.contains(overflow_id(1)),
        ensures
            is_next_id(self@.streams.dom().union(used@.to_set()), 1, id),
    {
        self.next_free_stream_id(1, used)
    }

    /// True when `used` lists `id`.
    fn lists_overflow_id(used: &[u64], id: u64) -> (res: bool)
        ensures
            res == used@.contains(id),
    {
        let mut i: usize = 0;
        while i < used.len()
            invariant
                0 <= i <= used@.len(),
                forall|j: int| 0 <= j < i ==> used@[j] != id,
            decreases used@.len() - i,
        {
            if used[i] == id {
                return true;
            }
            i = i + 1;
        }
        false
    }

    /// Chooses the id of a new server-initiated WebTransport stream of the
    /// session `session_id`, and the prefix to write first on it: the stream
    /// type (0x41 bidirectional, 0x54 unidirectional) and the session id, as
    /// variable-length integers.
    ///
    /// The server does not see the streams that the HTTP/3 layer opens on the
    /// connection (its control and QPACK streams 3, 7 and 11, and a GREASE
    /// stream), so the caller lists in `used` the ids that it found taken on
    /// the connection. The id chosen is past every server stream id of that
    /// direction that the server knows or that `used` lists, so it is neither.
    /// A caller that probes the chosen id on the connection, adds it to `used`
    /// when taken, and asks again, ends with the next id still free there.
    /// `None` when that id does not fit a `u64`: the largest such id is
    /// already known or listed.
    pub fn plan_open_stream(&self, bidi: bool, session_id: u64, used: &[u64]) -> (plan: Option<
        (u64, Vec<u8>),
    >)
        ensures
            plan is None <==> (self@.streams.contains_key(overflow_id(if bidi { 1 } else { 3 }))
                || used@.contains(overflow_id(if bidi { 1 } else { 3 }))),
            plan matches Some((id, prefix)) ==> {
                &&& is_next_id(
                    self@.streams.dom().union(used@.to_set()),
                    if bidi { 1 } else { 3 },
                    id,
                )
                &&& prefix@ == varint_encoding(stream_type(bidi)) + varint_encoding(session_id)
            },
    {
        let stream_id = if bidi {
            if self.streams.contains_key(&0xffff_ffff_ffff_fffd) || Self::lists_overflow_id(
                used,
                0xffff_ffff_ffff_fffd,
            ) {
                return None;
            }
            self.next_server_bidi_stream_id(used)
        } else {
            if self.streams.contains_key(&0xffff_ffff_ffff_ffff) || Self::lists_overflow_id(
                used,
                0xffff_ffff_ffff_ffff,
            ) {
                return None;
            }
            self.next_server_uni_stream_id(used)
        };
        let mut prefix: Vec<u8> = Vec::with_capacity(16);
        encode_varint(&mut prefix, if bidi { WT_STREAM_TYPE_BIDI } else { WT_STREAM_TYPE_UNI });
        encode_varint(&mut prefix, session_id);
        Some((stream_id, prefix))
    }

    /// True when the server has a record of stream `id`: it is classified,
    /// or its prefix is being read.
    pub fn knows_stream(&self, id: u64) -> (res: bool)
        ensures
            res == self@.streams.contains_key(id),
    {
        self.streams.contains_key(&id)
    }

    /// Records the outcome of writing the prefix on a stream chosen by
    /// `plan_open_stream`: on success the stream is a classified WebTransport
    /// stream of `session_id` and its id is returned; on failure the error
    /// message is returned and nothing changes. The stream must be one that
    /// the server has no record of, as `plan_open_stream` chooses them.
    pub fn finish_open_stream(
        &mut self,
        stream_id: u64,
        session_id: u64,
        bidi: bool,
        sent: Result<usize, String>,
    ) -> (res: Result<u64, String>)
        requires
            !old(self)@.streams.contains_key(stream_id),
        ensures
            sent is Ok ==> {
                &&& res == Ok::<u64, String>(stream_id)
                &&& final(self)@ == old(self)@.with_state(
                    stream_id,
                    StreamParseState::Ready { session_id, bidi },
                )
                &&& final(self)@ == apply_op(old(self)@, ServerOp::Opened(stream_id, session_id, bidi))
            },
            consistent(old(self)@) ==> consistent(final(self)@),
            sent matches Err(msg) ==> res == Err::<u64, String>(msg) && final(self)@ == old(self)@,
    {
        match sent {
            Ok(_) => {
                self.streams.insert(stream_id, StreamParseState::Ready { session_id, bidi });
                Ok(stream_id)
            },
            Err(msg) => Err(msg),
        }
    }
}

} // verus!
