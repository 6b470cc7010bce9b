//! One poll of the server, as a sequence of steps.
//!
//! A poll goes through three phases in order: the streams that the transport
//! reports readable (each is drained, has its prefix read, or is left to
//! HTTP/3), then the events of the HTTP/3 layer, then the ends of streams.
//! The poll says at each step what outside work its driver must do next (a
//! read, an HTTP/3 poll, a response), and takes the outcome of that work.
use crate::event::{H3Event, H3Step, PrefixStep, ReadableAction, WtEvent};
use crate::headers::{is_wt_connect, path_of};
use crate::laws::{
    keeps_stream,
    lemma_end_reported_at_most_once,
    lemma_run_keeps_consistent,
    run,
    run_allowed,
};
use crate::model::{consistent, finished_event, lemma_op_keeps_consistent};
use crate::server::{apply_op, ServerOp, WtServer, WtServerView};
use vstd::prelude::*;

verus! {

/// Where a poll stands.
#[derive(Clone, Copy, Debug, PartialEq, Eq)]
pub enum PollStage {
    /// Going through the readable streams.
    Streams,
    /// Reading the prefix of a stream.
    Prefix { stream_id: u64 },
    /// Draining a classified stream. `report` tells whether bytes read make a
    /// `Data` event (not so right after the stream was classified, where the
    /// `NewStream` event announces it); `got_data` whether bytes were read.
    Drain { stream_id: u64, report: bool, got_data: bool },
    /// Taking the events of the HTTP/3 layer.
    Http3,
    /// Waiting for the session-accepting response to be sent on the stream.
    Accepting { stream_id: u64 },
    /// Over.
    Done,
}

/// The outside work that a poll asks its driver to do next.
#[derive(Clone, Copy, Debug, PartialEq, Eq)]
pub enum PollAction {
    /// Read at most `len` bytes of the stream, then call `prefix_read`.
    ReadPrefix { stream_id: u64, len: usize },
    /// Read the next bytes of the stream, then call `drained` (or
    /// `drain_failed` when the read fails).
    Drain { stream_id: u64 },
    /// Poll the HTTP/3 layer, then call `h3_event` (or `h3_done` when it has
    /// no event left or fails).
    PollH3,
    /// Send the session-accepting response on the stream, then call `accepted`.
    Accept { stream_id: u64 },
    /// The poll is over; its events are in `into_events`.
    Done,
}

/// A poll in progress.
pub struct PollRun {
    readable: Vec<u64>,
    next: usize,
    stage: PollStage,
    events: Vec<WtEvent>,
}

/// The abstract state of a poll.
#[verifier::ext_equal]
pub struct PollRunView {
    /// The streams reported readable when the poll began.
    pub readable: Seq<u64>,
    /// How many of them were taken up.
    pub next: nat,
    pub stage: PollStage,
    /// The events produced so far, in order.
    pub events: Seq<WtEvent>,
}

impl View for PollRun {
    type V = PollRunView;

    closed spec fn view(&self) -> PollRunView {
        PollRunView {
            readable: self.readable@,
            next: self.next as nat,
            stage: self.stage,
            events: self.events@,
        }
    }
}

/// How many readable streams are left to take up.
pub open spec fn streams_left(r: PollRunView) -> nat {
    if r.next < r.readable.len() {
        (r.readable.len() - r.next) as nat
    } else {
        0
    }
}

/// The poll `r` in stage `st`.
pub open spec fn staged(r: PollRunView, st: PollStage) -> PollRunView {
    PollRunView { stage: st, ..r }
}

/// Goes on with the poll until it needs outside work: takes up readable
/// streams in order (a classified one is drained; one whose prefix is being
/// read, or that could be a WebTransport stream, has its prefix read; any
/// other is skipped), and polls the HTTP/3 layer once none is left.
pub open spec fn advance(r: PollRunView, v: WtServerView) -> (PollRunView, WtServerView, PollAction)
    decreases streams_left(r), if r.stage is Prefix {
        1int
    } else {
        0int
    },
{
    match r.stage {
        PollStage::Streams => {
            if r.next >= r.readable.len() {
                (staged(r, PollStage::Http3), v, PollAction::PollH3)
            } else {
                let id = r.readable[r.next as int];
                let r1 = PollRunView { next: r.next + 1, ..r };
                let (v1, act) = v.readable_outcome(id);
                match act {
                    ReadableAction::Drain => (
                        staged(r1, PollStage::Drain { stream_id: id, report: true, got_data: false }),
                        v1,
                        PollAction::Drain { stream_id: id },
                    ),
                    ReadableAction::ParsePrefix => advance(
                        staged(r1, PollStage::Prefix { stream_id: id }),
                        v1,
                    ),
                    ReadableAction::Skip => advance(r1, v1),
                }
            }
        },
        PollStage::Prefix { stream_id } => match v.prefix_want(stream_id) {
            Some(n) => (r, v, PollAction::ReadPrefix { stream_id, len: n as usize }),
            None => advance(staged(r, PollStage::Streams), v),
        },
        PollStage::Drain { stream_id, .. } => (r, v, PollAction::Drain { stream_id }),
        PollStage::Http3 => (r, v, PollAction::PollH3),
        PollStage::Accepting { stream_id } => (r, v, PollAction::Accept { stream_id }),
        PollStage::Done => (r, v, PollAction::Done),
    }
}

/// The poll and server after the prefix reader of the stream in stage
/// `Prefix` took `bytes`: on to the next stream unless more is needed; once
/// the stream is classified, its `NewStream` event is recorded and it is
/// drained without a `Data` event.
pub open spec fn prefix_taken(r: PollRunView, v: WtServerView, bytes: Seq<u8>) -> (
    PollRunView,
    WtServerView,
) {
    match r.stage {
        PollStage::Prefix { stream_id } => {
            let (v1, st) = v.prefix_outcome(stream_id, bytes);
            (
                match st {
                    PrefixStep::NeedMore => r,
                    PrefixStep::Classified(ev) => PollRunView {
                        stage: PollStage::Drain { stream_id, report: false, got_data: false },
                        events: r.events.push(ev),
                        ..r
                    },
                    _ => staged(r, PollStage::Streams),
                },
                v1,
            )
        },
        _ => (r, v),
    }
}

/// The poll and server after a read of `data` (and of the FIN when `fin`)
/// while draining: drained on while bytes keep coming and no FIN was seen.
pub open spec fn drain_taken(r: PollRunView, v: WtServerView, data: Seq<u8>, fin: bool) -> (
    PollRunView,
    WtServerView,
) {
    match r.stage {
        PollStage::Drain { stream_id, report, got_data } => {
            let got = got_data || data.len() > 0;
            let more = v.is_classified(stream_id) && !fin && data.len() > 0;
            (
                if more {
                    staged(r, PollStage::Drain { stream_id, report, got_data: got })
                } else {
                    drain_ended(r, stream_id, report, got)
                },
                apply_op(v, ServerOp::Received(stream_id, data, fin)),
            )
        },
        _ => (r, v),
    }
}

/// The poll after a failed read while draining: the drain ends.
pub open spec fn drain_stopped(r: PollRunView) -> PollRunView {
    match r.stage {
        PollStage::Drain { stream_id, report, got_data } => drain_ended(
            r,
            stream_id,
            report,
            got_data,
        ),
        _ => r,
    }
}

/// The poll after the reaction `step` to an HTTP/3 event: the event it
/// reports is recorded, and a session to accept is accepted first.
pub open spec fn h3_taken(r: PollRunView, id: u64, step: H3Step) -> PollRunView {
    match step {
        H3Step::Ignore => r,
        H3Step::Forward(e) => PollRunView { events: r.events.push(e), ..r },
        H3Step::AcceptSession(e) => PollRunView {
            stage: PollStage::Accepting { stream_id: id },
            events: r.events.push(e),
            ..r
        },
    }
}

/// The poll after the ends `ends` were reported: they follow every event
/// produced before, and the poll is over.
pub open spec fn ends_taken(r: PollRunView, ends: Seq<WtEvent>) -> PollRunView {
    PollRunView { stage: PollStage::Done, events: r.events + ends, ..r }
}

/// True when the poll `r2` with the server `v2` is where `advance` takes the
/// poll `r1` with the server `v1`.
pub open spec fn settles(r1: PollRunView, v1: WtServerView, r2: PollRunView, v2: WtServerView) -> bool {
    r2 == advance(r1, v1).0 && v2 == advance(r1, v1).1
}

/// True when one step of a poll takes the poll `r` with the server `v` to the
/// poll `r2` with the server `v2`, whatever the outside work gave: going on
/// (`step`), a prefix read, a read or failed read while draining, an event
/// or the end of the HTTP/3 layer, or the sending of a response.
pub open spec fn poll_step(r: PollRunView, v: WtServerView, r2: PollRunView, v2: WtServerView) -> bool {
    ||| settles(r, v, r2, v2)
    ||| exists|b: Seq<u8>|
        settles(#[trigger] prefix_taken(r, v, b).0, prefix_taken(r, v, b).1, r2, v2)
    ||| exists|d: Seq<u8>, f: bool|
        settles(#[trigger] drain_taken(r, v, d, f).0, drain_taken(r, v, d, f).1, r2, v2)
    ||| settles(drain_stopped(r), v, r2, v2)
    ||| r.stage is Http3 && exists|id: u64, ev: H3Event, st: H3Step|
        #[trigger] v.h3_reaction(id, ev, st) && r2 == h3_taken(r, id, st) && v2 == v.h3_state(id, ev)
    ||| r.stage is Http3 && exists|ends: Seq<WtEvent>|
        #[trigger] v.reports_ends(ends) && r2 == ends_taken(r, ends) && v2 == v.with_ends_reported()
    ||| r.stage is Accepting && r2 == staged(r, PollStage::Http3) && v2 == v
}

/// True when the poll took up every readable stream before it reached the
/// HTTP/3 layer.
pub open spec fn phase_order(r: PollRunView) -> bool {
    (r.stage is Http3 || r.stage is Accepting || r.stage is Done) ==> r.next >= r.readable.len()
}


/// The poll after the drain of `id` ended: a `Data` event when `report` and
/// bytes were read, and back to the readable streams.
pub open spec fn drain_ended(r: PollRunView, id: u64, report: bool, got_data: bool) -> PollRunView {
    PollRunView {
        stage: PollStage::Streams,
        events: if report && got_data {
            r.events.push(WtEvent::Data { stream_id: id })
        } else {
            r.events
        },
        ..r
    }
}

impl PollRun {
    /// A poll of the streams `readable` (as the transport reports them), in
    /// that order.
    pub fn new(readable: Vec<u64>) -> (r: PollRun)
        ensures
            r@.readable == readable@,
            r@.next == 0,
            r@.stage == PollStage::Streams,
            r@.events == Seq::<WtEvent>::empty(),
    {
        PollRun { readable, next: 0, stage: PollStage::Streams, events: Vec::new() }
    }

    /// The events of the poll, in the order they were produced.
    pub fn into_events(self) -> (events: Vec<WtEvent>)
        ensures
            events@ == self@.events,
    {
        self.events
    }

    /// Goes on until outside work is needed (see `advance`).
    pub fn step(&mut self, server: &mut WtServer) -> (action: PollAction)
        ensures
            final(self)@ == advance(old(self)@, old(server)@).0,
            final(server)@ == advance(old(self)@, old(server)@).1,
            action == advance(old(self)@, old(server)@).2,
            poll_step(old(self)@, old(server)@, final(self)@, final(server)@),
    {
        loop
            invariant
                advance(self@, server@) == advance(old(self)@, old(server)@),
            decreases streams_left(self@), if self@.stage is Prefix {
                1int
            } else {
                0int
            },
        {
            match self.stage {
                PollStage::Streams => {
                    if self.next >= self.readable.len() {
                        self.stage = PollStage::Http3;
                        return PollAction::PollH3;
                    }
                    let id = self.readable[self.next];
                    self.next = self.next + 1;
                    match server.on_readable(id) {
                        ReadableAction::Drain => {
                            self.stage = PollStage::Drain { stream_id: id, report: true, got_data: false };
                            return PollAction::Drain { stream_id: id };
                        },
                        ReadableAction::ParsePrefix => {
                            self.stage = PollStage::Prefix { stream_id: id };
                        },
                        ReadableAction::Skip => {},
                    }
                },
                PollStage::Prefix { stream_id } => {
                    match server.prefix_read_len(stream_id) {
                        Some(n) => {
                            return PollAction::ReadPrefix { stream_id, len: n };
                        },
                        None => {
                            self.stage = PollStage::Streams;
                        },
                    }
                },
                PollStage::Drain { stream_id, .. } => {
                    return PollAction::Drain { stream_id };
                },
                PollStage::Http3 => {
                    return PollAction::PollH3;
                },
                PollStage::Accepting { stream_id } => {
                    return PollAction::Accept { stream_id };
                },
                PollStage::Done => {
                    return PollAction::Done;
                },
            }
        }
    }

    /// Takes the bytes read for the prefix of the stream in stage `Prefix`
    /// (empty when the read gave nothing or failed), and goes on.
    pub fn prefix_read(&mut self, server: &mut WtServer, bytes: &[u8]) -> (action: PollAction)
        ensures
            ({
                let (r1, v1) = prefix_taken(old(self)@, old(server)@, bytes@);
                &&& final(self)@ == advance(r1, v1).0
                &&& final(server)@ == advance(r1, v1).1
                &&& action == advance(r1, v1).2
            }),
            poll_step(old(self)@, old(server)@, final(self)@, final(server)@),
    {
        match self.stage {
            PollStage::Prefix { stream_id } => {
                match server.try_parse_prefix(stream_id, bytes) {
                    PrefixStep::NeedMore => {},
                    PrefixStep::Classified(ev) => {
                        self.events.push(ev);
                        self.stage = PollStage::Drain { stream_id, report: false, got_data: false };
                    },
                    _ => {
                        self.stage = PollStage::Streams;
                    },
                }
            },
            _ => {},
        }
        self.step(server)
    }

    /// Takes a read of `data` (and the FIN when `fin`) from the stream being
    /// drained, and goes on.
    pub fn drained(&mut self, server: &mut WtServer, data: &[u8], fin: bool) -> (action: PollAction)
        ensures
            ({
                let (r1, v1) = drain_taken(old(self)@, old(server)@, data@, fin);
                &&& final(self)@ == advance(r1, v1).0
                &&& final(server)@ == advance(r1, v1).1
                &&& action == advance(r1, v1).2
            }),
            poll_step(old(self)@, old(server)@, final(self)@, final(server)@),
    {
        match self.stage {
            PollStage::Drain { stream_id, report, got_data } => {
                let more = server.on_stream_data(stream_id, data, fin);
                let got = got_data || data.len() > 0;
                if more {
                    self.stage = PollStage::Drain { stream_id, report, got_data: got };
                } else {
                    self.end_drain(stream_id, report, got);
                }
            },
            _ => {},
        }
        self.step(server)
    }

    /// Takes a failed read from the stream being drained: the drain ends.
    pub fn drain_failed(&mut self, server: &mut WtServer) -> (action: PollAction)
        ensures
            final(self)@ == advance(drain_stopped(old(self)@), old(server)@).0,
            final(server)@ == advance(drain_stopped(old(self)@), old(server)@).1,
            action == advance(drain_stopped(old(self)@), old(server)@).2,
            poll_step(old(self)@, old(server)@, final(self)@, final(server)@),
    {
        match self.stage {
            PollStage::Drain { stream_id, report, got_data } => {
                self.end_drain(stream_id, report, got_data);
            },
            _ => {},
        }
        self.step(server)
    }

    fn end_drain(&mut self, stream_id: u64, report: bool, got_data: bool)
        ensures
            final(self)@ == drain_ended(old(self)@, stream_id, report, got_data),
    {
        if report && got_data {
            self.events.push(WtEvent::Data { stream_id });
        }
        self.stage = PollStage::Streams;
    }

    /// Takes an event of the HTTP/3 layer on stream `stream_id`, and goes on.
    pub fn h3_event(&mut self, server: &mut WtServer, stream_id: u64, event: H3Event) -> (action:
        PollAction)
        ensures
            !(old(self)@.stage is Http3) ==> {
                &&& final(self)@ == advance(old(self)@, old(server)@).0
                &&& final(server)@ == advance(old(self)@, old(server)@).1
                &&& action == advance(old(self)@, old(server)@).2
            },
            old(self)@.stage is Http3 ==> exists|step: H3Step|
                {
                    &&& old(server)@.h3_reaction(stream_id, event, step)
                    &&& final(self)@ == h3_taken(old(self)@, stream_id, step)
                    &&& final(server)@ == old(server)@.h3_state(stream_id, event)
                    &&& action == advance(h3_taken(old(self)@, stream_id, step), final(server)@).2
                },
            poll_step(old(self)@, old(server)@, final(self)@, final(server)@),
    {
        match self.stage {
            PollStage::Http3 => {},
            _ => {
                return self.step(server);
            },
        }
        let step = server.on_h3_event(stream_id, event);
        let ghost taken = step;
        match step {
            H3Step::Ignore => {},
            H3Step::Forward(e) => {
                self.events.push(e);
            },
            H3Step::AcceptSession(e) => {
                self.events.push(e);
                self.stage = PollStage::Accepting { stream_id };
            },
        }
        assert(self@ == h3_taken(old(self)@, stream_id, taken));
        self.step(server)
    }

    /// Takes the end of the HTTP/3 layer's events: the ends of streams that
    /// are due are reported, and the poll is over.
    pub fn h3_done(&mut self, server: &mut WtServer) -> (action: PollAction)
        ensures
            !(old(self)@.stage is Http3) ==> {
                &&& final(self)@ == advance(old(self)@, old(server)@).0
                &&& final(server)@ == advance(old(self)@, old(server)@).1
                &&& action == advance(old(self)@, old(server)@).2
            },
            old(self)@.stage is Http3 ==> {
                &&& final(server)@ == old(server)@.with_ends_reported()
                &&& exists|ends: Seq<WtEvent>|
                    {
                        &&& old(server)@.reports_ends(ends)
                        &&& final(self)@ == ends_taken(old(self)@, ends)
                    }
                &&& action == PollAction::Done
            },
            poll_step(old(self)@, old(server)@, final(self)@, final(server)@),
    {
        match self.stage {
            PollStage::Http3 => {},
            _ => {
                return self.step(server);
            },
        }
        let mut ends = server.take_finished();
        let ghost before = self.events@;
        let ghost reported = ends@;
        self.events.append(&mut ends);
        self.stage = PollStage::Done;
        assert(self@ =~= ends_taken(old(self)@, reported));
        PollAction::Done
    }

    /// Takes the sending of the session-accepting response (whatever its
    /// outcome), and goes on with the HTTP/3 layer.
    pub fn accepted(&mut self, server: &mut WtServer) -> (action: PollAction)
        ensures
            old(self)@.stage is Accepting ==> {
                &&& final(self)@ == staged(old(self)@, PollStage::Http3)
                &&& final(server)@ == old(server)@
                &&& action == PollAction::PollH3
            },
            !(old(self)@.stage is Accepting) ==> {
                &&& final(self)@ == advance(old(self)@, old(server)@).0
                &&& final(server)@ == advance(old(self)@, old(server)@).1
                &&& action == advance(old(self)@, old(server)@).2
            },
            poll_step(old(self)@, old(server)@, final(self)@, final(server)@),
    {
        match self.stage {
            PollStage::Accepting { .. } => {
                self.stage = PollStage::Http3;
                return PollAction::PollH3;
            },
            _ => {},
        }
        self.step(server)
    }
}

/// The poll takes up every readable stream before it touches the HTTP/3
/// layer, and once there it asks for no more stream reads: whatever comes
/// in, the order of the phases is kept.
pub proof fn lemma_phase_order(r: PollRunView, v: WtServerView)
    requires
        phase_order(r),
    ensures
        phase_order(advance(r, v).0),
        advance(r, v).0.readable == r.readable,
        (advance(r, v).2 is PollH3 || advance(r, v).2 is Accept || advance(r, v).2 is Done)
            ==> advance(r, v).0.next >= r.readable.len(),
        (r.stage is Http3 || r.stage is Accepting || r.stage is Done) ==> !(advance(
            r,
            v,
        ).2 is ReadPrefix) && !(advance(r, v).2 is Drain),
    decreases streams_left(r), if r.stage is Prefix {
        1int
    } else {
        0int
    },
{
    match r.stage {
        PollStage::Streams => {
            if r.next < r.readable.len() {
                let id = r.readable[r.next as int];
                let r1 = PollRunView { next: r.next + 1, ..r };
                let (v1, act) = v.readable_outcome(id);
                match act {
                    ReadableAction::ParsePrefix => lemma_phase_order(
                        staged(r1, PollStage::Prefix { stream_id: id }),
                        v1,
                    ),
                    ReadableAction::Skip => lemma_phase_order(r1, v1),
                    _ => {},
                }
            }
        },
        PollStage::Prefix { stream_id } => {
            if v.prefix_want(stream_id) is None {
                lemma_phase_order(staged(r, PollStage::Streams), v);
            }
        },
        _ => {},
    }
}

/// Every step of the poll keeps the order of its phases.
pub proof fn lemma_steps_keep_phase_order(
    r: PollRunView,
    v: WtServerView,
    bytes: Seq<u8>,
    data: Seq<u8>,
    fin: bool,
    id: u64,
    step: H3Step,
)
    requires
        phase_order(r),
    ensures
        phase_order(prefix_taken(r, v, bytes).0),
        phase_order(drain_taken(r, v, data, fin).0),
        phase_order(drain_stopped(r)),
        r.stage is Http3 ==> phase_order(h3_taken(r, id, step)),
        r.stage is Accepting ==> phase_order(staged(r, PollStage::Http3)),
{
}


/// The phase of a poll that an event belongs to: the readable streams (0),
/// the HTTP/3 layer (1), or the ends of streams (2).
pub open spec fn event_phase(e: WtEvent) -> int {
    match e {
        WtEvent::NewStream { .. } => 0,
        WtEvent::Data { .. } => 0,
        WtEvent::Finished { .. } => 2,
        _ => 1,
    }
}

/// The phase of a poll that a stage belongs to.
pub open spec fn stage_phase(st: PollStage) -> int {
    match st {
        PollStage::Http3 => 1,
        PollStage::Accepting { .. } => 1,
        PollStage::Done => 2,
        _ => 0,
    }
}

/// The stream that an event of the HTTP/3 layer is about; `None` for the
/// events of the readable streams and the ends.
pub open spec fn h3_event_stream(e: WtEvent) -> Option<u64> {
    match e {
        WtEvent::NewSession { session_id, .. } => Some(session_id),
        WtEvent::H3Headers { stream_id, .. } => Some(stream_id),
        WtEvent::H3Data { stream_id } => Some(stream_id),
        WtEvent::H3Finished { stream_id } => Some(stream_id),
        _ => None,
    }
}

/// True when the events of the readable streams come first, then those of
/// the HTTP/3 layer, then the ends of streams.
pub open spec fn in_phase_order(events: Seq<WtEvent>) -> bool {
    forall|i: int, j: int|
        #![trigger events[i], events[j]]
        0 <= i <= j < events.len() ==> event_phase(events[i]) <= event_phase(events[j])
}

/// True when `events` report the end of stream `s`.
pub open spec fn finished_in(events: Seq<WtEvent>, s: u64) -> bool {
    events.contains(finished_event(s))
}

/// True when `a` is the beginning of `b`.
pub open spec fn begins(a: Seq<WtEvent>, b: Seq<WtEvent>) -> bool {
    a.len() <= b.len() && b.take(a.len() as int) == a
}

/// What a poll that is over reports of the ends of streams, `v0` being the
/// server when the poll began and `v` the server now: the end of a stream is
/// reported exactly when it was not reported before the poll and the stream's
/// FIN was reached; a reported end is that of a classified stream, and is
/// now marked reported; no end is reported twice.
pub open spec fn ends_as_due(v0: WtServerView, events: Seq<WtEvent>, v: WtServerView) -> bool {
    &&& forall|s: u64| #[trigger]
        finished_in(events, s) <==> (!v0.end_reported(s) && v.fin_reached(s))
    &&& forall|s: u64| #[trigger] finished_in(events, s) ==> v.end_reported(s) && v.is_classified(s)
    &&& forall|i: int, j: int|
        #![trigger events[i], events[j]]
        0 <= i < j < events.len() && events[i] is Finished ==> events[j] != events[i]
}

/// True when the poll `rs[i + 1]` with the server `vs[i + 1]` follows from the
/// poll `rs[i]` with the server `vs[i]` by one step.
pub open spec fn trace_link(rs: Seq<PollRunView>, vs: Seq<WtServerView>, i: int) -> bool {
    poll_step(rs[i], vs[i], rs[i + 1], vs[i + 1])
}

/// True when `rs` and `vs` are the successive states of a poll and of its
/// server, each pair following from the one before by one step.
pub open spec fn poll_trace(rs: Seq<PollRunView>, vs: Seq<WtServerView>) -> bool {
    &&& rs.len() > 0
    &&& vs.len() == rs.len()
    &&& forall|i: int| 0 <= i < rs.len() - 1 ==> #[trigger] trace_link(rs, vs, i)
}

/// What holds at every point of a poll that began with the server `v0`.
spec fn poll_inv(v0: WtServerView, r: PollRunView, v: WtServerView) -> bool {
    &&& consistent(v)
    &&& in_phase_order(r.events)
    &&& forall|i: int|
        0 <= i < r.events.len() ==> event_phase(#[trigger] r.events[i]) <= stage_phase(r.stage)
    &&& forall|i: int|
        0 <= i < r.events.len() && h3_event_stream(#[trigger] r.events[i]) is Some
            ==> !v.is_classified(h3_event_stream(r.events[i]).unwrap())
    &&& !(r.stage is Done) ==> v.finished_reported == v0.finished_reported
    &&& r.stage is Done ==> ends_as_due(v0, r.events, v)
}

proof fn lemma_begins_trans(a: Seq<WtEvent>, b: Seq<WtEvent>, c: Seq<WtEvent>)
    requires
        begins(a, b),
        begins(b, c),
    ensures
        begins(a, c),
{
    assert(c.take(a.len() as int) =~= c.take(b.len() as int).take(a.len() as int));
}

proof fn lemma_begins_refl(a: Seq<WtEvent>)
    ensures
        begins(a, a),
{
    assert(a.take(a.len() as int) =~= a);
}

proof fn lemma_begins_push(a: Seq<WtEvent>, e: WtEvent)
    ensures
        begins(a, a.push(e)),
{
    assert(a.push(e).take(a.len() as int) =~= a);
}

proof fn lemma_advance_keeps(v0: WtServerView, r: PollRunView, v: WtServerView)
    requires
        poll_inv(v0, r, v),
    ensures
        poll_inv(v0, advance(r, v).0, advance(r, v).1),
        advance(r, v).0.events == r.events,
    decreases streams_left(r), if r.stage is Prefix {
        1int
    } else {
        0int
    },
{
    match r.stage {
        PollStage::Streams => {
            if r.next < r.readable.len() {
                let id = r.readable[r.next as int];
                let r1 = PollRunView { next: r.next + 1, ..r };
                let (v1, act) = v.readable_outcome(id);
                lemma_op_keeps_consistent(v, ServerOp::Readable(id));
                assert(poll_inv(v0, r1, v1));
                match act {
                    ReadableAction::ParsePrefix => {
                        lemma_advance_keeps(v0, staged(r1, PollStage::Prefix { stream_id: id }), v1);
                    },
                    ReadableAction::Skip => {
                        lemma_advance_keeps(v0, r1, v1);
                    },
                    _ => {},
                }
            }
        },
        PollStage::Prefix { stream_id } => {
            if v.prefix_want(stream_id) is None {
                lemma_advance_keeps(v0, staged(r, PollStage::Streams), v);
            }
        },
        _ => {},
    }
}

proof fn lemma_prefix_taken_keeps(v0: WtServerView, r: PollRunView, v: WtServerView, b: Seq<u8>)
    requires
        poll_inv(v0, r, v),
    ensures
        poll_inv(v0, prefix_taken(r, v, b).0, prefix_taken(r, v, b).1),
        begins(r.events, prefix_taken(r, v, b).0.events),
{
    lemma_begins_refl(r.events);
    match r.stage {
        PollStage::Prefix { stream_id } => {
            lemma_op_keeps_consistent(v, ServerOp::Prefix(stream_id, b));
            let (v1, st) = v.prefix_outcome(stream_id, b);
            match st {
                PrefixStep::Classified(ev) => {
                    assert(ev is NewStream);
                    lemma_begins_push(r.events, ev);
                    let e2 = r.events.push(ev);
                    assert forall|i: int| 0 <= i < e2.len() implies event_phase(#[trigger] e2[i])
                        <= 0 by {
                        if i < r.events.len() {
                            assert(e2[i] == r.events[i]);
                        }
                    }
                },
                _ => {},
            }
        },
        _ => {},
    }
}

proof fn lemma_drain_taken_keeps(
    v0: WtServerView,
    r: PollRunView,
    v: WtServerView,
    d: Seq<u8>,
    f: bool,
)
    requires
        poll_inv(v0, r, v),
    ensures
        poll_inv(v0, drain_taken(r, v, d, f).0, drain_taken(r, v, d, f).1),
        poll_inv(v0, drain_stopped(r), v),
        begins(r.events, drain_taken(r, v, d, f).0.events),
        begins(r.events, drain_stopped(r).events),
{
    match r.stage {
        PollStage::Drain { stream_id, report, got_data } => {
            lemma_op_keeps_consistent(v, ServerOp::Received(stream_id, d, f));
            lemma_begins_refl(r.events);
            let e = WtEvent::Data { stream_id };
            lemma_begins_push(r.events, e);
            let e2 = r.events.push(e);
            assert forall|i: int| 0 <= i < e2.len() implies event_phase(#[trigger] e2[i]) <= 0 by {
                if i < r.events.len() {
                    assert(e2[i] == r.events[i]);
                }
            }
        },
        _ => {
            lemma_begins_refl(r.events);
        },
    }
}

proof fn lemma_h3_taken_keeps(
    v0: WtServerView,
    r: PollRunView,
    v: WtServerView,
    id: u64,
    ev: H3Event,
    st: H3Step,
)
    requires
        poll_inv(v0, r, v),
        r.stage is Http3,
        v.h3_reaction(id, ev, st),
    ensures
        poll_inv(v0, h3_taken(r, id, st), v.h3_state(id, ev)),
        begins(r.events, h3_taken(r, id, st).events),
{
    lemma_op_keeps_consistent(v, ServerOp::H3(id, ev));
    let v2 = v.h3_state(id, ev);
    assert(v2.streams == v.streams);
    lemma_begins_refl(r.events);
    match st {
        H3Step::Ignore => {},
        H3Step::Forward(e) => {
            assert(event_phase(e) == 1 && h3_event_stream(e) == Some(id) && !v.is_classified(id));
            lemma_begins_push(r.events, e);
            let e2 = r.events.push(e);
            assert forall|i: int| 0 <= i < e2.len() implies event_phase(#[trigger] e2[i]) <= 1 by {
                if i < r.events.len() {
                    assert(e2[i] == r.events[i]);
                }
            }
        },
        H3Step::AcceptSession(e) => {
            assert(event_phase(e) == 1 && h3_event_stream(e) == Some(id) && !v.is_classified(id));
            lemma_begins_push(r.events, e);
            let e2 = r.events.push(e);
            assert forall|i: int| 0 <= i < e2.len() implies event_phase(#[trigger] e2[i]) <= 1 by {
                if i < r.events.len() {
                    assert(e2[i] == r.events[i]);
                }
            }
        },
    }
}

proof fn lemma_ends_taken_keeps(v0: WtServerView, r: PollRunView, v: WtServerView, ends: Seq<WtEvent>)
    requires
        poll_inv(v0, r, v),
        r.stage is Http3,
        v.reports_ends(ends),
    ensures
        poll_inv(v0, ends_taken(r, ends), v.with_ends_reported()),
        begins(r.events, ends_taken(r, ends).events),
{
    let r2 = ends_taken(r, ends);
    let v2 = v.with_ends_reported();
    let n = r.events.len() as int;
    let es = r2.events;
    lemma_op_keeps_consistent(v, ServerOp::TakeFinished);
    assert(es.take(n) =~= r.events);
    assert forall|k: int| 0 <= k < es.len() implies (if k < n {
        #[trigger] es[k] == r.events[k]
    } else {
        es[k] == ends[k - n] && v.reports_pending_end(ends[k - n]) && es[k] is Finished
    }) by {
        if k >= n {
            assert(v.reports_pending_end(ends[k - n]));
        }
    }
    assert forall|i: int, j: int| 0 <= i <= j < es.len() implies event_phase(#[trigger] es[i])
        <= event_phase(#[trigger] es[j]) by {
        if j < n {
            assert(r.events[i] == es[i] && r.events[j] == es[j]);
        } else if i < n {
            assert(event_phase(r.events[i]) <= 1);
        }
    }
    assert forall|i: int| 0 <= i < es.len() && h3_event_stream(#[trigger] es[i]) is Some implies !v2.is_classified(
        h3_event_stream(es[i]).unwrap(),
    ) by {
        assert(i < n);
        assert(es[i] == r.events[i]);
    }
    assert forall|s: u64| #[trigger] finished_in(es, s) implies finished_from(es, n, s) by {
        let k = choose|k: int| 0 <= k < es.len() && es[k] == finished_event(s);
        if k < n {
            assert(event_phase(r.events[k]) <= 1);
        }
    }
    assert forall|s: u64| #[trigger]
        finished_in(es, s) <==> (!v0.end_reported(s) && v2.fin_reached(s)) by {
        if finished_in(es, s) {
            let k = choose|k: int| n <= k < es.len() && es[k] == finished_event(s);
            assert(v.reports_pending_end(ends[k - n]));
        }
        if !v0.end_reported(s) && v2.fin_reached(s) {
            assert(v.end_pending(s));
            assert(ends.contains(finished_event(s)));
            let k = choose|k: int| 0 <= k < ends.len() && ends[k] == finished_event(s);
            assert(es[n + k] == finished_event(s));
        }
    }
    assert forall|s: u64| #[trigger] finished_in(es, s) implies v2.end_reported(s)
        && v2.is_classified(s) by {
        let k = choose|k: int| n <= k < es.len() && es[k] == finished_event(s);
        assert(v.reports_pending_end(ends[k - n]));
        assert(v.stream_fin.contains_key(s));
    }
    assert forall|i: int, j: int|
        #![trigger es[i], es[j]]
        0 <= i < j < es.len() && es[i] is Finished implies es[j] != es[i] by {
        if es[j] == es[i] {
            if i < n {
                assert(event_phase(r.events[i]) <= 1);
            }
            assert(ends[i - n] == ends[j - n]);
        }
    }
}

/// True when the end of `s` is reported in `es` at an index of at least `n`.
spec fn finished_from(es: Seq<WtEvent>, n: int, s: u64) -> bool {
    exists|k: int| n <= k < es.len() && es[k] == finished_event(s)
}

proof fn lemma_step_keeps(
    v0: WtServerView,
    r: PollRunView,
    v: WtServerView,
    r2: PollRunView,
    v2: WtServerView,
)
    requires
        poll_inv(v0, r, v),
        poll_step(r, v, r2, v2),
    ensures
        poll_inv(v0, r2, v2),
        begins(r.events, r2.events),
{
    lemma_begins_refl(r.events);
    if settles(r, v, r2, v2) {
        lemma_advance_keeps(v0, r, v);
    } else if exists|b: Seq<u8>|
        settles(#[trigger] prefix_taken(r, v, b).0, prefix_taken(r, v, b).1, r2, v2) {
        let b = choose|b: Seq<u8>|
            settles(#[trigger] prefix_taken(r, v, b).0, prefix_taken(r, v, b).1, r2, v2);
        lemma_prefix_taken_keeps(v0, r, v, b);
        lemma_advance_keeps(v0, prefix_taken(r, v, b).0, prefix_taken(r, v, b).1);
    } else if exists|d: Seq<u8>, f: bool|
        settles(#[trigger] drain_taken(r, v, d, f).0, drain_taken(r, v, d, f).1, r2, v2) {
        let (d, f) = choose|d: Seq<u8>, f: bool|
            settles(#[trigger] drain_taken(r, v, d, f).0, drain_taken(r, v, d, f).1, r2, v2);
        lemma_drain_taken_keeps(v0, r, v, d, f);
        lemma_advance_keeps(v0, drain_taken(r, v, d, f).0, drain_taken(r, v, d, f).1);
    } else if settles(drain_stopped(r), v, r2, v2) {
        lemma_drain_taken_keeps(v0, r, v, Seq::empty(), false);
        lemma_advance_keeps(v0, drain_stopped(r), v);
    } else if r.stage is Http3 && exists|id: u64, ev: H3Event, st: H3Step|
        #[trigger] v.h3_reaction(id, ev, st) && r2 == h3_taken(r, id, st) && v2 == v.h3_state(
            id,
            ev,
        ) {
        let (id, ev, st) = choose|id: u64, ev: H3Event, st: H3Step|
            #[trigger] v.h3_reaction(id, ev, st) && r2 == h3_taken(r, id, st) && v2 == v.h3_state(
                id,
                ev,
            );
        lemma_h3_taken_keeps(v0, r, v, id, ev, st);
    } else if r.stage is Http3 && exists|ends: Seq<WtEvent>|
        #[trigger] v.reports_ends(ends) && r2 == ends_taken(r, ends) && v2 == v.with_ends_reported() {
        let ends = choose|ends: Seq<WtEvent>|
            #[trigger] v.reports_ends(ends) && r2 == ends_taken(r, ends) && v2
                == v.with_ends_reported();
        lemma_ends_taken_keeps(v0, r, v, ends);
    } else {
        assert(r2 == staged(r, PollStage::Http3) && v2 == v);
    }
}

proof fn lemma_trace_upto(rs: Seq<PollRunView>, vs: Seq<WtServerView>, k: int)
    requires
        poll_trace(rs, vs),
        0 <= k < rs.len(),
        rs[0].stage == PollStage::Streams,
        rs[0].events.len() == 0,
        consistent(vs[0]),
    ensures
        poll_inv(vs[0], rs[k], vs[k]),
        forall|i: int| 0 <= i <= k ==> #[trigger] begins(rs[i].events, rs[k].events),
    decreases k,
{
    if k == 0 {
        lemma_begins_refl(rs[0].events);
    } else {
        lemma_trace_upto(rs, vs, k - 1);
        assert(trace_link(rs, vs, k - 1));
        lemma_step_keeps(vs[0], rs[k - 1], vs[k - 1], rs[k], vs[k]);
        lemma_begins_refl(rs[k].events);
        assert forall|i: int| 0 <= i <= k implies #[trigger] begins(rs[i].events, rs[k].events) by {
            if i < k {
                assert(begins(rs[i].events, rs[k - 1].events));
                lemma_begins_trans(rs[i].events, rs[k - 1].events, rs[k].events);
            }
        }
    }
}

/// Over a whole poll, begun by `PollRun::new` with a consistent server and
/// driven one step at a time whatever the outside work gives:
/// - the server stays consistent;
/// - every event made on the way stays in the poll's events, where it was;
/// - the events of the readable streams come first, then those of the HTTP/3
///   layer, then the ends of streams;
/// - no event of the HTTP/3 layer is about a classified WebTransport stream;
/// - no end is reported before the poll is over;
/// - once it is over, the end of a stream is reported exactly when it was
///   not reported before the poll and the stream's FIN was reached, at most
///   once, and only for a classified stream, which is then marked reported.
pub proof fn lemma_whole_poll(rs: Seq<PollRunView>, vs: Seq<WtServerView>)
    requires
        poll_trace(rs, vs),
        rs[0].stage == PollStage::Streams,
        rs[0].events.len() == 0,
        consistent(vs[0]),
    ensures
        consistent(vs.last()),
        forall|i: int| 0 <= i < rs.len() ==> #[trigger] begins(rs[i].events, rs.last().events),
        in_phase_order(rs.last().events),
        forall|i: int|
            0 <= i < rs.last().events.len() && h3_event_stream(#[trigger] rs.last().events[i]) is Some
                ==> vs.last().session_of(h3_event_stream(rs.last().events[i]).unwrap()) is None,
        !(rs.last().stage is Done) ==> forall|s: u64| !#[trigger] finished_in(rs.last().events, s),
        rs.last().stage is Done ==> ends_as_due(vs[0], rs.last().events, vs.last()),
{
    let k = rs.len() - 1;
    lemma_trace_upto(rs, vs, k);
    let r = rs[k];
    let v = vs[k];
    assert forall|i: int|
        0 <= i < r.events.len() && h3_event_stream(#[trigger] r.events[i]) is Some implies v.session_of(
        h3_event_stream(r.events[i]).unwrap(),
    ) is None by {
        assert(!v.is_classified(h3_event_stream(r.events[i]).unwrap()));
    }
    if !(r.stage is Done) {
        assert forall|s: u64| !#[trigger] finished_in(r.events, s) by {
            if finished_in(r.events, s) {
                let j = choose|j: int| 0 <= j < r.events.len() && r.events[j] == finished_event(s);
                assert(event_phase(r.events[j]) <= stage_phase(r.stage));
            }
        }
    }
}

/// The end of a stream is reported by at most one of two polls, whatever
/// operations that do not forget the stream come between them.
pub proof fn lemma_end_reported_once_across_polls(
    rs1: Seq<PollRunView>,
    vs1: Seq<WtServerView>,
    ops: Seq<ServerOp>,
    rs2: Seq<PollRunView>,
    vs2: Seq<WtServerView>,
    s: u64,
)
    requires
        poll_trace(rs1, vs1),
        rs1[0].stage == PollStage::Streams,
        rs1[0].events.len() == 0,
        consistent(vs1[0]),
        run_allowed(vs1.last(), ops),
        keeps_stream(ops, s),
        poll_trace(rs2, vs2),
        rs2[0].stage == PollStage::Streams,
        rs2[0].events.len() == 0,
        vs2[0] == run(vs1.last(), ops),
    ensures
        !(finished_in(rs1.last().events, s) && finished_in(rs2.last().events, s)),
{
    lemma_whole_poll(rs1, vs1);
    lemma_run_keeps_consistent(vs1.last(), ops);
    lemma_whole_poll(rs2, vs2);
    lemma_end_reported_at_most_once(vs1.last(), ops, s);
}


/// What an event of the HTTP/3 layer on stream `id` does to a poll, from the
/// event alone: nothing when the stream is a classified WebTransport stream,
/// or for a reset, a priority update or a GOAWAY; otherwise exactly one event
/// is added after all the others: for an Extended CONNECT the new session
/// `id` with the request's path (and the poll waits for the response to be
/// sent); for other headers, body data or the end of the stream, the same
/// forwarded under its stream id.
pub proof fn lemma_h3_event_adds(
    r: PollRunView,
    v: WtServerView,
    id: u64,
    ev: H3Event,
    st: H3Step,
)
    requires
        v.h3_reaction(id, ev, st),
    ensures
        h3_taken(r, id, st).readable == r.readable,
        h3_taken(r, id, st).next == r.next,
        v.is_classified(id) ==> h3_taken(r, id, st) == r,
        !v.is_classified(id) ==> match ev {
            H3Event::Headers { list, more_frames } => if is_wt_connect(list@) {
                let r2 = h3_taken(r, id, st);
                &&& r2.stage == PollStage::Accepting { stream_id: id }
                &&& r2.events.len() == r.events.len() + 1
                &&& r2.events.take(r.events.len() as int) == r.events
                &&& r2.events.last() matches WtEvent::NewSession { session_id, path } && session_id
                    == id && path@ == path_of(list@)
            } else {
                &&& h3_taken(r, id, st).stage == r.stage
                &&& h3_taken(r, id, st).events == r.events.push(
                    WtEvent::H3Headers { stream_id: id, headers: list, has_body: more_frames },
                )
            },
            H3Event::Data => {
                &&& h3_taken(r, id, st).stage == r.stage
                &&& h3_taken(r, id, st).events == r.events.push(WtEvent::H3Data { stream_id: id })
            },
            H3Event::Finished => {
                &&& h3_taken(r, id, st).stage == r.stage
                &&& h3_taken(r, id, st).events == r.events.push(
                    WtEvent::H3Finished { stream_id: id },
                )
            },
            _ => h3_taken(r, id, st) == r,
        },
{
    match st {
        H3Step::AcceptSession(e) => {
            assert(r.events.push(e).take(r.events.len() as int) =~= r.events);
        },
        _ => {},
    }
}

/// A read of a classified stream that is being drained: the drain goes on
/// exactly while reads give bytes and no FIN, whether or not its bytes are to
/// be reported; the bytes are added after the stream's buffered payload and
/// a FIN is recorded; when the drain ends, a `Data` event is added exactly
/// when the bytes are to be reported and some were read. A failed read ends
/// the drain in the same way.
pub proof fn lemma_drain_reads_until_nothing_more(
    r: PollRunView,
    v: WtServerView,
    id: u64,
    report: bool,
    got_data: bool,
    data: Seq<u8>,
    fin: bool,
)
    requires
        r.stage == (PollStage::Drain { stream_id: id, report, got_data }),
        v.is_classified(id),
    ensures
        ({
            let (r2, v2) = drain_taken(r, v, data, fin);
            let got = got_data || data.len() > 0;
            &&& r2.readable == r.readable
            &&& r2.next == r.next
            &&& !fin && data.len() > 0 ==> r2.stage == (PollStage::Drain {
                stream_id: id,
                report,
                got_data: got,
            }) && r2.events == r.events
            &&& fin || data.len() == 0 ==> r2.stage == PollStage::Streams && r2.events == if report
                && got {
                r.events.push(WtEvent::Data { stream_id: id })
            } else {
                r.events
            }
            &&& v2.buffered(id) == v.buffered(id) + data
            &&& v2.is_classified(id)
            &&& v2.fin_seen(id) == (v.fin_seen(id) || fin)
        }),
        drain_stopped(r).stage == PollStage::Streams,
        drain_stopped(r).events == if report && got_data {
            r.events.push(WtEvent::Data { stream_id: id })
        } else {
            r.events
        },
{
    assert(v.buffered(id) + Seq::<u8>::empty() =~= v.buffered(id));
}

/// How a poll takes up the next readable stream: a classified stream is
/// drained at once, its bytes to be reported, with the server unchanged; a
/// stream whose prefix is being read has the bytes its prefix reader wants
/// read; once every readable stream was taken up, the HTTP/3 layer is polled.
pub proof fn lemma_streams_taken_up_in_turn(r: PollRunView, v: WtServerView)
    requires
        r.stage == PollStage::Streams,
    ensures
        r.next >= r.readable.len() ==> advance(r, v) == (
            staged(r, PollStage::Http3),
            v,
            PollAction::PollH3,
        ),
        r.next < r.readable.len() && v.is_classified(r.readable[r.next as int]) ==> {
            let id = r.readable[r.next as int];
            let (r2, v2, act) = advance(r, v);
            &&& act == PollAction::Drain { stream_id: id }
            &&& r2.stage == (PollStage::Drain { stream_id: id, report: true, got_data: false })
            &&& r2.next == r.next + 1
            &&& r2.events == r.events
            &&& v2 == v
        },
        r.next < r.readable.len() && v.is_parsing(r.readable[r.next as int]) ==> {
            let id = r.readable[r.next as int];
            let n = v.prefix_want(id)->0;
            let (r2, v2, act) = advance(r, v);
            &&& act == PollAction::ReadPrefix { stream_id: id, len: n as usize }
            &&& r2.stage == (PollStage::Prefix { stream_id: id })
            &&& r2.next == r.next + 1
            &&& r2.events == r.events
            &&& v2 == v
        },
{
    if r.next < r.readable.len() {
        let id = r.readable[r.next as int];
        let r1 = PollRunView { next: r.next + 1, ..r };
        if v.is_parsing(id) {
            assert(advance(r, v) == advance(staged(r1, PollStage::Prefix { stream_id: id }), v));
        }
    }
}

} // verus!
