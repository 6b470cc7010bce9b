//! Properties of the server that span its operations, proved over the
//! abstract state that the operations' contracts speak of.
use crate::event::{PrefixStep, ReadableAction, WtEvent};
pub use crate::model::{consistent, lemma_empty_is_consistent, lemma_op_keeps_consistent};
use crate::server::{
    apply_op,
    is_next_id,
    op_allowed,
    ServerOp,
    spec_might_be_wt_stream,
    stream_type,
    StreamParseState,
    WtServerView,
    WT_STREAM_TYPE_BIDI,
};
use crate::varint::{
    lemma_varint_roundtrip,
    lemma_varint_value_bound,
    varint_complete,
    varint_payload,
    varint_encoding,
    varint_len,
    varint_max,
    varint_value,
};
use vstd::prelude::*;

verus! {

/// True when no partial prefix that the server holds is a whole integer yet:
/// the prefix reader always has bytes left to ask for.
pub open spec fn stashes_incomplete(v: WtServerView) -> bool {
    forall|id: u64| #[trigger] v.parse_bufs.contains_key(id) ==> !varint_complete(v.parse_bufs[id])
}

/// Registering a readable stream and reading prefixes keep every partial
/// prefix short of a whole integer; so do draining, reporting ends and
/// forgetting streams, which leave partial prefixes alone or drop them.
pub proof fn lemma_stashes_stay_incomplete(
    v: WtServerView,
    id: u64,
    bytes: Seq<u8>,
    data: Seq<u8>,
    fin: bool,
)
    requires
        stashes_incomplete(v),
    ensures
        stashes_incomplete(v.readable_outcome(id).0),
        stashes_incomplete(v.prefix_outcome(id, bytes).0),
        stashes_incomplete(v.with_received(id, data, fin)),
        stashes_incomplete(v.with_ends_reported()),
        stashes_incomplete(v.without_stream(id)),
{
    let r = v.readable_outcome(id).0;
    assert forall|k: u64| #[trigger] r.parse_bufs.contains_key(k) implies !varint_complete(
        r.parse_bufs[k],
    ) by {
        if k != id {
            assert(v.parse_bufs.contains_key(k));
        }
    }
    let w = v.prefix_outcome(id, bytes).0;
    assert forall|k: u64| #[trigger] w.parse_bufs.contains_key(k) implies !varint_complete(
        w.parse_bufs[k],
    ) by {
        if k != id {
            assert(v.parse_bufs.contains_key(k));
        }
    }
    let x = v.without_stream(id);
    assert forall|k: u64| #[trigger] x.parse_bufs.contains_key(k) implies !varint_complete(
        x.parse_bufs[k],
    ) by {
        assert(v.parse_bufs.contains_key(k));
    }
}

/// The prefix reader never reads past the integer it is reading: when the
/// bytes handed to it are no more than it asked for, an integer that becomes
/// whole ends exactly at the last byte read, so no payload byte is consumed
/// and no byte is dropped.
pub proof fn lemma_prefix_reads_end_at_integer(v: WtServerView, id: u64, bytes: Seq<u8>)
    requires
        stashes_incomplete(v),
        v.prefix_want(id) is Some,
        bytes.len() <= v.prefix_want(id)->0,
    ensures
        varint_complete(v.stash(id) + bytes) ==> (v.stash(id) + bytes).len() == varint_len(
            (v.stash(id) + bytes)[0],
        ),
{
    let u = v.stash(id) + bytes;
    if v.stash(id).len() > 0 {
        assert(v.parse_bufs.contains_key(id));
        assert(u[0] == v.stash(id)[0]);
    }
}

/// What the server writes on a stream it opens is what a peer's prefix
/// reader needs: handed the whole prefix of a session id up to 2^62 - 1, a
/// reader awaiting the stream type classifies the stream as a WebTransport
/// stream of that session and direction, and keeps no partial prefix.
pub proof fn lemma_written_prefix_is_read_back(
    v: WtServerView,
    id: u64,
    bidi: bool,
    session_id: u64,
)
    requires
        v.streams.contains_key(id),
        v.streams[id] == StreamParseState::AwaitingType,
        v.stash(id).len() == 0,
        session_id <= varint_max(),
    ensures
        ({
            let (w, step) = v.prefix_outcome(
                id,
                varint_encoding(stream_type(bidi)) + varint_encoding(session_id),
            );
            &&& step == PrefixStep::Classified(
                WtEvent::NewStream { session_id, stream_id: id, bidi },
            )
            &&& w.session_of(id) == Some(session_id)
            &&& w.streams[id] == (StreamParseState::Ready { session_id, bidi })
            &&& !w.parse_bufs.contains_key(id)
        }),
{
    let t = varint_encoding(stream_type(bidi));
    let e = varint_encoding(session_id);
    let bytes = t + e;
    let u = v.stash(id) + bytes;
    assert(u =~= bytes);
    lemma_varint_roundtrip(stream_type(bidi), e);
    lemma_varint_roundtrip(session_id, Seq::empty());
    assert(e + Seq::<u8>::empty() =~= e);
    assert(u.skip(t.len() as int) =~= e);
    lemma_varint_value_bound(u);
    assert(varint_complete(u));
    assert(varint_value(u) == stream_type(bidi));
    assert(varint_len(u[0]) == t.len());
    let rest = u.skip(varint_len(u[0]) as int);
    lemma_varint_value_bound(rest);
    assert(varint_complete(rest));
    assert(varint_value(rest) == session_id);
    assert((varint_value(u) == WT_STREAM_TYPE_BIDI) == bidi);
}

/// A `Classified` outcome of the prefix reader announces exactly the stream
/// that it classified, with the session and direction now recorded for it.
pub proof fn lemma_classified_event_matches_state(v: WtServerView, id: u64, bytes: Seq<u8>)
    ensures
        ({
            let (w, step) = v.prefix_outcome(id, bytes);
            step matches PrefixStep::Classified(WtEvent::NewStream { session_id, stream_id, bidi })
                ==> stream_id == id && w.streams.contains_key(id) && w.streams[id] == (
            StreamParseState::Ready { session_id, bidi }) && w.session_of(id) == Some(session_id)
        }),
{
}

/// Once a stream is classified, registering readable streams, reading
/// prefixes, draining and reporting ends keep it classified with the same
/// session; only forgetting the stream undoes it.
pub proof fn lemma_classification_is_kept(
    v: WtServerView,
    x: u64,
    id: u64,
    bytes: Seq<u8>,
    data: Seq<u8>,
    fin: bool,
)
    requires
        v.session_of(x) is Some,
    ensures
        v.readable_outcome(id).0.session_of(x) == v.session_of(x),
        v.prefix_outcome(id, bytes).0.session_of(x) == v.session_of(x),
        v.with_received(id, data, fin).session_of(x) == v.session_of(x),
        v.with_ends_reported().session_of(x) == v.session_of(x),
        x != id ==> v.without_stream(id).session_of(x) == v.session_of(x),
{
    if x == id {
        assert(v.is_classified(id));
    }
}

/// Bytes drained from a stream come out of `stream_recv` in the order they
/// arrived, none lost: a read appends them to the end of the buffer, and a
/// read of the buffer's first `n` bytes leaves exactly the rest.
pub proof fn lemma_drained_bytes_kept_in_order(
    v: WtServerView,
    id: u64,
    data: Seq<u8>,
    fin: bool,
    n: int,
)
    requires
        v.is_classified(id),
        0 <= n <= v.buffered(id).len() + data.len(),
    ensures
        v.with_received(id, data, fin).buffered(id) == v.buffered(id) + data,
        ({
            let b = v.with_received(id, data, fin).buffered(id);
            b.take(n) + v.with_received(id, data, fin).with_buffered(id, b.skip(n)).buffered(id)
                == b
        }),
{
    let w = v.with_received(id, data, fin);
    if data.len() == 0 {
        assert(v.buffered(id) + data =~= v.buffered(id));
    }
    let b = w.buffered(id);
    assert(b.take(n) + b.skip(n) =~= b);
}

/// The end of a stream is reported once: after the pending ends are
/// reported, none is pending any more, and a stream's end counts as reported
/// exactly when it was before or was pending.
pub proof fn lemma_end_reported_once(v: WtServerView, id: u64)
    ensures
        !v.with_ends_reported().end_pending(id),
        v.with_ends_reported().end_reported(id) == (v.end_reported(id) || v.end_pending(id)),
{
}

/// A stream id chosen for a new server stream is not among the ids it was
/// chosen past (those the server knows and those listed as taken on the
/// connection), and has the residue modulo 4 that marks the server's streams
/// of that direction.
pub proof fn lemma_next_id_is_fresh(ids: Set<u64>, base: u64, r: u64)
    requires
        base == 1 || base == 3,
        is_next_id(ids, base, r),
    ensures
        !ids.contains(r),
        r % 4 == base,
        !spec_might_be_wt_stream(r),
{
}

/// Forgetting a stream forgets all of it but its session entry: it is no
/// longer classified or being read, nothing is buffered for it, and no FIN
/// or reported end is remembered.
pub proof fn lemma_removed_stream_is_forgotten(v: WtServerView, id: u64)
    ensures
        v.without_stream(id).session_of(id) is None,
        !v.without_stream(id).is_parsing(id),
        v.without_stream(id).buffered(id).len() == 0,
        v.without_stream(id).stash(id).len() == 0,
        !v.without_stream(id).fin_seen(id),
        !v.without_stream(id).end_reported(id),
        v.without_stream(id).sessions == v.sessions,
{
}

/// The state after the operations `ops`, one after another, from `v`.
pub open spec fn run(v: WtServerView, ops: Seq<ServerOp>) -> WtServerView
    decreases ops.len(),
{
    if ops.len() == 0 {
        v
    } else {
        run(apply_op(v, ops[0]), ops.drop_first())
    }
}

/// True when every operation of `ops`, applied one after another from `v`,
/// is allowed where it is applied.
pub open spec fn run_allowed(v: WtServerView, ops: Seq<ServerOp>) -> bool
    decreases ops.len(),
{
    ops.len() == 0 || (op_allowed(v, ops[0]) && run_allowed(apply_op(v, ops[0]), ops.drop_first()))
}

/// How many of the operations `ops`, applied from `v`, report the end of
/// stream `s`: a `take_finished` reports it exactly when its end is pending.
pub open spec fn times_reported(v: WtServerView, ops: Seq<ServerOp>, s: u64) -> nat
    decreases ops.len(),
{
    if ops.len() == 0 {
        0
    } else {
        (if ops[0] is TakeFinished && v.end_pending(s) {
            1nat
        } else {
            0nat
        }) + times_reported(apply_op(v, ops[0]), ops.drop_first(), s)
    }
}

/// True when none of the operations `ops` forgets stream `s`.
pub open spec fn keeps_stream(ops: Seq<ServerOp>, s: u64) -> bool {
    forall|i: int| 0 <= i < ops.len() ==> #[trigger] ops[i] != ServerOp::Remove(s)
}

/// The server stays consistent whatever allowed operations follow.
pub proof fn lemma_run_keeps_consistent(v: WtServerView, ops: Seq<ServerOp>)
    requires
        consistent(v),
        run_allowed(v, ops),
    ensures
        consistent(run(v, ops)),
    decreases ops.len(),
{
    if ops.len() > 0 {
        lemma_op_keeps_consistent(v, ops[0]);
        lemma_run_keeps_consistent(apply_op(v, ops[0]), ops.drop_first());
    }
}

/// Only `take_finished` marks an end reported, and only forgetting the
/// stream clears the mark.
pub proof fn lemma_reported_mark(v: WtServerView, op: ServerOp, s: u64)
    requires
        op != ServerOp::Remove(s),
    ensures
        apply_op(v, op).end_reported(s) == (v.end_reported(s) || (op is TakeFinished
            && v.end_pending(s))),
{
}

/// The end of a stream is reported at most once over any operations that do
/// not forget it, and not at all when it was reported before them; it stands
/// reported afterwards exactly when it did before or was reported on the way.
pub proof fn lemma_end_reported_at_most_once(v: WtServerView, ops: Seq<ServerOp>, s: u64)
    requires
        keeps_stream(ops, s),
    ensures
        times_reported(v, ops, s) <= 1,
        v.end_reported(s) ==> times_reported(v, ops, s) == 0,
        run(v, ops).end_reported(s) == (v.end_reported(s) || times_reported(v, ops, s) > 0),
    decreases ops.len(),
{
    if ops.len() > 0 {
        let w = apply_op(v, ops[0]);
        assert(ops[0] != ServerOp::Remove(s));
        lemma_reported_mark(v, ops[0], s);
        assert forall|i: int| 0 <= i < ops.drop_first().len() implies #[trigger] ops.drop_first()[i]
            != ServerOp::Remove(s) by {
            assert(ops.drop_first()[i] == ops[i + 1]);
        }
        lemma_end_reported_at_most_once(w, ops.drop_first(), s);
    }
}

/// An end that was never reported since the stream was last forgotten (or
/// since the server was made) is reported by the next `take_finished` once
/// its FIN was seen and its payload all read.
pub proof fn lemma_end_reported_when_due(v: WtServerView, ops: Seq<ServerOp>, s: u64)
    requires
        !v.end_reported(s),
        keeps_stream(ops, s),
        times_reported(v, ops, s) == 0,
        run(v, ops).fin_reached(s),
    ensures
        run(v, ops).end_pending(s),
        times_reported(v, ops.push(ServerOp::TakeFinished), s) == 1,
{
    lemma_end_reported_at_most_once(v, ops, s);
    lemma_times_reported_push(v, ops, s);
}

proof fn lemma_times_reported_push(v: WtServerView, ops: Seq<ServerOp>, s: u64)
    ensures
        times_reported(v, ops.push(ServerOp::TakeFinished), s) == times_reported(v, ops, s) + (
        if run(v, ops).end_pending(s) {
            1nat
        } else {
            0nat
        }),
    decreases ops.len(),
{
    let q = ops.push(ServerOp::TakeFinished);
    assert(q[0] == if ops.len() == 0 {
        ServerOp::TakeFinished
    } else {
        ops[0]
    });
    if ops.len() == 0 {
        assert(q.drop_first() =~= Seq::<ServerOp>::empty());
        assert(times_reported(apply_op(v, q[0]), q.drop_first(), s) == 0);
    } else {
        assert(ops.push(ServerOp::TakeFinished).drop_first() =~= ops.drop_first().push(
            ServerOp::TakeFinished,
        ));
        lemma_times_reported_push(apply_op(v, ops[0]), ops.drop_first(), s);
    }
}

/// A stream whose end is reported is a classified WebTransport stream whose
/// FIN was seen and whose payload was all read, and it stays so afterwards.
pub proof fn lemma_reported_stream_is_classified(v: WtServerView, s: u64)
    requires
        consistent(v),
        v.end_pending(s),
    ensures
        v.with_ends_reported().is_classified(s),
        v.with_ends_reported().session_of(s) is Some,
        v.with_ends_reported().fin_reached(s),
{
    assert(v.stream_fin.contains_key(s));
}

/// Once FIN was seen on a stream and its payload all read, that stays so
/// under every operation but forgetting the stream or recording more
/// payload for it (which the connection never gives after a FIN).
pub proof fn lemma_fin_reached_kept(v: WtServerView, op: ServerOp, s: u64)
    requires
        v.fin_reached(s),
        op != ServerOp::Remove(s),
        !(op matches ServerOp::Received(id, data, _) && id == s && data.len() > 0),
    ensures
        apply_op(v, op).fin_reached(s),
{
}

/// A read of stream `s` into a non-empty buffer that gives nothing, after its
/// FIN was seen, means its payload was all read.
pub proof fn lemma_empty_read_after_fin(v: WtServerView, s: u64, cap: nat)
    requires
        v.fin_seen(s),
        cap > 0,
        v.recv_count(s, cap) == 0,
    ensures
        v.fin_reached(s),
        v.after_recv(s, cap) == v,
{
}

/// Reading one integer in two reads gives what one read of both gives: when
/// the first read leaves it incomplete, its bytes are kept and the second
/// read goes on from them.
pub proof fn lemma_varint_read_split(v: WtServerView, id: u64, b1: Seq<u8>, b2: Seq<u8>)
    requires
        !varint_complete(v.stash(id) + b1),
    ensures
        v.varint_read(id, b1).1 is None,
        v.varint_read(id, b1).0.varint_read(id, b2) == v.varint_read(id, b1 + b2),
{
    let w = v.varint_read(id, b1).0;
    assert(w.stash(id) =~= v.stash(id) + b1);
    assert(w.stash(id) + b2 =~= v.stash(id) + (b1 + b2));
    let u = v.stash(id) + (b1 + b2);
    assert(w.with_stash(id, u).parse_bufs =~= v.with_stash(id, u).parse_bufs);
    if varint_complete(u) {
        let r = u.skip(varint_len(u[0]) as int);
        assert(w.with_stash(id, r).parse_bufs =~= v.with_stash(id, r).parse_bufs);
    }
}

/// An encoded integer read in two pieces, the first of which stops inside
/// it, is read whole by the second: its value comes out, only the bytes after
/// it are kept, and the state is the one a single read of all the bytes
/// leaves.
pub proof fn lemma_encoded_varint_read_in_two(
    v: WtServerView,
    id: u64,
    x: u64,
    k: int,
    rest: Seq<u8>,
)
    requires
        v.stash(id).len() == 0,
        x <= varint_max(),
        0 < k < varint_encoding(x).len(),
    ensures
        ({
            let e = varint_encoding(x);
            let (w, first) = v.varint_read(id, e.take(k));
            let (y, second) = w.varint_read(id, e.skip(k) + rest);
            &&& first is None
            &&& second == Some(x)
            &&& y.stash(id) == rest
            &&& y == v.varint_read(id, e + rest).0
        }),
{
    let e = varint_encoding(x);
    lemma_varint_roundtrip(x, Seq::empty());
    assert(e + Seq::<u8>::empty() =~= e);
    assert(v.stash(id) + e.take(k) =~= e.take(k));
    lemma_varint_read_split(v, id, e.take(k), e.skip(k) + rest);
    assert(e.take(k) + (e.skip(k) + rest) =~= e + rest);
    lemma_varint_roundtrip(x, rest);
    let u = v.stash(id) + (e + rest);
    assert(u =~= e + rest);
    assert(u.skip(e.len() as int) =~= rest);
}

/// A prefix split over two reads classifies the stream as the whole prefix in
/// one read does: the first read leaves the stream's prefix being read, and
/// the second classifies it, leaving the same state.
pub proof fn lemma_prefix_split(
    v: WtServerView,
    id: u64,
    bidi: bool,
    session_id: u64,
    k: int,
)
    requires
        v.streams.contains_key(id),
        v.streams[id] == StreamParseState::AwaitingType,
        v.stash(id).len() == 0,
        session_id <= varint_max(),
        0 < k < (varint_encoding(stream_type(bidi)) + varint_encoding(session_id)).len(),
    ensures
        ({
            let p = varint_encoding(stream_type(bidi)) + varint_encoding(session_id);
            let (w, first) = v.prefix_outcome(id, p.take(k));
            let (x, second) = w.prefix_outcome(id, p.skip(k));
            &&& first == PrefixStep::NeedMore
            &&& w.is_parsing(id)
            &&& w.streams[id] == StreamParseState::AwaitingType || w.streams[id]
                == StreamParseState::AwaitingSessionId { bidi }
            &&& second == PrefixStep::Classified(
                WtEvent::NewStream { session_id, stream_id: id, bidi },
            )
            &&& x == v.prefix_outcome(id, p).0
        }),
{
    let t = varint_encoding(stream_type(bidi));
    let e = varint_encoding(session_id);
    let p = t + e;
    lemma_written_prefix_is_read_back(v, id, bidi, session_id);
    lemma_varint_roundtrip(stream_type(bidi), e);
    lemma_varint_roundtrip(session_id, Seq::empty());
    assert(e + Seq::<u8>::empty() =~= e);
    lemma_varint_value_bound(p);
    let l1 = t.len() as int;
    assert(varint_len(p[0]) == l1);
    assert(p.skip(l1) =~= e);
    lemma_varint_value_bound(e);
    assert(varint_value(p) == stream_type(bidi));
    assert(varint_value(e) == session_id);
    assert((varint_value(p) == WT_STREAM_TYPE_BIDI) == bidi);
    let a = p.take(k);
    let u1 = v.stash(id) + a;
    assert(u1 =~= a);
    let (w, first) = v.prefix_outcome(id, a);
    if k < l1 {
        assert(a[0] == p[0]);
        assert(!varint_complete(u1));
        assert(w.stash(id) =~= a);
        let u2 = w.stash(id) + p.skip(k);
        assert(u2 =~= p);
        assert(w.with_stash(id, Seq::empty()).parse_bufs =~= v.with_stash(id, Seq::empty()).parse_bufs);
        assert(w.prefix_outcome(id, p.skip(k)).0.parse_bufs =~= v.prefix_outcome(id, p).0.parse_bufs);
        assert(w.prefix_outcome(id, p.skip(k)).0 =~= v.prefix_outcome(id, p).0);
    } else {
        assert(a.take(l1) =~= t);
        assert(a[0] == p[0]);
        assert(varint_complete(u1));
        assert(varint_payload(u1) =~= varint_payload(p));
        let rest = u1.skip(l1);
        assert(rest =~= e.take(k - l1));
        if rest.len() > 0 {
            assert(rest[0] == e[0]);
        }
        assert(!varint_complete(rest));
        assert(w.stash(id) =~= rest);
        let u2 = w.stash(id) + p.skip(k);
        assert(u2 =~= e);
        assert(w.prefix_outcome(id, p.skip(k)).0.parse_bufs =~= v.prefix_outcome(id, p).0.parse_bufs);
        assert(w.prefix_outcome(id, p.skip(k)).0.streams =~= v.prefix_outcome(id, p).0.streams);
        assert(w.prefix_outcome(id, p.skip(k)).0 =~= v.prefix_outcome(id, p).0);
    }
}


/// True when none of the operations `ops` records payload for stream `s`.
pub open spec fn brings_no_payload(ops: Seq<ServerOp>, s: u64) -> bool {
    forall|i: int|
        0 <= i < ops.len() ==> !(#[trigger] ops[i] matches ServerOp::Received(id, data, _) && id == s
            && data.len() > 0)
}

/// Once FIN was seen on a stream and its payload all read, that stays so
/// over any operations that neither forget the stream nor record payload
/// for it.
pub proof fn lemma_fin_reached_kept_over_run(v: WtServerView, ops: Seq<ServerOp>, s: u64)
    requires
        v.fin_reached(s),
        keeps_stream(ops, s),
        brings_no_payload(ops, s),
    ensures
        run(v, ops).fin_reached(s),
    decreases ops.len(),
{
    if ops.len() > 0 {
        assert(ops[0] != ServerOp::Remove(s));
        assert(!(ops[0] matches ServerOp::Received(id, data, _) && id == s && data.len() > 0));
        lemma_fin_reached_kept(v, ops[0], s);
        let rest = ops.drop_first();
        assert forall|i: int| 0 <= i < rest.len() implies #[trigger] rest[i] != ServerOp::Remove(s) by {
            assert(rest[i] == ops[i + 1]);
        }
        assert forall|i: int| 0 <= i < rest.len() implies !(#[trigger] rest[i] matches ServerOp::Received(
            id,
            data,
            _,
        ) && id == s && data.len() > 0) by {
            assert(rest[i] == ops[i + 1]);
        }
        lemma_fin_reached_kept_over_run(apply_op(v, ops[0]), rest, s);
    }
}


/// Which streams may carry a WebTransport prefix, by what their id says
/// (RFC 9000, section 2.1: bit 0 of an id is set on server-initiated
/// streams, bit 1 on unidirectional ones, and the rest counts the streams of
/// that kind): every client-initiated bidirectional stream but the first
/// (which carries an HTTP/3 request), every client-initiated unidirectional
/// stream after the first three (the client's HTTP/3 control and QPACK
/// streams), and no server-initiated stream.
pub proof fn lemma_might_be_wt_stream_by_id(id: u64)
    ensures
        id % 2 == 1 ==> !spec_might_be_wt_stream(id),
        id % 2 == 0 && (id / 2) % 2 == 0 ==> (spec_might_be_wt_stream(id) <==> id / 4 >= 1),
        id % 2 == 0 && (id / 2) % 2 == 1 ==> (spec_might_be_wt_stream(id) <==> id / 4 >= 3),
{
}

/// What happens to a stream that the transport reports readable follows
/// from what the server knows of it, whatever its id: a classified stream is
/// drained and one whose prefix is being read goes on being read, both with
/// nothing changed; an unknown stream that a client may have opened for
/// WebTransport starts having its prefix read, from its first byte, with
/// nothing else changed; any other unknown stream is left alone.
pub proof fn lemma_readable_by_what_is_known(v: WtServerView, id: u64)
    ensures
        v.is_classified(id) ==> v.readable_outcome(id) == (v, ReadableAction::Drain),
        v.is_parsing(id) ==> v.readable_outcome(id) == (v, ReadableAction::ParsePrefix),
        !v.streams.contains_key(id) && spec_might_be_wt_stream(id) ==> {
            let (w, act) = v.readable_outcome(id);
            &&& act == ReadableAction::ParsePrefix
            &&& w.streams == v.streams.insert(id, StreamParseState::AwaitingType)
            &&& w.stash(id).len() == 0
            &&& forall|k: u64| k != id ==> #[trigger] w.stash(k) == v.stash(k)
            &&& w.stream_data == v.stream_data
            &&& w.stream_fin == v.stream_fin
            &&& w.finished_reported == v.finished_reported
            &&& w.sessions == v.sessions
        },
        !v.streams.contains_key(id) && !spec_might_be_wt_stream(id) ==> v.readable_outcome(id) == (
        v,
        ReadableAction::Skip,
        ),
{
}

/// A stream that the server opened is drained when it becomes readable,
/// whatever its id, and belongs to the session it was opened for.
pub proof fn lemma_opened_stream_is_drained(v: WtServerView, id: u64, session_id: u64, bidi: bool)
    ensures
        apply_op(v, ServerOp::Opened(id, session_id, bidi)).readable_outcome(id).1
            == ReadableAction::Drain,
        apply_op(v, ServerOp::Opened(id, session_id, bidi)).session_of(id) == Some(session_id),
{
}

} // verus!
