use quiche4j_jni::event::{H3Event, H3Step, PrefixStep, ReadableAction, WtEvent};
use quiche4j_jni::headers::{extract_path, is_webtransport_connect, session_accept_headers, Header};
use quiche4j_jni::server::WtServer;

fn h(name: &str, value: &str) -> Header {
    Header::new(name.as_bytes(), value.as_bytes())
}

fn connect_headers(path: &str) -> Vec<Header> {
    vec![
        h(":method", "CONNECT"),
        h(":protocol", "webtransport"),
        h(":scheme", "https"),
        h(":authority", "example.org"),
        h(":path", path),
    ]
}

/// A server where stream `id` is classified as a bidirectional stream of session 0.
fn server_with_stream(id: u64) -> WtServer {
    let mut s = WtServer::new();
    assert_eq!(s.on_readable(id), ReadableAction::ParsePrefix);
    assert!(matches!(s.try_parse_prefix(id, &[0x40, 0x41, 0x00]), PrefixStep::Classified(_)));
    s
}

#[test]
fn new_server_knows_nothing() {
    let mut s = WtServer::new();
    let mut out = [0u8; 8];
    assert_eq!(s.stream_recv(4, &mut out), 0);
    assert!(!s.stream_fin_reached(4));
    assert_eq!(s.stream_session_id(4), None);
    assert!(!s.is_wt_classified(4));
    assert_eq!(s.prefix_read_len(4), None);
    assert!(s.take_finished().is_empty());
}

#[test]
fn readable_streams_are_sorted_by_kind() {
    let mut s = WtServer::new();
    assert_eq!(s.on_readable(0), ReadableAction::Skip);
    assert_eq!(s.on_readable(2), ReadableAction::Skip);
    assert_eq!(s.on_readable(6), ReadableAction::Skip);
    assert_eq!(s.on_readable(10), ReadableAction::Skip);
    assert_eq!(s.on_readable(1), ReadableAction::Skip);
    assert_eq!(s.on_readable(3), ReadableAction::Skip);
    assert_eq!(s.on_readable(4), ReadableAction::ParsePrefix);
    assert_eq!(s.on_readable(14), ReadableAction::ParsePrefix);
    // Still being read on the next poll.
    assert_eq!(s.on_readable(4), ReadableAction::ParsePrefix);
    assert_eq!(s.prefix_read_len(4), Some(1));
}

#[test]
fn prefix_read_byte_by_byte_as_asked() {
    let mut s = WtServer::new();
    s.on_readable(4);
    assert_eq!(s.prefix_read_len(4), Some(1));
    assert_eq!(s.try_parse_prefix(4, &[0x40]), PrefixStep::NeedMore);
    assert_eq!(s.prefix_read_len(4), Some(1));
    assert_eq!(s.try_parse_prefix(4, &[0x41]), PrefixStep::NeedMore);
    assert_eq!(s.prefix_read_len(4), Some(1));
    assert_eq!(s.stream_session_id(4), None);
    assert_eq!(
        s.try_parse_prefix(4, &[0x00]),
        PrefixStep::Classified(WtEvent::NewStream { session_id: 0, stream_id: 4, bidi: true })
    );
    assert_eq!(s.stream_session_id(4), Some(0));
    assert!(s.is_wt_classified(4));
    assert_eq!(s.prefix_read_len(4), None);
    assert_eq!(s.on_readable(4), ReadableAction::Drain);
}

#[test]
fn prefix_asks_for_the_rest_of_a_long_integer() {
    let mut s = WtServer::new();
    s.on_readable(14);
    assert_eq!(s.try_parse_prefix(14, &[0x40]), PrefixStep::NeedMore);
    assert_eq!(s.try_parse_prefix(14, &[0x54]), PrefixStep::NeedMore);
    // A four-byte session id: after its first byte, three more are wanted.
    assert_eq!(s.try_parse_prefix(14, &[0x80]), PrefixStep::NeedMore);
    assert_eq!(s.prefix_read_len(14), Some(3));
    assert_eq!(s.try_parse_prefix(14, &[0x00]), PrefixStep::NeedMore);
    assert_eq!(s.prefix_read_len(14), Some(2));
    assert_eq!(
        s.try_parse_prefix(14, &[0x40, 0x00]),
        PrefixStep::Classified(WtEvent::NewStream { session_id: 16384, stream_id: 14, bidi: false })
    );
    assert_eq!(s.stream_session_id(14), Some(16384));
}

#[test]
fn whole_prefix_in_one_read() {
    let mut s = WtServer::new();
    s.on_readable(8);
    assert_eq!(
        s.try_parse_prefix(8, &[0x40, 0x54, 0x04]),
        PrefixStep::Classified(WtEvent::NewStream { session_id: 4, stream_id: 8, bidi: false })
    );
    assert_eq!(s.stream_session_id(8), Some(4));
}

#[test]
fn empty_read_waits_and_keeps_partial_prefix() {
    let mut s = WtServer::new();
    s.on_readable(4);
    assert_eq!(s.try_parse_prefix(4, &[]), PrefixStep::Waiting);
    assert_eq!(s.prefix_read_len(4), Some(1));
    assert_eq!(s.try_parse_prefix(4, &[0x40]), PrefixStep::NeedMore);
    assert_eq!(s.try_parse_prefix(4, &[]), PrefixStep::Waiting);
    assert_eq!(s.prefix_read_len(4), Some(1));
    assert_eq!(s.try_parse_prefix(4, &[0x41]), PrefixStep::NeedMore);
    assert_eq!(s.try_parse_prefix(4, &[]), PrefixStep::Waiting);
    assert_eq!(
        s.try_parse_prefix(4, &[0x08]),
        PrefixStep::Classified(WtEvent::NewStream { session_id: 8, stream_id: 4, bidi: true })
    );
}

#[test]
fn other_stream_type_is_not_webtransport() {
    let mut s = WtServer::new();
    s.on_readable(4);
    assert_eq!(s.try_parse_prefix(4, &[0x01]), PrefixStep::NotWebTransport);
    assert_eq!(s.stream_session_id(4), None);
    assert_eq!(s.prefix_read_len(4), None);
    // A two-byte type that is neither 0x41 nor 0x54.
    s.on_readable(8);
    assert_eq!(s.try_parse_prefix(8, &[0x40]), PrefixStep::NeedMore);
    assert_eq!(s.try_parse_prefix(8, &[0x42]), PrefixStep::NotWebTransport);
    assert_eq!(s.prefix_read_len(8), None);
}

#[test]
fn parse_on_unknown_or_classified_stream_does_nothing() {
    let mut s = WtServer::new();
    assert_eq!(s.try_parse_prefix(4, &[0x40, 0x41, 0x00]), PrefixStep::Waiting);
    assert_eq!(s.stream_session_id(4), None);
    let mut s = server_with_stream(4);
    assert_eq!(s.try_parse_prefix(4, &[0x40, 0x54, 0x09]), PrefixStep::Waiting);
    assert_eq!(s.stream_session_id(4), Some(0));
}

#[test]
fn drained_payload_is_read_in_order() {
    let mut s = server_with_stream(4);
    assert!(s.on_stream_data(4, b"hello", false));
    assert!(s.on_stream_data(4, b" world", false));
    let mut out = [0u8; 3];
    assert_eq!(s.stream_recv(4, &mut out), 3);
    assert_eq!(&out, b"hel");
    let mut out = [7u8; 16];
    assert_eq!(s.stream_recv(4, &mut out), 8);
    assert_eq!(&out[..8], b"lo world");
    assert_eq!(&out[8..], &[7u8; 8]);
    assert_eq!(s.stream_recv(4, &mut out), 0);
}

#[test]
fn recv_into_empty_buffer_takes_nothing() {
    let mut s = server_with_stream(4);
    s.on_stream_data(4, b"abc", false);
    let mut out: [u8; 0] = [];
    assert_eq!(s.stream_recv(4, &mut out), 0);
    let mut out = [0u8; 3];
    assert_eq!(s.stream_recv(4, &mut out), 3);
    assert_eq!(&out, b"abc");
}

#[test]
fn drain_stops_on_fin_or_empty_read() {
    let mut s = server_with_stream(4);
    assert!(!s.on_stream_data(4, b"", false));
    assert!(!s.on_stream_data(4, b"tail", true));
    assert!(!s.stream_fin_reached(4));
    let mut out = [0u8; 4];
    assert_eq!(s.stream_recv(4, &mut out), 4);
    assert!(s.stream_fin_reached(4));
}

#[test]
fn data_of_unclassified_stream_is_not_taken() {
    let mut s = WtServer::new();
    s.on_readable(4);
    assert!(!s.on_stream_data(4, b"xyz", true));
    let mut out = [0u8; 4];
    assert_eq!(s.stream_recv(4, &mut out), 0);
    assert!(!s.stream_fin_reached(4));
}

#[test]
fn end_is_reported_once_after_payload_is_read() {
    let mut s = server_with_stream(4);
    s.on_stream_data(4, b"ab", true);
    assert!(s.take_finished().is_empty());
    let mut out = [0u8; 2];
    s.stream_recv(4, &mut out);
    assert_eq!(s.take_finished(), vec![WtEvent::Finished { stream_id: 4 }]);
    assert!(s.take_finished().is_empty());
    assert!(s.stream_fin_reached(4));
}

#[test]
fn end_of_several_streams_reported() {
    let mut s = server_with_stream(4);
    s.on_readable(8);
    s.try_parse_prefix(8, &[0x40, 0x54, 0x00]);
    s.on_readable(12);
    s.try_parse_prefix(12, &[0x40, 0x41, 0x00]);
    s.on_stream_data(4, b"", true);
    s.on_stream_data(8, b"", true);
    s.on_stream_data(12, b"", false);
    let mut ends = s.take_finished();
    ends.sort_by_key(|e| match e {
        WtEvent::Finished { stream_id } => *stream_id,
        _ => u64::MAX,
    });
    assert_eq!(
        ends,
        vec![WtEvent::Finished { stream_id: 4 }, WtEvent::Finished { stream_id: 8 }]
    );
    assert!(s.take_finished().is_empty());
}

#[test]
fn removed_stream_is_forgotten() {
    let mut s = server_with_stream(4);
    s.on_stream_data(4, b"data", true);
    s.remove_stream(4);
    assert_eq!(s.stream_session_id(4), None);
    assert!(!s.is_wt_classified(4));
    let mut out = [0u8; 8];
    assert_eq!(s.stream_recv(4, &mut out), 0);
    assert!(!s.stream_fin_reached(4));
    assert!(s.take_finished().is_empty());
    // The id is unknown again: a new readable stream with it is read afresh.
    assert_eq!(s.on_readable(4), ReadableAction::ParsePrefix);
}

#[test]
fn removing_a_reported_stream_clears_its_mark() {
    let mut s = server_with_stream(4);
    s.on_stream_data(4, b"", true);
    assert_eq!(s.take_finished().len(), 1);
    s.remove_stream(4);
    let mut s2 = s;
    s2.on_readable(4);
    s2.try_parse_prefix(4, &[0x40, 0x41, 0x00]);
    s2.on_stream_data(4, b"", true);
    assert_eq!(s2.take_finished(), vec![WtEvent::Finished { stream_id: 4 }]);
}

#[test]
fn extended_connect_opens_session() {
    let mut s = WtServer::new();
    let step = s.on_h3_event(0, H3Event::Headers { list: connect_headers("/moq"), more_frames: true });
    assert_eq!(
        step,
        H3Step::AcceptSession(WtEvent::NewSession { session_id: 0, path: "/moq".to_string() })
    );
}

#[test]
fn connect_path_is_read_as_utf8() {
    let mut s = WtServer::new();
    let step = s.on_h3_event(4, H3Event::Headers { list: connect_headers("/caf\u{e9}"), more_frames: true });
    assert_eq!(
        step,
        H3Step::AcceptSession(WtEvent::NewSession { session_id: 4, path: "/caf\u{e9}".to_string() })
    );
    let mut list = connect_headers("/x");
    list[4] = Header::new(b":path", &[0x2f, 0xff, 0xfe]);
    let step = s.on_h3_event(8, H3Event::Headers { list, more_frames: true });
    assert_eq!(
        step,
        H3Step::AcceptSession(WtEvent::NewSession { session_id: 8, path: String::new() })
    );
}

#[test]
fn plain_requests_are_forwarded() {
    let mut s = WtServer::new();
    let list = vec![h(":method", "GET"), h(":path", "/index.html")];
    assert_eq!(
        s.on_h3_event(0, H3Event::Headers { list: list.clone(), more_frames: false }),
        H3Step::Forward(WtEvent::H3Headers { stream_id: 0, headers: list, has_body: false })
    );
    // CONNECT without the WebTransport protocol is not a session.
    let list = vec![h(":method", "CONNECT"), h(":protocol", "websocket"), h(":path", "/")];
    assert_eq!(
        s.on_h3_event(4, H3Event::Headers { list: list.clone(), more_frames: true }),
        H3Step::Forward(WtEvent::H3Headers { stream_id: 4, headers: list, has_body: true })
    );
    assert_eq!(s.on_h3_event(0, H3Event::Data), H3Step::Forward(WtEvent::H3Data { stream_id: 0 }));
    assert_eq!(
        s.on_h3_event(0, H3Event::Finished),
        H3Step::Forward(WtEvent::H3Finished { stream_id: 0 })
    );
    assert_eq!(s.on_h3_event(0, H3Event::Reset(0x10c)), H3Step::Ignore);
    assert_eq!(s.on_h3_event(0, H3Event::PriorityUpdate), H3Step::Ignore);
    assert_eq!(s.on_h3_event(0, H3Event::GoAway), H3Step::Ignore);
}

#[test]
fn http3_events_on_webtransport_streams_are_dropped() {
    let mut s = server_with_stream(4);
    let list = vec![h(":method", "GET")];
    assert_eq!(s.on_h3_event(4, H3Event::Headers { list, more_frames: false }), H3Step::Ignore);
    assert_eq!(s.on_h3_event(4, H3Event::Headers { list: connect_headers("/"), more_frames: true }), H3Step::Ignore);
    assert_eq!(s.on_h3_event(4, H3Event::Data), H3Step::Ignore);
    assert_eq!(s.on_h3_event(4, H3Event::Finished), H3Step::Ignore);
    assert_eq!(s.stream_session_id(4), Some(0));
}

#[test]
fn session_end_is_forwarded() {
    let mut s = WtServer::new();
    s.on_h3_event(0, H3Event::Headers { list: connect_headers("/"), more_frames: true });
    assert_eq!(
        s.on_h3_event(0, H3Event::Finished),
        H3Step::Forward(WtEvent::H3Finished { stream_id: 0 })
    );
}

#[test]
fn connect_checks_and_path() {
    assert!(is_webtransport_connect(&connect_headers("/")));
    assert!(!is_webtransport_connect(&[h(":method", "CONNECT")]));
    assert!(!is_webtransport_connect(&[h(":protocol", "webtransport")]));
    assert!(!is_webtransport_connect(&[h(":method", "connect"), h(":protocol", "webtransport")]));
    assert!(is_webtransport_connect(&[h(":protocol", "webtransport"), h("x", "y"), h(":method", "CONNECT")]));
    assert_eq!(extract_path(&connect_headers("/a/b")), "/a/b");
    assert_eq!(extract_path(&[h(":method", "CONNECT")]), "");
    assert_eq!(extract_path(&[h(":path", "/first"), h(":path", "/second")]), "/first");
}

#[test]
fn accept_headers() {
    assert_eq!(
        session_accept_headers(),
        vec![h(":status", "200"), h("sec-webtransport-http3-draft", "draft02")]
    );
}

#[test]
fn opened_streams_get_fresh_ids_and_prefixes() {
    let mut s = WtServer::new();
    let (id, prefix) = s.plan_open_stream(false, 4, &[]).unwrap();
    assert_eq!(id, 3);
    assert_eq!(prefix, vec![0x40, 0x54, 0x04]);
    assert_eq!(s.finish_open_stream(id, 4, false, Ok(3)), Ok(3));
    assert_eq!(s.stream_session_id(3), Some(4));
    assert!(s.is_wt_classified(3));
    let (id, _) = s.plan_open_stream(false, 4, &[]).unwrap();
    assert_eq!(id, 7);
    assert_eq!(s.finish_open_stream(id, 4, false, Ok(3)), Ok(7));
    let (id, prefix) = s.plan_open_stream(true, 16384, &[]).unwrap();
    assert_eq!(id, 1);
    assert_eq!(prefix, vec![0x40, 0x41, 0x80, 0x00, 0x40, 0x00]);
    assert_eq!(s.finish_open_stream(id, 16384, true, Ok(6)), Ok(1));
    assert_eq!(s.plan_open_stream(true, 0, &[]).unwrap().0, 5);
    assert_eq!(s.plan_open_stream(false, 0, &[]).unwrap().0, 11);
}

#[test]
fn ids_taken_on_the_connection_are_skipped() {
    let mut s = WtServer::new();
    // HTTP/3's control and QPACK streams.
    assert_eq!(s.plan_open_stream(false, 0, &[3, 7, 11]).unwrap().0, 15);
    // A GREASE stream too, listed in any order.
    assert_eq!(s.plan_open_stream(false, 0, &[15, 3, 11, 7]).unwrap().0, 19);
    // Bidirectional ids are not moved by unidirectional ones.
    assert_eq!(s.plan_open_stream(true, 0, &[3, 7, 11]).unwrap().0, 1);
    assert_eq!(s.finish_open_stream(19, 0, false, Ok(3)), Ok(19));
    assert_eq!(s.plan_open_stream(false, 0, &[3, 7, 11]).unwrap().0, 23);
    assert!(s.knows_stream(19));
    assert!(!s.knows_stream(15));
}

#[test]
fn probing_ends_on_the_first_free_id() {
    let s = WtServer::new();
    let taken = [3u64, 7, 11, 15];
    let mut used: Vec<u64> = Vec::new();
    let id = loop {
        let (id, _) = s.plan_open_stream(false, 0, &used).unwrap();
        if taken.contains(&id) {
            used.push(id);
        } else {
            break id;
        }
    };
    assert_eq!(id, 19);
}

#[test]
fn no_id_past_the_largest() {
    let s = WtServer::new();
    assert!(s.plan_open_stream(false, 0, &[u64::MAX]).is_none());
    assert!(s.plan_open_stream(true, 0, &[u64::MAX - 2]).is_none());
    assert_eq!(s.plan_open_stream(true, 0, &[u64::MAX]).unwrap().0, 1);
}

#[test]
fn failed_open_leaves_no_trace() {
    let mut s = WtServer::new();
    let (id, _) = s.plan_open_stream(false, 0, &[]).unwrap();
    assert_eq!(
        s.finish_open_stream(id, 0, false, Err("stream_send failed: Done".to_string())),
        Err("stream_send failed: Done".to_string())
    );
    assert_eq!(s.stream_session_id(id), None);
    assert_eq!(s.plan_open_stream(false, 0, &[]).unwrap().0, 3);
}

#[test]
fn client_streams_do_not_move_server_ids() {
    let mut s = server_with_stream(4);
    s.on_readable(14);
    s.try_parse_prefix(14, &[0x40, 0x54, 0x00]);
    assert_eq!(s.plan_open_stream(false, 0, &[]).unwrap().0, 3);
    assert_eq!(s.plan_open_stream(true, 0, &[]).unwrap().0, 1);
}

#[test]
fn written_prefix_is_read_back() {
    let mut writer = WtServer::new();
    let (_, prefix) = writer.plan_open_stream(true, 151288809941952652, &[]).unwrap();
    let mut reader = WtServer::new();
    reader.on_readable(4);
    assert_eq!(
        reader.try_parse_prefix(4, &prefix),
        PrefixStep::Classified(WtEvent::NewStream { session_id: 151288809941952652, stream_id: 4, bidi: true })
    );
}

#[test]
fn integer_read_in_two_pieces() {
    // A session id of 300 is encoded on two bytes, 0x41 0x2c; the first read
    // stops inside it.
    let mut s = WtServer::new();
    s.on_readable(4);
    assert_eq!(s.try_parse_prefix(4, &[0x40, 0x41, 0x41]), PrefixStep::NeedMore);
    assert_eq!(s.prefix_read_len(4), Some(1));
    assert_eq!(
        s.try_parse_prefix(4, &[0x2c]),
        PrefixStep::Classified(WtEvent::NewStream { session_id: 300, stream_id: 4, bidi: true })
    );
    // The same bytes in one read give the same stream.
    let mut t = WtServer::new();
    t.on_readable(4);
    assert_eq!(
        t.try_parse_prefix(4, &[0x40, 0x41, 0x41, 0x2c]),
        PrefixStep::Classified(WtEvent::NewStream { session_id: 300, stream_id: 4, bidi: true })
    );
    assert_eq!(s.stream_session_id(4), t.stream_session_id(4));
}
