use quiche4j_jni::event::{H3Event, WtEvent};
use quiche4j_jni::headers::Header;
use quiche4j_jni::poll::{PollAction, PollRun};
use quiche4j_jni::server::WtServer;
use std::collections::HashMap;

/// Bytes waiting on each stream, and whether a FIN follows them.
struct FakeConn {
    streams: HashMap<u64, (Vec<u8>, bool)>,
    reads: Vec<(u64, usize)>,
}

impl FakeConn {
    fn new() -> Self {
        FakeConn { streams: HashMap::new(), reads: Vec::new() }
    }

    fn arrive(&mut self, id: u64, bytes: &[u8], fin: bool) {
        let entry = self.streams.entry(id).or_insert((Vec::new(), false));
        entry.0.extend_from_slice(bytes);
        entry.1 = entry.1 || fin;
    }

    fn recv(&mut self, id: u64, out: &mut [u8]) -> Option<(usize, bool)> {
        let (data, fin) = self.streams.get_mut(&id)?;
        if data.is_empty() && !*fin {
            return None;
        }
        let n = data.len().min(out.len());
        out[..n].copy_from_slice(&data[..n]);
        data.drain(..n);
        let done = data.is_empty() && *fin;
        if done {
            self.streams.remove(&id);
        }
        self.reads.push((id, n));
        Some((n, done))
    }
}

/// Runs one poll the way the driver does, with the given readable streams and
/// HTTP/3 events; returns the events and the streams where a session was accepted.
fn poll(
    server: &mut WtServer,
    conn: &mut FakeConn,
    readable: Vec<u64>,
    h3: Vec<(u64, H3Event)>,
) -> (Vec<WtEvent>, Vec<u64>) {
    let mut h3 = h3.into_iter();
    let mut accepted = Vec::new();
    let mut run = PollRun::new(readable);
    let mut action = run.step(server);
    loop {
        action = match action {
            PollAction::ReadPrefix { stream_id, len } => {
                let mut buf = vec![0u8; len];
                let got = match conn.recv(stream_id, &mut buf) {
                    Some((n, _)) => n,
                    None => 0,
                };
                run.prefix_read(server, &buf[..got])
            }
            PollAction::Drain { stream_id } => {
                let mut tmp = [0u8; 4];
                match conn.recv(stream_id, &mut tmp) {
                    Some((n, fin)) => run.drained(server, &tmp[..n], fin),
                    None => run.drain_failed(server),
                }
            }
            PollAction::PollH3 => match h3.next() {
                Some((id, ev)) => run.h3_event(server, id, ev),
                None => run.h3_done(server),
            },
            PollAction::Accept { stream_id } => {
                accepted.push(stream_id);
                run.accepted(server)
            }
            PollAction::Done => break,
        };
    }
    (run.into_events(), accepted)
}

fn h(name: &str, value: &str) -> Header {
    Header::new(name.as_bytes(), value.as_bytes())
}

#[test]
fn new_stream_is_announced_without_data_event() {
    let mut s = WtServer::new();
    let mut c = FakeConn::new();
    c.arrive(4, &[0x40, 0x41, 0x00, b'h', b'i'], false);
    let (events, _) = poll(&mut s, &mut c, vec![4], vec![]);
    assert_eq!(events, vec![WtEvent::NewStream { session_id: 0, stream_id: 4, bidi: true }]);
    // The prefix was read one integer at a time: 1 byte, 1 byte, 1 byte; then the payload.
    assert_eq!(&c.reads[..3], &[(4, 1), (4, 1), (4, 1)]);
    let mut out = [0u8; 8];
    assert_eq!(s.stream_recv(4, &mut out), 2);
    assert_eq!(&out[..2], b"hi");
}

#[test]
fn data_event_for_a_classified_stream() {
    let mut s = WtServer::new();
    let mut c = FakeConn::new();
    c.arrive(4, &[0x40, 0x41, 0x00], false);
    poll(&mut s, &mut c, vec![4], vec![]);
    c.arrive(4, b"hello world", false);
    let (events, _) = poll(&mut s, &mut c, vec![4], vec![]);
    assert_eq!(events, vec![WtEvent::Data { stream_id: 4 }]);
    let mut out = [0u8; 16];
    assert_eq!(s.stream_recv(4, &mut out), 11);
    assert_eq!(&out[..11], b"hello world");
    // Nothing new: no event.
    let (events, _) = poll(&mut s, &mut c, vec![4], vec![]);
    assert!(events.is_empty());
}

#[test]
fn end_is_reported_once_across_polls() {
    let mut s = WtServer::new();
    let mut c = FakeConn::new();
    c.arrive(4, &[0x40, 0x54, 0x08], false);
    poll(&mut s, &mut c, vec![4], vec![]);
    c.arrive(4, b"last", true);
    let (events, _) = poll(&mut s, &mut c, vec![4], vec![]);
    // The payload is not read yet: no end.
    assert_eq!(events, vec![WtEvent::Data { stream_id: 4 }]);
    let mut out = [0u8; 8];
    assert_eq!(s.stream_recv(4, &mut out), 4);
    assert!(s.stream_fin_reached(4));
    let (events, _) = poll(&mut s, &mut c, vec![], vec![]);
    assert_eq!(events, vec![WtEvent::Finished { stream_id: 4 }]);
    let (events, _) = poll(&mut s, &mut c, vec![], vec![]);
    assert!(events.is_empty());
    assert!(s.stream_fin_reached(4));
    assert_eq!(s.stream_session_id(4), Some(8));
}

#[test]
fn phases_run_in_order() {
    let mut s = WtServer::new();
    let mut c = FakeConn::new();
    c.arrive(4, &[0x40, 0x41, 0x00, b'x'], false);
    c.arrive(8, &[0x01, b'G', b'E'], false);
    let connect = vec![
        h(":method", "CONNECT"),
        h(":protocol", "webtransport"),
        h(":path", "/wt"),
    ];
    let (events, accepted) = poll(
        &mut s,
        &mut c,
        vec![0, 4, 8, 2],
        vec![
            (0, H3Event::Headers { list: connect, more_frames: true }),
            (4, H3Event::Data),
            (12, H3Event::Data),
        ],
    );
    assert_eq!(
        events,
        vec![
            WtEvent::NewStream { session_id: 0, stream_id: 4, bidi: true },
            WtEvent::NewSession { session_id: 0, path: "/wt".to_string() },
            WtEvent::H3Data { stream_id: 12 },
        ]
    );
    assert_eq!(accepted, vec![0]);
    // Stream 8 is not WebTransport: only its type byte was read.
    assert_eq!(c.streams.get(&8).unwrap().0, b"GE".to_vec());
    // Streams 0 and 2 belong to HTTP/3 and were not read.
    assert!(c.reads.iter().all(|(id, _)| *id == 4 || *id == 8));
}

#[test]
fn prefix_split_across_polls() {
    let mut s = WtServer::new();
    let mut c = FakeConn::new();
    c.arrive(4, &[0x40], false);
    let (events, _) = poll(&mut s, &mut c, vec![4], vec![]);
    assert!(events.is_empty());
    c.arrive(4, &[0x54, 0x80], false);
    let (events, _) = poll(&mut s, &mut c, vec![4], vec![]);
    assert!(events.is_empty());
    assert_eq!(s.prefix_read_len(4), Some(3));
    c.arrive(4, &[0x00, 0x40, 0x00, b'p'], false);
    let (events, _) = poll(&mut s, &mut c, vec![4], vec![]);
    assert_eq!(
        events,
        vec![WtEvent::NewStream { session_id: 16384, stream_id: 4, bidi: false }]
    );
    let mut out = [0u8; 4];
    assert_eq!(s.stream_recv(4, &mut out), 1);
    assert_eq!(out[0], b'p');
}

#[test]
fn one_poll_keeps_every_phase_in_order() {
    let mut s = WtServer::new();
    let mut c = FakeConn::new();
    c.arrive(4, &[0x40, 0x41, 0x00, b'a', b'b'], true);
    let (events, _) = poll(&mut s, &mut c, vec![4], vec![]);
    assert_eq!(events, vec![WtEvent::NewStream { session_id: 0, stream_id: 4, bidi: true }]);
    let mut out = [0u8; 4];
    assert_eq!(s.stream_recv(4, &mut out), 2);
    assert!(s.stream_fin_reached(4));
    c.arrive(8, &[0x40, 0x54, 0x00], false);
    let (events, _) = poll(&mut s, &mut c, vec![8], vec![(12, H3Event::Data), (8, H3Event::Data)]);
    assert_eq!(
        events,
        vec![
            WtEvent::NewStream { session_id: 0, stream_id: 8, bidi: false },
            WtEvent::H3Data { stream_id: 12 },
            WtEvent::Finished { stream_id: 4 },
        ]
    );
    assert_eq!(s.stream_session_id(12), None);
    let (events, _) = poll(&mut s, &mut c, vec![], vec![]);
    assert!(events.is_empty());
}
