use raop_send::audio::{make_packet, StreamParams};
use raop_send::codec::{encode, Codec};
use raop_send::response::Response;
use raop_send::rtsp::{DevicePorts, Request, Rtsp};
use raop_send::session::{Session, SessionAction, SessionConfig, SessionEvent, KEEPALIVE_MS};
use raop_send::stream::SYNC_MS;

fn session() -> Session {
    Session::new(
        SessionConfig {
            client_ip: "10.0.0.1".to_string(),
            device_ip: "10.0.0.2".to_string(),
            control_port: 6001,
            timing_port: 6002,
            volume_db: "-15.000000".to_string(),
            params: StreamParams { codec: Codec::Pcm, seq_start: 11, rtp_start: 22, ssrc: 33, latency: 44 },
        },
        Rtsp::with_ids("10.0.0.1", 77, 1, 2, 3),
    )
}

fn reply(lines: &[&str]) -> SessionEvent {
    let mut r = match Response::begin(Some(lines[0])) {
        Ok(r) => r,
        Err(_) => panic!("bad status line"),
    };
    for l in &lines[1..] {
        r.line(Some(l));
    }
    SessionEvent::Reply(r)
}

fn ok() -> SessionEvent {
    reply(&["RTSP/1.0 200 OK"])
}

fn set_up() -> SessionEvent {
    reply(&["RTSP/1.0 200 OK", "Session: S", "Transport: server_port=1;control_port=2;timing_port=3"])
}

const PORTS: DevicePorts = DevicePorts { server: 1, control: 2, timing: 3 };

fn sent(action: SessionAction) -> Request {
    match action {
        SessionAction::Send(r) => r,
        _ => panic!("nothing sent"),
    }
}

fn failed(action: SessionAction) -> String {
    match action {
        SessionAction::Fail(e) => e.message(),
        _ => panic!("did not fail"),
    }
}

fn nothing(action: SessionAction) -> bool {
    matches!(action, SessionAction::Nothing)
}

/// A session that has made its way through so many steps.
fn after(steps: usize) -> Session {
    let mut s = session();
    for i in 0..steps {
        let event = match i {
            0 => SessionEvent::Begin,
            1 | 2 => ok(),
            3 => set_up(),
            4 => SessionEvent::Ready,
            5 | 6 => ok(),
            _ => SessionEvent::InputEnded,
        };
        assert!(!nothing(s.step(event)));
    }
    s
}

#[test]
fn a_whole_session() {
    let mut s = session();
    let options = sent(s.step(SessionEvent::Begin));
    assert!(options.head.starts_with("OPTIONS * RTSP/1.0\r\nCSeq: 1\r\n"));
    assert!(!options.head.contains("Session"));
    let announce = sent(s.step(ok()));
    assert!(announce.head.starts_with("ANNOUNCE rtsp://10.0.0.1/77 RTSP/1.0\r\nCSeq: 2\r\n"));
    assert!(announce.body.contains("c=IN IP4 10.0.0.2\r\n"));
    assert!(announce.body.contains("L16/44100/2\r\n"));
    let setup = sent(s.step(ok()));
    assert!(setup.head.starts_with("SETUP rtsp://10.0.0.1/77 RTSP/1.0\r\nCSeq: 3\r\n"));
    assert!(setup.head.contains(";control_port=6001;timing_port=6002\r\n"));
    match s.step(set_up()) {
        SessionAction::StartResponders(p) => assert_eq!(p, PORTS),
        _ => panic!("no responders"),
    }
    let record = sent(s.step(SessionEvent::Ready));
    assert!(record.head.starts_with("RECORD rtsp://10.0.0.1/77 RTSP/1.0\r\nCSeq: 4\r\n"));
    assert!(record.head.contains("RTP-Info: seq=11;rtptime=22\r\nSession: S\r\n"));
    let volume = sent(s.step(ok()));
    assert!(volume.head.starts_with("SET_PARAMETER rtsp://10.0.0.1/77 RTSP/1.0\r\nCSeq: 5\r\n"));
    assert_eq!(volume.body, "volume: -15.000000\r\n");
    match s.step(ok()) {
        SessionAction::Stream(p) => assert_eq!(p, PORTS),
        _ => panic!("no stream"),
    }
    let keepalive = s.keepalive().unwrap();
    assert!(keepalive.head.starts_with("OPTIONS * RTSP/1.0\r\nCSeq: 6\r\n"));
    assert!(keepalive.head.ends_with("Session: S\r\n\r\n"));
    let teardown = sent(s.step(SessionEvent::InputEnded));
    assert!(teardown.head.starts_with("TEARDOWN rtsp://10.0.0.1/77 RTSP/1.0\r\nCSeq: 7\r\n"));
    assert!(teardown.head.contains("Session: S\r\n"));
    assert_eq!(s.requests(), 7);
    // Whatever the answer, that was all.
    assert!(nothing(s.step(reply(&["RTSP/1.0 500 Oops"]))));
}

#[test]
fn refusals_end_a_session() {
    for (steps, method) in [(1, "OPTIONS"), (2, "ANNOUNCE"), (3, "SETUP"), (5, "RECORD"), (6, "SET_PARAMETER")] {
        let mut s = after(steps);
        let no = || reply(&["RTSP/1.0 403 Forbidden"]);
        assert_eq!(failed(s.step(no())), format!("{} failed: RTSP status 403", method));
        assert!(nothing(s.step(ok())));
        assert!(nothing(s.step(SessionEvent::Ready)));
        assert!(nothing(s.step(SessionEvent::InputEnded)));
        assert!(s.keepalive().is_none());
    }
}

#[test]
fn a_setup_without_ports_fails() {
    assert_eq!(failed(after(3).step(ok())), "SETUP missing Transport");
    assert_eq!(failed(after(3).step(reply(&["RTSP/1.0 200 OK", "Transport: x"]))), "no server_port");
}

#[test]
fn record_waits_for_the_responders() {
    let mut s = after(4);
    assert!(nothing(s.step(ok())));
    assert!(nothing(s.step(SessionEvent::Begin)));
    assert!(nothing(s.step(SessionEvent::InputEnded)));
    assert!(sent(s.step(SessionEvent::Ready)).head.starts_with("RECORD "));
}

#[test]
fn events_out_of_turn_do_nothing() {
    let mut s = session();
    assert!(nothing(s.step(ok())));
    assert!(nothing(s.step(SessionEvent::Ready)));
    assert!(nothing(s.step(SessionEvent::InputEnded)));
    assert_eq!(s.requests(), 0);
    let mut s = after(1);
    assert!(nothing(s.step(SessionEvent::Begin)));
    assert_eq!(s.requests(), 1);
}

#[test]
fn keepalive_only_while_streaming() {
    for steps in 0..=8 {
        assert_eq!(after(steps).keepalive().is_some(), steps == 7);
    }
}

#[test]
fn the_stream_is_what_was_announced() {
    for (codec, media) in [(Codec::Alac, "352 0 16 40 10 14 2 255 0 0 44100\r\n"), (Codec::Pcm, "L16/44100/2\r\n")] {
        let params = StreamParams { codec, seq_start: 500, rtp_start: 600, ssrc: 1, latency: 0 };
        let config = SessionConfig {
            client_ip: "10.0.0.1".to_string(),
            device_ip: "10.0.0.2".to_string(),
            control_port: 1,
            timing_port: 2,
            volume_db: "0.000000".to_string(),
            params,
        };
        let mut s = Session::new(config, Rtsp::new("10.0.0.1"));
        s.step(SessionEvent::Begin);
        assert!(sent(s.step(ok())).body.ends_with(media));
        s.step(ok());
        s.step(set_up());
        let record = sent(s.step(SessionEvent::Ready));
        let pcm = [7u8; 1408];
        let mut payload = Vec::new();
        encode(codec, &mut payload, &pcm);
        let first = make_packet(&params, 0, &pcm);
        assert_eq!(first.bytes[12..], payload[..]);
        assert!(record.head.contains(&format!("seq={};rtptime={}\r\n", first.seq, first.timestamp)));
    }
}

#[test]
fn periods() {
    assert_eq!(KEEPALIVE_MS, 2000);
    assert_eq!(SYNC_MS, 1000);
}
