use raop_send::codec::Codec;
use raop_send::response::{Response, RtspError};
use raop_send::rtsp::{DevicePorts, Rtsp};

fn client() -> Rtsp {
    Rtsp::with_ids("10.0.0.1", 77, 0xABC, 0x0123_4567_89AB_CDEF, 4_000_000_000)
}

const BASE: &str = "User-Agent: iTunes/11.0.5 (Windows; N)\r\n\
                    Client-Instance: 0000000000000ABC\r\n\
                    DACP-ID: 0123456789ABCDEF\r\n\
                    Active-Remote: 4000000000\r\n";

fn response(lines: &[&str]) -> Response {
    let mut r = match Response::begin(Some(lines[0])) {
        Ok(r) => r,
        Err(_) => panic!("bad status line"),
    };
    for l in &lines[1..] {
        assert!(r.line(Some(l)));
    }
    assert!(!r.line(Some("\r\n")));
    r
}

fn message(r: Result<DevicePorts, RtspError>) -> String {
    match r {
        Ok(_) => panic!("accepted"),
        Err(e) => e.message(),
    }
}

#[test]
fn options_request() {
    let mut c = client();
    assert_eq!(c.requests(), 0);
    let r = c.options();
    assert_eq!(r.head, format!("OPTIONS * RTSP/1.0\r\nCSeq: 1\r\n{}\r\n", BASE));
    assert_eq!(r.body, "");
    assert_eq!(c.requests(), 1);
}

#[test]
fn requests_are_numbered() {
    let mut c = client();
    for n in 1..=12u32 {
        let r = c.keepalive();
        assert_eq!(r.head, format!("OPTIONS * RTSP/1.0\r\nCSeq: {}\r\n{}\r\n", n, BASE));
    }
    assert_eq!(c.requests(), 12);
}

#[test]
fn announce_alac() {
    let mut c = client();
    let r = c.announce("10.0.0.1", "10.0.0.2", 44100, Codec::Alac);
    let sdp = "v=0\r\n\
               o=iTunes 77 0 IN IP4 10.0.0.1\r\n\
               s=iTunes\r\n\
               c=IN IP4 10.0.0.2\r\n\
               t=0 0\r\n\
               m=audio 0 RTP/AVP 96\r\n\
               a=rtpmap:96 AppleLossless\r\n\
               a=fmtp:96 352 0 16 40 10 14 2 255 0 0 44100\r\n";
    assert_eq!(r.body, sdp);
    assert_eq!(
        r.head,
        format!(
            "ANNOUNCE rtsp://10.0.0.1/77 RTSP/1.0\r\nCSeq: 1\r\n{}Content-Type: application/sdp\r\nContent-Length: {}\r\n\r\n",
            BASE,
            sdp.len()
        )
    );
}

#[test]
fn announce_pcm() {
    let r = client().announce("10.0.0.1", "10.0.0.2", 48000, Codec::Pcm);
    assert_eq!(
        r.body,
        "v=0\r\no=iTunes 77 0 IN IP4 10.0.0.1\r\ns=iTunes\r\nc=IN IP4 10.0.0.2\r\nt=0 0\r\n\
         m=audio 0 RTP/AVP 96\r\na=rtpmap:96 L16/48000/2\r\n"
    );
}

#[test]
fn setup_request() {
    let r = client().setup(6001, 6002);
    assert_eq!(
        r.head,
        format!(
            "SETUP rtsp://10.0.0.1/77 RTSP/1.0\r\nCSeq: 1\r\n{}Transport: RTP/AVP/UDP;unicast;interleaved=0-1;\
             mode=record;control_port=6001;timing_port=6002\r\n\r\n",
            BASE
        )
    );
}

#[test]
fn later_requests_echo_the_session() {
    let mut c = client();
    let resp = response(&[
        "RTSP/1.0 200 OK\r\n",
        "Session: DEADBEEF\r\n",
        "Transport: RTP/AVP/UDP;unicast;mode=record;server_port=53561;control_port=63379;timing_port=50607\r\n",
    ]);
    let ports = c.setup_done(&resp);
    assert!(matches!(ports, Ok(DevicePorts { server: 53561, control: 63379, timing: 50607 })));

    let r = c.record(65_535, 4_294_967_295);
    assert_eq!(
        r.head,
        format!(
            "RECORD rtsp://10.0.0.1/77 RTSP/1.0\r\nCSeq: 1\r\n{}Range: npt=0-\r\nRTP-Info: seq=65535;rtptime=4294967295\r\n\
             Session: DEADBEEF\r\n\r\n",
            BASE
        )
    );
    let r = c.set_volume("-15.000000");
    assert_eq!(
        r.head,
        format!(
            "SET_PARAMETER rtsp://10.0.0.1/77 RTSP/1.0\r\nCSeq: 2\r\n{}Session: DEADBEEF\r\n\
             Content-Type: text/parameters\r\nContent-Length: 20\r\n\r\n",
            BASE
        )
    );
    assert_eq!(r.body, "volume: -15.000000\r\n");
    let r = c.options();
    assert_eq!(r.head, format!("OPTIONS * RTSP/1.0\r\nCSeq: 3\r\n{}Session: DEADBEEF\r\n\r\n", BASE));
    let r = c.keepalive();
    assert_eq!(r.head, format!("OPTIONS * RTSP/1.0\r\nCSeq: 4\r\n{}Session: DEADBEEF\r\n\r\n", BASE));
    let r = c.announce("10.0.0.1", "10.0.0.2", 44100, Codec::Alac);
    assert!(r.head.contains("Session: DEADBEEF\r\nContent-Type: application/sdp\r\n"));
    let r = c.setup(1, 2);
    assert!(r.head.contains("Session: DEADBEEF\r\nTransport: "));
    let r = c.teardown();
    assert_eq!(
        r.head,
        format!("TEARDOWN rtsp://10.0.0.1/77 RTSP/1.0\r\nCSeq: 7\r\n{}Session: DEADBEEF\r\n\r\n", BASE)
    );
}

#[test]
fn lengths_are_counted_in_bytes() {
    let r = client().set_volume("ö");
    assert!(r.head.contains("Content-Length: 12\r\n"));
    assert_eq!(r.body.len(), 12);
}

#[test]
fn new_clients_are_random() {
    let heads: Vec<String> = (0..4).map(|_| Rtsp::new("10.0.0.1").setup(1, 2).head).collect();
    for h in &heads {
        assert!(h.starts_with("SETUP rtsp://10.0.0.1/"));
        assert_eq!(h.lines().count(), 8);
    }
    assert!(heads.iter().any(|h| *h != heads[0]));
}

#[test]
fn ports_with_spaces() {
    let mut c = client();
    let resp = response(&[
        "RTSP/1.0 200 OK",
        "transport:timing_port=3; server_port=+1 ;server_port=9;x;control_port=2",
    ]);
    assert!(matches!(c.setup_done(&resp), Ok(DevicePorts { server: 1, control: 2, timing: 3 })));
}

#[test]
fn setup_errors() {
    let setup = |lines: &[&str]| message(client().setup_done(&response(lines)));
    assert_eq!(setup(&["RTSP/1.0 453 Not Enough Bandwidth"]), "SETUP failed: RTSP status 453");
    assert_eq!(setup(&["RTSP/1.0 200 OK", "Session: 1"]), "SETUP missing Transport");
    assert_eq!(setup(&["RTSP/1.0 200 OK", "Transport: control_port=1;timing_port=2"]), "no server_port");
    assert_eq!(setup(&["RTSP/1.0 200 OK", "Transport: server_port=x;server_port=1;control_port=1"]), "no server_port");
    assert_eq!(setup(&["RTSP/1.0 200 OK", "Transport: server_port=1;timing_port=2"]), "no control_port");
    assert_eq!(setup(&["RTSP/1.0 200 OK", "Transport: server_port=1;control_port=65536"]), "no control_port");
    assert_eq!(setup(&["RTSP/1.0 200 OK", "Transport: server_port=1;control_port=2"]), "no timing_port");
    assert_eq!(setup(&["RTSP/1.0 200 OK", "Transport: server_port=1;control_port=2;timing_port="]), "no timing_port");
}

#[test]
fn a_refused_setup_gives_no_session() {
    let mut c = client();
    assert!(c.setup_done(&response(&["RTSP/1.0 400 Bad", "Session: 5"])).is_err());
    assert!(c.teardown().head.contains("Session: \r\n"));
    assert!(c.setup_done(&response(&["RTSP/1.0 200 OK", "Session: 6"])).is_err());
    assert!(c.teardown().head.contains("Session: 6\r\n"));
}

#[test]
fn status_lines() {
    let status = |l: &str| Response::begin(Some(l)).map(|r| r.status()).ok();
    assert_eq!(status("RTSP/1.0 200 OK\r\n"), Some(200));
    assert_eq!(status("  x\t404"), Some(404));
    assert_eq!(status("RTSP/1.0 +201"), Some(201));
    assert_eq!(status("RTSP/1.0 65536 Big"), None);
    assert_eq!(status("RTSP/1.0 -1"), None);
    assert_eq!(status("RTSP/1.0"), None);
    assert_eq!(status("\r\n"), None);
}

#[test]
fn broken_connections() {
    match Response::begin(None) {
        Err(e) => assert_eq!(e.message(), "connection closed by device"),
        Ok(_) => panic!("accepted"),
    }
    match Response::begin(Some("hello")) {
        Err(e) => assert_eq!(e.message(), "bad status line"),
        Ok(_) => panic!("accepted"),
    }
    // The end of the stream ends the head.
    let mut r = match Response::begin(Some("RTSP/1.0 200 OK")) {
        Ok(r) => r,
        Err(_) => panic!("refused"),
    };
    assert!(!r.line(None));
}

#[test]
fn headers_are_read() {
    let r = response(&[
        "RTSP/1.0 200 OK\r\n",
        "CSeq: 3\r\n",
        "  Audio-Latency :\t2205 \r\n",
        "no header here\r\n",
        "Server: a:b:c\r\n",
        "Empty:\r\n",
    ]);
    assert_eq!(r.header("cseq").map(|s| s.as_str()), Some("3"));
    assert_eq!(r.header("audio-latency").map(|s| s.as_str()), Some("2205"));
    assert_eq!(r.header("server").map(|s| s.as_str()), Some("a:b:c"));
    assert_eq!(r.header("empty").map(|s| s.as_str()), Some(""));
    assert!(r.header("CSeq").is_none());
    assert!(r.header("no header here").is_none());
}

#[test]
fn the_last_header_counts() {
    let r = response(&["RTSP/1.0 200 OK", "Session: 1", "session: 2", "X: 3"]);
    assert_eq!(r.header("session").map(|s| s.as_str()), Some("2"));
}

#[test]
fn bodies() {
    assert_eq!(response(&["RTSP/1.0 200 OK"]).body_len(), 0);
    assert_eq!(response(&["RTSP/1.0 200 OK", "Content-Length: 12"]).body_len(), 12);
    assert_eq!(response(&["RTSP/1.0 200 OK", "content-length: many"]).body_len(), 0);
    let r = response(&["RTSP/1.0 200 OK", "X: y"]).with_body(vec![1, 2]);
    assert_eq!(r.status(), 200);
    assert_eq!(r.header("x").map(|s| s.as_str()), Some("y"));
}

#[test]
fn accepted_statuses() {
    for (status, ok) in [(199, false), (200, true), (299, true), (300, false), (0, false)] {
        let r = response(&[&format!("RTSP/1.0 {}", status)]);
        match r.check("RECORD") {
            Ok(()) => assert!(ok),
            Err(e) => {
                assert!(!ok);
                assert_eq!(e.message(), format!("RECORD failed: RTSP status {}", status));
            }
        }
    }
}
