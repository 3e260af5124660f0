//! The requests of a minimal RAOP RTSP client (the TCP control channel).
//!
//! Just the verbs that a realtime, unencrypted AirPlay-1 session needs:
//! OPTIONS, ANNOUNCE, SETUP, RECORD, SET_PARAMETER (volume), TEARDOWN. No
//! encryption (et=0) and no Apple-Challenge.

use crate::audio::FRAMES_PER_PACKET;
use crate::codec::Codec;
use crate::random::{drawn32, drawn64};
use crate::response::{lookup, Response, ResponseView, RtspError};
use crate::text::{
    after_last, chars_of, decimal, first_word, has_prefix, hex_digits, is_digit, is_white, join,
    lemma_after_last_ignores_prefix, lemma_after_last_none, lemma_decimal_round_trip, lemma_first_word,
    lemma_join_adds_separators, lemma_split_of_join, parse_unsigned, push_decimal, push_hex, same,
    split, split_at_char, string_of, strip_prefix, suffix_after, texts, trim, trimmed, unsigned,
};
use vstd::prelude::*;
use vstd::string::{StringExecFns, StringSliceAdditionalSpecFns};
use vstd::utf8::encode_utf8;

verus! {

/// A header: its name and its value.
pub type Header = (Seq<char>, Seq<char>);

/// A request to be sent: its head, up to and with the empty line, and its body.
pub struct Request {
    pub head: String,
    pub body: String,
}

/// A `Request` as a value.
pub struct RequestView {
    pub head: Seq<char>,
    pub body: Seq<char>,
}

impl View for Request {
    type V = RequestView;

    open spec fn view(&self) -> RequestView {
        RequestView { head: self.head@, body: self.body@ }
    }
}

/// One header line.
pub open spec fn header_line(h: Header) -> Seq<char> {
    h.0 + ": "@ + h.1 + "\r\n"@
}

/// Header lines, one after the other.
pub open spec fn header_lines(hs: Seq<Header>) -> Seq<char>
    decreases hs.len(),
{
    if hs.len() == 0 {
        Seq::<char>::empty()
    } else {
        header_lines(hs.drop_last()) + header_line(hs.last())
    }
}

/// The headers that go with a body of the given type: its type, and its
/// length in bytes.
pub open spec fn content_headers(content_type: Option<Seq<char>>, body: Seq<char>) -> Seq<Header> {
    match content_type {
        Some(ct) => seq![("Content-Type"@, ct), ("Content-Length"@, decimal(encode_utf8(body).len()))],
        None => Seq::<Header>::empty(),
    }
}

/// A request: the request line, its number, the headers, an empty line, and
/// the body.
pub open spec fn request(
    method: Seq<char>,
    uri: Seq<char>,
    cseq: nat,
    headers: Seq<Header>,
    content_type: Option<Seq<char>>,
    body: Seq<char>,
) -> RequestView {
    RequestView {
        head: method + " "@ + uri + " RTSP/1.0\r\n"@ + header_line(("CSeq"@, decimal(cseq))) + header_lines(
            headers + content_headers(content_type, body),
        ) + "\r\n"@,
        body,
    }
}

/// The state of a client.
pub struct Rtsp {
    cseq: u32,
    uri: String,
    /// Persistent headers sent on every request.
    base_headers: Vec<(String, String)>,
    /// Session id returned by SETUP, echoed on later requests.
    session: String,
}

/// An `Rtsp` as a value.
pub struct RtspView {
    /// How many requests there were.
    pub cseq: nat,
    pub uri: Seq<char>,
    pub base_headers: Seq<Header>,
    pub session: Seq<char>,
}

/// Headers as values.
pub open spec fn header_views(hs: Seq<(String, String)>) -> Seq<Header> {
    hs.map_values(|h: (String, String)| (h.0@, h.1@))
}

/// Headers as values.
pub open spec fn extra_views(hs: Seq<(&str, &str)>) -> Seq<Header> {
    hs.map_values(|h: (&str, &str)| (h.0@, h.1@))
}

impl View for Rtsp {
    type V = RtspView;

    closed spec fn view(&self) -> RtspView {
        RtspView {
            cseq: self.cseq as nat,
            uri: self.uri@,
            base_headers: header_views(self.base_headers@),
            session: self.session@,
        }
    }
}

/// The client after one more request.
pub open spec fn counted(c: RtspView) -> RtspView {
    RtspView { cseq: c.cseq + 1, ..c }
}

/// The next request of a client.
pub open spec fn next_request(
    c: RtspView,
    method: Seq<char>,
    uri: Seq<char>,
    extra: Seq<Header>,
    content_type: Option<Seq<char>>,
    body: Seq<char>,
) -> RequestView {
    request(method, uri, c.cseq + 1, c.base_headers + extra, content_type, body)
}

/// The header that echoes the session id, once SETUP has returned one.
pub open spec fn session_headers(session: Seq<char>) -> Seq<Header> {
    if session.len() == 0 {
        Seq::<Header>::empty()
    } else {
        seq![("Session"@, session)]
    }
}

/// The address of a session, by which the receiver knows it.
pub open spec fn session_uri(client_ip: Seq<char>, sid: u32) -> Seq<char> {
    "rtsp://"@ + client_ip + "/"@ + decimal(sid as nat)
}

/// The headers that a client sends on every request.
pub open spec fn client_headers(instance: u64, dacp: u64, active: u32) -> Seq<Header> {
    seq![
        ("User-Agent"@, "iTunes/11.0.5 (Windows; N)"@),
        ("Client-Instance"@, hex_digits(instance as nat, 16)),
        ("DACP-ID"@, hex_digits(dacp as nat, 16)),
        ("Active-Remote"@, decimal(active as nat)),
    ]
}

/// A client that has made no request yet.
pub open spec fn fresh_client(
    client_ip: Seq<char>,
    sid: u32,
    instance: u64,
    dacp: u64,
    active: u32,
) -> RtspView {
    RtspView {
        cseq: 0,
        uri: session_uri(client_ip, sid),
        base_headers: client_headers(instance, dacp, active),
        session: Seq::<char>::empty(),
    }
}

/// The session number in the address.
pub open spec fn session_number(uri: Seq<char>) -> Seq<char> {
    after_last(uri, '/')
}

/// The description of what is sent, which must match the payload format:
/// ALAC with the frames of a packet, or L16 for raw PCM.
pub open spec fn media_text(codec: Codec, sample_rate: u32) -> Seq<char> {
    match codec {
        Codec::Alac => "m=audio 0 RTP/AVP 96\r\na=rtpmap:96 AppleLossless\r\na=fmtp:96 "@ + decimal(
            FRAMES_PER_PACKET as nat,
        ) + " 0 16 40 10 14 2 255 0 0 "@ + decimal(sample_rate as nat) + "\r\n"@,
        Codec::Pcm => "m=audio 0 RTP/AVP 96\r\na=rtpmap:96 L16/"@ + decimal(sample_rate as nat) + "/2\r\n"@,
    }
}

/// The session description of an ANNOUNCE. There are no key lines: the
/// session is not encrypted.
pub open spec fn sdp_text(
    sid: Seq<char>,
    client_ip: Seq<char>,
    device_ip: Seq<char>,
    codec: Codec,
    sample_rate: u32,
) -> Seq<char> {
    "v=0\r\no=iTunes "@ + sid + " 0 IN IP4 "@ + client_ip + "\r\ns=iTunes\r\nc=IN IP4 "@ + device_ip
        + "\r\nt=0 0\r\n"@ + media_text(codec, sample_rate)
}

/// Where we want to be sent retransmit and timing requests.
pub open spec fn transport_text(control_port: u16, timing_port: u16) -> Seq<char> {
    "RTP/AVP/UDP;unicast;interleaved=0-1;mode=record;control_port="@ + decimal(control_port as nat)
        + ";timing_port="@ + decimal(timing_port as nat)
}

/// Where the stream starts.
pub open spec fn rtp_info_text(seq: u16, rtptime: u32) -> Seq<char> {
    "seq="@ + decimal(seq as nat) + ";rtptime="@ + decimal(rtptime as nat)
}

fn push_header(out: &mut String, name: &str, value: &str)
    ensures
        final(out)@ == old(out)@ + header_line((name@, value@)),
{
    out.append(name);
    out.append(": ");
    out.append(value);
    out.append("\r\n");
    assert(out@ =~= old(out)@ + header_line((name@, value@)));
}

proof fn lemma_header_lines_push(hs: Seq<Header>, h: Header)
    ensures
        header_lines(hs.push(h)) == header_lines(hs) + header_line(h),
{
    assert(hs.push(h).drop_last() =~= hs);
}

fn decimal_string(x: u64) -> (s: String)
    ensures
        s@ == decimal(x as nat),
{
    let mut s: String = String::new();
    push_decimal(&mut s, x);
    assert(s@ =~= decimal(x as nat));
    s
}

fn hex_string(x: u64) -> (s: String)
    ensures
        s@ == hex_digits(x as nat, 16),
{
    let mut s: String = String::new();
    push_hex(&mut s, x, 16);
    assert(s@ =~= hex_digits(x as nat, 16));
    s
}

/// The header that echoes the session id, if there is one.
fn session_extra<'a>(session: &'a str) -> (extra: Vec<(&'a str, &'a str)>)
    ensures
        extra_views(extra@) == session_headers(session@),
{
    let mut extra: Vec<(&'a str, &'a str)> = Vec::new();
    if !same(session, "") {
        extra.push(("Session", session));
    }
    proof {
        reveal_strlit("");
        assert(session@.len() == 0 ==> session@ =~= ""@);
        assert(extra_views(extra@) =~= session_headers(session@));
    }
    extra
}

impl Rtsp {
    /// A client with the given random numbers.
    pub fn with_ids(client_ip: &str, sid: u32, instance: u64, dacp: u64, active: u32) -> (c: Self)
        ensures
            c@ == fresh_client(client_ip@, sid, instance, dacp, active),
    {
        let mut uri: String = "rtsp://".to_owned();
        uri.append(client_ip);
        uri.append("/");
        push_decimal(&mut uri, sid as u64);
        let mut base_headers: Vec<(String, String)> = Vec::new();
        base_headers.push(("User-Agent".to_owned(), "iTunes/11.0.5 (Windows; N)".to_owned()));
        base_headers.push(("Client-Instance".to_owned(), hex_string(instance)));
        base_headers.push(("DACP-ID".to_owned(), hex_string(dacp)));
        base_headers.push(("Active-Remote".to_owned(), decimal_string(active as u64)));
        let c = Rtsp { cseq: 0, uri, base_headers, session: String::new() };
        assert(c@.base_headers =~= client_headers(instance, dacp, active));
        c
    }

    /// A client for a new session, under random numbers.
    pub fn new(client_ip: &str) -> (c: Self)
        ensures
            exists|sid: u32, instance: u64, dacp: u64, active: u32|
                drawn32(sid) && drawn64(instance) && drawn64(dacp) && drawn32(active) && c@
                    == #[trigger] fresh_client(client_ip@, sid, instance, dacp, active),
    {
        let sid: u32 = rand::random();
        let dacp: u64 = rand::random();
        let active: u32 = rand::random();
        let instance: u64 = rand::random();
        Rtsp::with_ids(client_ip, sid, instance, dacp, active)
    }

    /// How many requests there were.
    pub fn requests(&self) -> (n: u32)
        ensures
            n == self@.cseq,
    {
        self.cseq
    }

    /// The next request.
    fn request(
        &mut self,
        method: &str,
        uri: &str,
        extra: &[(&str, &str)],
        content_type: Option<&str>,
        body: String,
    ) -> (r: Request)
        requires
            old(self)@.cseq < u32::MAX,
        ensures
            final(self)@ == counted(old(self)@),
            r@ == next_request(
                old(self)@,
                method@,
                uri@,
                extra_views(extra@),
                match content_type {
                    Some(ct) => Some(ct@),
                    None => None,
                },
                body@,
            ),
    {
        self.cseq = self.cseq + 1;
        let mut head: String = method.to_owned();
        head.append(" ");
        head.append(uri);
        head.append(" RTSP/1.0\r\n");
        push_header(&mut head, "CSeq", decimal_string(self.cseq as u64).as_str());
        let ghost start = head@;
        let ghost base = header_views(self.base_headers@);
        let ghost more = extra_views(extra@);
        let ghost mut hs: Seq<Header> = Seq::<Header>::empty();
        assert(head@ =~= start + header_lines(hs));

        let mut i: usize = 0;
        while i < self.base_headers.len()
            invariant
                i <= self.base_headers@.len(),
                base == header_views(self.base_headers@),
                hs == base.take(i as int),
                head@ == start + header_lines(hs),
            decreases self.base_headers@.len() - i,
        {
            let h: &(String, String) = &self.base_headers[i];
            push_header(&mut head, h.0.as_str(), h.1.as_str());
            proof {
                lemma_header_lines_push(hs, base[i as int]);
                assert(head@ =~= start + header_lines(hs.push(base[i as int])));
                hs = hs.push(base[i as int]);
                assert(hs =~= base.take(i + 1));
            }
            i = i + 1;
        }
        assert(hs =~= base + more.take(0));
        let mut j: usize = 0;
        while j < extra.len()
            invariant
                j <= extra@.len(),
                more == extra_views(extra@),
                hs == base + more.take(j as int),
                head@ == start + header_lines(hs),
            decreases extra@.len() - j,
        {
            let h: (&str, &str) = extra[j];
            push_header(&mut head, h.0, h.1);
            proof {
                lemma_header_lines_push(hs, more[j as int]);
                assert(head@ =~= start + header_lines(hs.push(more[j as int])));
                hs = hs.push(more[j as int]);
                assert(hs =~= base + more.take(j + 1));
            }
            j = j + 1;
        }
        assert(hs =~= base + more);
        if let Some(ct) = content_type {
            let n: usize = body.as_str().as_bytes().len();
            push_header(&mut head, "Content-Type", ct);
            push_header(&mut head, "Content-Length", decimal_string(n as u64).as_str());
            proof {
                let h1 = ("Content-Type"@, ct@);
                let h2 = ("Content-Length"@, decimal(n as nat));
                lemma_header_lines_push(hs, h1);
                lemma_header_lines_push(hs.push(h1), h2);
                assert(head@ =~= start + header_lines(hs.push(h1).push(h2)));
                hs = hs.push(h1).push(h2);
                assert(hs =~= base + more + content_headers(Some(ct@), body@));
            }
        } else {
            assert(hs =~= base + more + content_headers(None, body@));
        }
        head.append("\r\n");
        Request { head, body }
    }
}

// ---------------------------------------------------------------------------
// The verbs

impl Rtsp {
    /// Ask what the device can do. Once there is a session, its id goes along.
    pub fn options(&mut self) -> (r: Request)
        requires
            old(self)@.cseq < u32::MAX,
        ensures
            final(self)@ == counted(old(self)@),
            r@ == next_request(
                old(self)@,
                "OPTIONS"@,
                "*"@,
                session_headers(old(self)@.session),
                None,
                Seq::empty(),
            ),
    {
        let session: String = self.session.clone();
        let extra: Vec<(&str, &str)> = session_extra(session.as_str());
        self.request("OPTIONS", "*", extra.as_slice(), None, String::new())
    }

    /// Describe the stream. The session number in the description is the one
    /// in the session's address.
    pub fn announce(&mut self, client_ip: &str, device_ip: &str, sample_rate: u32, codec: Codec) -> (r: Request)
        requires
            old(self)@.cseq < u32::MAX,
        ensures
            final(self)@ == counted(old(self)@),
            r@ == next_request(
                old(self)@,
                "ANNOUNCE"@,
                old(self)@.uri,
                session_headers(old(self)@.session),
                Some("application/sdp"@),
                sdp_text(session_number(old(self)@.uri), client_ip@, device_ip@, codec, sample_rate),
            ),
    {
        let uri: String = self.uri.clone();
        let sid: String = string_of(suffix_after(chars_of(uri.as_str()).as_slice(), '/'));
        let mut sdp: String = "v=0\r\no=iTunes ".to_owned();
        sdp.append(sid.as_str());
        sdp.append(" 0 IN IP4 ");
        sdp.append(client_ip);
        sdp.append("\r\ns=iTunes\r\nc=IN IP4 ");
        sdp.append(device_ip);
        sdp.append("\r\nt=0 0\r\n");
        push_media(&mut sdp, codec, sample_rate);
        let session: String = self.session.clone();
        let extra: Vec<(&str, &str)> = session_extra(session.as_str());
        self.request("ANNOUNCE", uri.as_str(), extra.as_slice(), Some("application/sdp"), sdp)
    }

    /// Tell the device where to send its retransmit and timing requests.
    pub fn setup(&mut self, control_port: u16, timing_port: u16) -> (r: Request)
        requires
            old(self)@.cseq < u32::MAX,
        ensures
            final(self)@ == counted(old(self)@),
            r@ == next_request(
                old(self)@,
                "SETUP"@,
                old(self)@.uri,
                session_headers(old(self)@.session).push(("Transport"@, transport_text(control_port, timing_port))),
                None,
                Seq::empty(),
            ),
    {
        let mut transport: String =
            "RTP/AVP/UDP;unicast;interleaved=0-1;mode=record;control_port=".to_owned();
        push_decimal(&mut transport, control_port as u64);
        transport.append(";timing_port=");
        push_decimal(&mut transport, timing_port as u64);
        let uri: String = self.uri.clone();
        let session: String = self.session.clone();
        let mut extra: Vec<(&str, &str)> = session_extra(session.as_str());
        extra.push(("Transport", transport.as_str()));
        assert(extra_views(extra@) =~= session_headers(session@).push(("Transport"@, transport@)));
        self.request("SETUP", uri.as_str(), extra.as_slice(), None, String::new())
    }

    /// Start the stream at the given sequence number and timestamp.
    pub fn record(&mut self, seq: u16, rtptime: u32) -> (r: Request)
        requires
            old(self)@.cseq < u32::MAX,
        ensures
            final(self)@ == counted(old(self)@),
            r@ == next_request(
                old(self)@,
                "RECORD"@,
                old(self)@.uri,
                seq![
                    ("Range"@, "npt=0-"@),
                    ("RTP-Info"@, rtp_info_text(seq, rtptime)),
                    ("Session"@, old(self)@.session),
                ],
                None,
                Seq::empty(),
            ),
    {
        let mut rtp_info: String = "seq=".to_owned();
        push_decimal(&mut rtp_info, seq as u64);
        rtp_info.append(";rtptime=");
        push_decimal(&mut rtp_info, rtptime as u64);
        let session: String = self.session.clone();
        let uri: String = self.uri.clone();
        let extra: [(&str, &str); 3] = [
            ("Range", "npt=0-"),
            ("RTP-Info", rtp_info.as_str()),
            ("Session", session.as_str()),
        ];
        assert(extra_views(extra@) =~= seq![
            ("Range"@, "npt=0-"@),
            ("RTP-Info"@, rtp_info@),
            ("Session"@, session@),
        ]);
        self.request("RECORD", uri.as_str(), &extra, None, String::new())
    }

    /// Set the volume. `db` is the level in decibels, as decimal text.
    pub fn set_volume(&mut self, db: &str) -> (r: Request)
        requires
            old(self)@.cseq < u32::MAX,
        ensures
            final(self)@ == counted(old(self)@),
            r@ == next_request(
                old(self)@,
                "SET_PARAMETER"@,
                old(self)@.uri,
                seq![("Session"@, old(self)@.session)],
                Some("text/parameters"@),
                "volume: "@ + db@ + "\r\n"@,
            ),
    {
        let mut body: String = "volume: ".to_owned();
        body.append(db);
        body.append("\r\n");
        let session: String = self.session.clone();
        let uri: String = self.uri.clone();
        let extra: [(&str, &str); 1] = [("Session", session.as_str())];
        assert(extra_views(extra@) =~= seq![("Session"@, session@)]);
        self.request("SET_PARAMETER", uri.as_str(), &extra, Some("text/parameters"), body)
    }

    /// Lightweight keep-alive so an idle RTSP TCP connection is not reaped.
    pub fn keepalive(&mut self) -> (r: Request)
        requires
            old(self)@.cseq < u32::MAX,
        ensures
            final(self)@ == counted(old(self)@),
            r@ == next_request(
                old(self)@,
                "OPTIONS"@,
                "*"@,
                session_headers(old(self)@.session),
                None,
                Seq::empty(),
            ),
    {
        self.options()
    }

    /// End the session.
    pub fn teardown(&mut self) -> (r: Request)
        requires
            old(self)@.cseq < u32::MAX,
        ensures
            final(self)@ == counted(old(self)@),
            r@ == next_request(
                old(self)@,
                "TEARDOWN"@,
                old(self)@.uri,
                seq![("Session"@, old(self)@.session)],
                None,
                Seq::empty(),
            ),
    {
        let session: String = self.session.clone();
        let uri: String = self.uri.clone();
        let extra: [(&str, &str); 1] = [("Session", session.as_str())];
        assert(extra_views(extra@) =~= seq![("Session"@, session@)]);
        self.request("TEARDOWN", uri.as_str(), &extra, None, String::new())
    }
}

fn push_media(out: &mut String, codec: Codec, sample_rate: u32)
    ensures
        final(out)@ == old(out)@ + media_text(codec, sample_rate),
{
    match codec {
        Codec::Alac => {
            out.append("m=audio 0 RTP/AVP 96\r\na=rtpmap:96 AppleLossless\r\na=fmtp:96 ");
            push_decimal(out, FRAMES_PER_PACKET as u64);
            out.append(" 0 16 40 10 14 2 255 0 0 ");
            push_decimal(out, sample_rate as u64);
            out.append("\r\n");
        },
        // Raw 16-bit big-endian PCM (cn=0). Experimental: not all RAOP servers
        // accept an L16 announce on the legacy path; ALAC is the interoperable
        // default.
        Codec::Pcm => {
            out.append("m=audio 0 RTP/AVP 96\r\na=rtpmap:96 L16/");
            push_decimal(out, sample_rate as u64);
            out.append("/2\r\n");
        },
    }
    assert(out@ =~= old(out)@ + media_text(codec, sample_rate));
}

// ---------------------------------------------------------------------------
// The answer to SETUP

/// Ports the device tells us to use (from the SETUP response).
#[derive(Debug, Clone, Copy, PartialEq, Eq, Structural)]
pub struct DevicePorts {
    /// Where we send RTP audio.
    pub server: u16,
    /// Where we send SYNC packets and resend replies.
    pub control: u16,
    /// Where we send timing replies.
    pub timing: u16,
}

/// What follows `key` in the first part that starts with it.
pub open spec fn first_param(parts: Seq<Seq<char>>, key: Seq<char>) -> Option<Seq<char>>
    decreases parts.len(),
{
    if parts.len() == 0 {
        None
    } else if has_prefix(trim(parts[0]), key) {
        Some(trim(parts[0]).skip(key.len() as int))
    } else {
        first_param(parts.skip(1), key)
    }
}

/// The port that a transport line gives under `key`.
pub open spec fn port_param(transport: Seq<char>, key: Seq<char>) -> Option<nat> {
    match first_param(split(transport, ';'), key) {
        Some(v) => unsigned(v, 0xFFFF),
        None => None,
    }
}

fn find_port(transport: &str, key: &str) -> (p: Option<u16>)
    ensures
        p is Some <==> port_param(transport@, key@) is Some,
        p matches Some(n) ==> port_param(transport@, key@) == Some(n as nat),
{
    let parts: Vec<Vec<char>> = split_at_char(chars_of(transport).as_slice(), ';');
    let wanted: Vec<char> = chars_of(key);
    let ghost all = texts(parts@);
    let mut i: usize = 0;
    assert(all.skip(0) =~= all);
    while i < parts.len()
        invariant
            i <= parts@.len(),
            all == texts(parts@),
            all == split(transport@, ';'),
            wanted@ == key@,
            first_param(all, key@) == first_param(all.skip(i as int), key@),
        decreases parts@.len() - i,
    {
        let part: &[char] = trimmed(parts[i].as_slice());
        assert(all.skip(i as int)[0] == parts@[i as int]@);
        if let Some(v) = strip_prefix(part, wanted.as_slice()) {
            return match parse_unsigned(v, 0xFFFF) {
                Some(n) => Some(n as u16),
                None => None,
            };
        }
        assert(all.skip(i as int).skip(1) =~= all.skip(i + 1));
        i = i + 1;
    }
    None
}

/// The session id after a SETUP response: the one that it gives, if any.
pub open spec fn session_after(c: RtspView, resp: ResponseView) -> RtspView {
    match lookup(resp.headers, "session"@) {
        Some(id) if 200 <= resp.status < 300 => RtspView { session: id, ..c },
        _ => c,
    }
}

/// What a SETUP response means: the device's ports, or what is wrong with it.
pub open spec fn setup_means(resp: ResponseView, r: Result<DevicePorts, RtspError>) -> bool {
    if !(200 <= resp.status < 300) {
        r matches Err(RtspError::Refused { method, status }) && method@ == "SETUP"@ && status == resp.status
    } else {
        match lookup(resp.headers, "transport"@) {
            None => r matches Err(e) && e is MissingTransport,
            Some(t) => match (
                port_param(t, "server_port="@),
                port_param(t, "control_port="@),
                port_param(t, "timing_port="@),
            ) {
                (Some(server), Some(control), Some(timing)) => r == Ok::<DevicePorts, RtspError>(
                    DevicePorts { server: server as u16, control: control as u16, timing: timing as u16 },
                ),
                (None, _, _) => r matches Err(e) && e is NoServerPort,
                (Some(_), None, _) => r matches Err(e) && e is NoControlPort,
                (Some(_), Some(_), None) => r matches Err(e) && e is NoTimingPort,
            },
        }
    }
}

impl Rtsp {
    /// Take in the response to SETUP.
    pub fn setup_done(&mut self, resp: &Response) -> (r: Result<DevicePorts, RtspError>)
        ensures
            final(self)@ == session_after(old(self)@, resp@),
            setup_means(resp@, r),
    {
        resp.check("SETUP")?;
        if let Some(s) = resp.header("session") {
            self.session = s.clone();
        }
        let transport: &String = match resp.header("transport") {
            Some(t) => t,
            None => {
                return Err(RtspError::MissingTransport);
            },
        };
        let server: u16 = match find_port(transport.as_str(), "server_port=") {
            Some(p) => p,
            None => {
                return Err(RtspError::NoServerPort);
            },
        };
        let control: u16 = match find_port(transport.as_str(), "control_port=") {
            Some(p) => p,
            None => {
                return Err(RtspError::NoControlPort);
            },
        };
        let timing: u16 = match find_port(transport.as_str(), "timing_port=") {
            Some(p) => p,
            None => {
                return Err(RtspError::NoTimingPort);
            },
        };
        Ok(DevicePorts { server, control, timing })
    }
}

// ---------------------------------------------------------------------------
// What a client promises

/// The session number in a client's address is the one that it was made with,
/// so the ANNOUNCE describes the session that the address names.
pub proof fn lemma_session_number(client_ip: Seq<char>, sid: u32)
    ensures
        session_number(session_uri(client_ip, sid)) == decimal(sid as nat),
{
    let number = decimal(sid as nat);
    lemma_decimal_round_trip(sid as nat);
    reveal_strlit("/");
    let front = "rtsp://"@ + client_ip;
    assert(session_uri(client_ip, sid) =~= front.push('/') + number);
    lemma_after_last_ignores_prefix(front, number, '/');
    if number.contains('/') {
        let i = choose|i: int| 0 <= i < number.len() && number[i] == '/';
        assert(is_digit(number[i]));
    }
    lemma_after_last_none(number, '/');
}

proof fn lemma_first_param(parts: Seq<Seq<char>>, key: Seq<char>, i: int)
    requires
        0 <= i < parts.len(),
        has_prefix(trim(parts[i]), key),
        forall|j: int| 0 <= j < i ==> !has_prefix(trim(#[trigger] parts[j]), key),
    ensures
        first_param(parts, key) == Some(trim(parts[i]).skip(key.len() as int)),
    decreases i,
{
    if i > 0 {
        assert(!has_prefix(trim(parts[0]), key));
        let rest = parts.skip(1);
        assert(rest[i - 1] == parts[i]);
        assert forall|j: int| 0 <= j < i - 1 implies !has_prefix(trim(#[trigger] rest[j]), key) by {
            assert(rest[j] == parts[j + 1]);
        }
        lemma_first_param(rest, key, i - 1);
    }
}

/// A port that stands in a transport line is read: parameters are separated
/// by semicolons, white space around them does not count, and the first one
/// with the key decides.
pub proof fn lemma_port_is_read(parts: Seq<Seq<char>>, key: Seq<char>, i: int, port: u16)
    requires
        forall|k: int| 0 <= k < parts.len() ==> !(#[trigger] parts[k]).contains(';'),
        0 <= i < parts.len(),
        trim(parts[i]) == key + decimal(port as nat),
        forall|j: int| 0 <= j < i ==> !has_prefix(trim(#[trigger] parts[j]), key),
    ensures
        port_param(join(parts, ';'), key) == Some(port as nat),
{
    lemma_split_of_join(parts, ';');
    lemma_decimal_round_trip(port as nat);
    let p = trim(parts[i]);
    assert(p.take(key.len() as int) =~= key);
    assert(p.skip(key.len() as int) =~= decimal(port as nat));
    lemma_first_param(parts, key, i);
    assert(unsigned(decimal(port as nat), 0xFFFF) == Some(port as nat));
}

/// The session id that SETUP returned is echoed on later requests: the client
/// keeps it from the answer on, and its header goes along with OPTIONS (and so
/// with the keep-alive) as with RECORD.
pub proof fn lemma_session_is_echoed(c: RtspView, resp: ResponseView, id: Seq<char>)
    requires
        200 <= resp.status < 300,
        lookup(resp.headers, "session"@) == Some(id),
        id.len() > 0,
    ensures
        session_headers(session_after(c, resp).session) == seq![("Session"@, id)],
        counted(session_after(c, resp)).session == id,
        next_request(
            session_after(c, resp),
            "OPTIONS"@,
            "*"@,
            session_headers(session_after(c, resp).session),
            None,
            Seq::empty(),
        ) == request(
            "OPTIONS"@,
            "*"@,
            c.cseq + 1,
            c.base_headers.push(("Session"@, id)),
            None,
            Seq::empty(),
        ),
{
    assert(c.base_headers + seq![("Session"@, id)] =~= c.base_headers.push(("Session"@, id)));
}

/// Requests are numbered from one on without a gap: the `CSeq` of a request is
/// one more than that of the request before it, and nothing else of a client
/// changes by asking.
pub proof fn lemma_requests_are_numbered(
    c: RtspView,
    method: Seq<char>,
    uri: Seq<char>,
    extra: Seq<Header>,
    content_type: Option<Seq<char>>,
    body: Seq<char>,
)
    ensures
        next_request(c, method, uri, extra, content_type, body) == request(
            method,
            uri,
            counted(c).cseq,
            counted(c).base_headers + extra,
            content_type,
            body,
        ),
        next_request(counted(c), method, uri, extra, content_type, body) == request(
            method,
            uri,
            c.cseq + 2,
            c.base_headers + extra,
            content_type,
            body,
        ),
        counted(c).uri == c.uri,
        counted(c).session == c.session,
{
}

// ---------------------------------------------------------------------------
// What is on the wire

/// A header on the wire is its name, a colon and a space, its value and a line
/// end; headers follow each other in order.
pub proof fn lemma_headers_on_wire(hs: Seq<Header>, name: Seq<char>, value: Seq<char>)
    ensures
        header_lines(Seq::<Header>::empty()) == Seq::<char>::empty(),
        header_line((name, value)) == name + seq![':', ' '] + value + seq!['\r', '\n'],
        header_lines(hs.push((name, value))) == header_lines(hs) + (name + seq![':', ' '] + value + seq![
            '\r',
            '\n',
        ]),
{
    reveal_strlit(": ");
    reveal_strlit("\r\n");
    lemma_header_lines_push(hs, (name, value));
    assert(header_line((name, value)) =~= name + seq![':', ' '] + value + seq!['\r', '\n']);
}

/// A request on the wire: the method, the address and the protocol on the
/// first line, its number on the second, the headers in order, those of the
/// body (its type, and its length in bytes) if it has one, an empty line, and
/// the body.
#[verifier::rlimit(40)]
pub proof fn lemma_request_on_wire(
    method: Seq<char>,
    uri: Seq<char>,
    cseq: nat,
    headers: Seq<Header>,
    content_type: Seq<char>,
    body: Seq<char>,
)
    ensures
        ({
            let start = method + seq![' '] + uri + seq![' '] + "RTSP/1.0\r\n"@ + "CSeq: "@ + decimal(cseq) + "\r\n"@;
            let plain = request(method, uri, cseq, headers, None, body);
            let with_body = request(method, uri, cseq, headers, Some(content_type), body);
            &&& plain.head == start + header_lines(headers) + "\r\n"@
            &&& plain.body == body
            &&& with_body.head == start + header_lines(headers) + "Content-Type: "@ + content_type
                + "\r\nContent-Length: "@ + decimal(encode_utf8(body).len()) + "\r\n\r\n"@
            &&& with_body.body == body
        }),
{
    reveal_strlit(" ");
    reveal_strlit(": ");
    reveal_strlit("\r\n");
    reveal_strlit("\r\n\r\n");
    reveal_strlit(" RTSP/1.0\r\n");
    reveal_strlit("RTSP/1.0\r\n");
    reveal_strlit("CSeq");
    reveal_strlit("CSeq: ");
    reveal_strlit("Content-Type");
    reveal_strlit("Content-Type: ");
    reveal_strlit("Content-Length");
    reveal_strlit("\r\nContent-Length: ");
    let start = method + seq![' '] + uri + seq![' '] + "RTSP/1.0\r\n"@ + "CSeq: "@ + decimal(cseq) + "\r\n"@;
    let line = method + " "@ + uri + " RTSP/1.0\r\n"@ + header_line(("CSeq"@, decimal(cseq)));
    assert(line =~= start);
    let len = decimal(encode_utf8(body).len());
    let h1 = ("Content-Type"@, content_type);
    let h2 = ("Content-Length"@, len);
    assert(headers + content_headers(None, body) =~= headers);
    assert(headers + content_headers(Some(content_type), body) =~= headers.push(h1).push(h2));
    lemma_header_lines_push(headers, h1);
    lemma_header_lines_push(headers.push(h1), h2);
    let with_body = request(method, uri, cseq, headers, Some(content_type), body);
    assert(with_body.head =~= start + header_lines(headers) + header_line(h1) + header_line(h2) + "\r\n"@);
    assert(with_body.head =~= start + header_lines(headers) + "Content-Type: "@ + content_type
        + "\r\nContent-Length: "@ + len + "\r\n\r\n"@);
}

/// A receiver that reads a request word by word finds its method first.
pub proof fn lemma_method_is_first_word(
    method: Seq<char>,
    uri: Seq<char>,
    cseq: nat,
    headers: Seq<Header>,
    content_type: Option<Seq<char>>,
    body: Seq<char>,
)
    requires
        method.len() > 0,
        forall|i: int| 0 <= i < method.len() ==> !is_white(#[trigger] method[i]),
    ensures
        first_word(request(method, uri, cseq, headers, content_type, body).head).0 == method,
{
    reveal_strlit(" ");
    let head = request(method, uri, cseq, headers, content_type, body).head;
    let rest = head.skip(method.len() as int);
    assert(head =~= Seq::<char>::empty() + method + rest);
    assert(rest[0] == ' ');
    lemma_first_word(Seq::<char>::empty(), method, rest);
}

/// A new client has asked nothing yet and has no session; its address names
/// its own IP and its session number; its four headers say who it is, its
/// instance and its remote-control ids.
pub proof fn lemma_fresh_client(client_ip: Seq<char>, sid: u32, instance: u64, dacp: u64, active: u32)
    ensures
        ({
            let c = fresh_client(client_ip, sid, instance, dacp, active);
            &&& c.cseq == 0
            &&& c.session == Seq::<char>::empty()
            &&& c.uri == "rtsp://"@ + client_ip + seq!['/'] + decimal(sid as nat)
            &&& c.base_headers.len() == 4
            &&& c.base_headers[0] == ("User-Agent"@, "iTunes/11.0.5 (Windows; N)"@)
            &&& c.base_headers[1] == ("Client-Instance"@, hex_digits(instance as nat, 16))
            &&& c.base_headers[2] == ("DACP-ID"@, hex_digits(dacp as nat, 16))
            &&& c.base_headers[3] == ("Active-Remote"@, decimal(active as nat))
        }),
{
    reveal_strlit("/");
    assert(session_uri(client_ip, sid) =~= "rtsp://"@ + client_ip + seq!['/'] + decimal(sid as nat));
}

proof fn lemma_digits_hold(x: nat, c: char)
    requires
        !is_digit(c),
    ensures
        !decimal(x).contains(c),
{
    lemma_decimal_round_trip(x);
    if decimal(x).contains(c) {
        let i = choose|i: int| 0 <= i < decimal(x).len() && decimal(x)[i] == c;
        assert(is_digit(decimal(x)[i]));
    }
}

/// What SETUP asks for, parameter by parameter: unicast RTP over UDP, recorded,
/// with retransmit requests sent to our control port and timing requests to
/// our timing port.
#[verifier::rlimit(40)]
pub proof fn lemma_transport_parts(control_port: u16, timing_port: u16)
    ensures
        split(transport_text(control_port, timing_port), ';') == seq![
            "RTP/AVP/UDP"@,
            "unicast"@,
            "interleaved=0-1"@,
            "mode=record"@,
            "control_port="@ + decimal(control_port as nat),
            "timing_port="@ + decimal(timing_port as nat),
        ],
{
    let c = decimal(control_port as nat);
    let t = decimal(timing_port as nat);
    lemma_digits_hold(control_port as nat, ';');
    lemma_digits_hold(timing_port as nat, ';');
    reveal_strlit("RTP/AVP/UDP");
    reveal_strlit("unicast");
    reveal_strlit("interleaved=0-1");
    reveal_strlit("mode=record");
    reveal_strlit("control_port=");
    reveal_strlit("timing_port=");
    reveal_strlit(";timing_port=");
    reveal_strlit("RTP/AVP/UDP;unicast;interleaved=0-1;mode=record;control_port=");
    let p5 = "control_port="@ + c;
    let p6 = "timing_port="@ + t;
    if p5.contains(';') {
        let i = choose|i: int| 0 <= i < p5.len() && p5[i] == ';';
        assert(c[i - 13] == ';');
    }
    if p6.contains(';') {
        let i = choose|i: int| 0 <= i < p6.len() && p6[i] == ';';
        assert(t[i - 12] == ';');
    }
    let parts = seq!["RTP/AVP/UDP"@, "unicast"@, "interleaved=0-1"@, "mode=record"@, p5, p6];
    assert forall|k: int| 0 <= k < parts.len() implies !(#[trigger] parts[k]).contains(';') by {
        assert(k == 0 || k == 1 || k == 2 || k == 3 || k == 4 || k == 5);
    }
    lemma_split_of_join(parts, ';');
    let a1 = seq!["RTP/AVP/UDP"@];
    let a2 = a1.push("unicast"@);
    let a3 = a2.push("interleaved=0-1"@);
    let a4 = a3.push("mode=record"@);
    let a5 = a4.push(p5);
    lemma_join_adds_separators(a1, "unicast"@, ';');
    lemma_join_adds_separators(a1, "RTP/AVP/UDP"@, ';');
    lemma_join_adds_separators(a2, "interleaved=0-1"@, ';');
    lemma_join_adds_separators(a3, "mode=record"@, ';');
    lemma_join_adds_separators(a4, p5, ';');
    lemma_join_adds_separators(a5, p6, ';');
    assert(parts =~= a5.push(p6));
    let front = join(a4, ';');
    assert(front + seq![';'] + "control_port="@ =~= "RTP/AVP/UDP;unicast;interleaved=0-1;mode=record;control_port="@);
    assert(join(parts, ';') =~= front + seq![';'] + p5 + seq![';'] + p6);
    assert(join(parts, ';') =~= transport_text(control_port, timing_port));
}

/// Where RECORD says that the stream starts: the sequence number and the
/// timestamp, as two parameters.
pub proof fn lemma_rtp_info_parts(seq: u16, rtptime: u32)
    ensures
        split(rtp_info_text(seq, rtptime), ';') == seq![
            "seq="@ + decimal(seq as nat),
            "rtptime="@ + decimal(rtptime as nat),
        ],
{
    let (a, b) = (decimal(seq as nat), decimal(rtptime as nat));
    lemma_digits_hold(seq as nat, ';');
    lemma_digits_hold(rtptime as nat, ';');
    reveal_strlit("seq=");
    reveal_strlit("rtptime=");
    reveal_strlit(";rtptime=");
    let (p, q) = ("seq="@ + a, "rtptime="@ + b);
    if p.contains(';') {
        let i = choose|i: int| 0 <= i < p.len() && p[i] == ';';
        assert(a[i - 4] == ';');
    }
    if q.contains(';') {
        let i = choose|i: int| 0 <= i < q.len() && q[i] == ';';
        assert(b[i - 8] == ';');
    }
    let parts = seq![p].push(q);
    assert forall|k: int| 0 <= k < parts.len() implies !(#[trigger] parts[k]).contains(';') by {
        assert(k == 0 || k == 1);
    }
    lemma_split_of_join(parts, ';');
    lemma_join_adds_separators(seq![p], q, ';');
    lemma_join_adds_separators(seq![p], p, ';');
    assert(join(parts, ';') =~= rtp_info_text(seq, rtptime));
    assert(parts =~= seq![p, q]);
}

/// The description of a stream, line by line: for ALAC, payload type 96 and
/// its parameters with 352 frames in a packet and the sample rate; for PCM,
/// 16-bit samples at the sample rate on two channels. In front of these stand
/// the session, who sends it, and who plays it.
#[verifier::rlimit(40)]
pub proof fn lemma_sdp_lines(
    sid: Seq<char>,
    client_ip: Seq<char>,
    device_ip: Seq<char>,
    codec: Codec,
    sample_rate: u32,
)
    ensures
        ({
            let rate = decimal(sample_rate as nat);
            let end = seq!['\r', '\n'];
            let media = match codec {
                Codec::Alac => "a=rtpmap:96 AppleLossless"@ + end + "a=fmtp:96 352 0 16 40 10 14 2 255 0 0 "@ + rate
                    + end,
                Codec::Pcm => "a=rtpmap:96 L16/"@ + rate + "/2"@ + end,
            };
            sdp_text(sid, client_ip, device_ip, codec, sample_rate) == "v=0"@ + end + "o=iTunes "@ + sid
                + " 0 IN IP4 "@ + client_ip + end + "s=iTunes"@ + end + "c=IN IP4 "@ + device_ip + end + "t=0 0"@ + end
                + "m=audio 0 RTP/AVP 96"@ + end + media
        }),
{
    reveal_strlit("v=0\r\no=iTunes ");
    reveal_strlit("v=0");
    reveal_strlit("o=iTunes ");
    reveal_strlit(" 0 IN IP4 ");
    reveal_strlit("\r\ns=iTunes\r\nc=IN IP4 ");
    reveal_strlit("s=iTunes");
    reveal_strlit("c=IN IP4 ");
    reveal_strlit("\r\nt=0 0\r\n");
    reveal_strlit("t=0 0");
    let end = seq!['\r', '\n'];
    let rate = decimal(sample_rate as nat);
    let media = match codec {
        Codec::Alac => "a=rtpmap:96 AppleLossless"@ + end + "a=fmtp:96 352 0 16 40 10 14 2 255 0 0 "@ + rate + end,
        Codec::Pcm => "a=rtpmap:96 L16/"@ + rate + "/2"@ + end,
    };
    lemma_media_lines(codec, sample_rate);
    let all = sdp_text(sid, client_ip, device_ip, codec, sample_rate);
    assert("v=0\r\no=iTunes "@ =~= "v=0"@ + end + "o=iTunes "@);
    assert("\r\ns=iTunes\r\nc=IN IP4 "@ =~= end + "s=iTunes"@ + end + "c=IN IP4 "@);
    assert("\r\nt=0 0\r\n"@ =~= end + "t=0 0"@ + end);
    assert(all =~= "v=0"@ + end + "o=iTunes "@ + sid + " 0 IN IP4 "@ + client_ip + end + "s=iTunes"@ + end
        + "c=IN IP4 "@ + device_ip + end + "t=0 0"@ + end + "m=audio 0 RTP/AVP 96"@ + end + media);
}

#[verifier::rlimit(40)]
proof fn lemma_media_lines(codec: Codec, sample_rate: u32)
    ensures
        ({
            let rate = decimal(sample_rate as nat);
            let end = seq!['\r', '\n'];
            media_text(codec, sample_rate) == "m=audio 0 RTP/AVP 96"@ + end + (match codec {
                Codec::Alac => "a=rtpmap:96 AppleLossless"@ + end + "a=fmtp:96 352 0 16 40 10 14 2 255 0 0 "@ + rate
                    + end,
                Codec::Pcm => "a=rtpmap:96 L16/"@ + rate + "/2"@ + end,
            })
        }),
{
    let rate = decimal(sample_rate as nat);
    let end = seq!['\r', '\n'];
    reveal_strlit("\r\n");
    reveal_strlit("m=audio 0 RTP/AVP 96");
    assert("\r\n"@ =~= end);
    match codec {
        Codec::Alac => {
            reveal_strlit("m=audio 0 RTP/AVP 96\r\na=rtpmap:96 AppleLossless\r\na=fmtp:96 ");
            reveal_strlit("a=rtpmap:96 AppleLossless");
            reveal_strlit("a=fmtp:96 352 0 16 40 10 14 2 255 0 0 ");
            reveal_strlit(" 0 16 40 10 14 2 255 0 0 ");
            let d = decimal(352);
            assert(d =~= seq!['3', '5', '2']) by {
                reveal_with_fuel(decimal, 4);
            }
            assert("m=audio 0 RTP/AVP 96\r\na=rtpmap:96 AppleLossless\r\na=fmtp:96 "@ + d
                + " 0 16 40 10 14 2 255 0 0 "@ =~= "m=audio 0 RTP/AVP 96"@ + end + "a=rtpmap:96 AppleLossless"@ + end
                + "a=fmtp:96 352 0 16 40 10 14 2 255 0 0 "@);
            assert(media_text(codec, sample_rate) =~= "m=audio 0 RTP/AVP 96"@ + end + ("a=rtpmap:96 AppleLossless"@
                + end + "a=fmtp:96 352 0 16 40 10 14 2 255 0 0 "@ + rate + end));
        },
        Codec::Pcm => {
            reveal_strlit("m=audio 0 RTP/AVP 96\r\na=rtpmap:96 L16/");
            reveal_strlit("a=rtpmap:96 L16/");
            reveal_strlit("/2\r\n");
            reveal_strlit("/2");
            assert("m=audio 0 RTP/AVP 96\r\na=rtpmap:96 L16/"@ =~= "m=audio 0 RTP/AVP 96"@ + end
                + "a=rtpmap:96 L16/"@);
            assert("/2\r\n"@ =~= "/2"@ + end);
            assert(media_text(codec, sample_rate) =~= "m=audio 0 RTP/AVP 96"@ + end + ("a=rtpmap:96 L16/"@ + rate
                + "/2"@ + end));
        },
    }
}

/// A parameter that no part of a transport line starts with gives no port, and
/// neither does one whose first value is no number up to 65535.
pub proof fn lemma_no_port(parts: Seq<Seq<char>>, key: Seq<char>, i: int)
    requires
        parts.len() > 0,
        forall|k: int| 0 <= k < parts.len() ==> !(#[trigger] parts[k]).contains(';'),
        0 <= i <= parts.len(),
        forall|j: int| 0 <= j < i ==> !has_prefix(trim(#[trigger] parts[j]), key),
        i < parts.len() ==> has_prefix(trim(parts[i]), key) && unsigned(
            trim(parts[i]).skip(key.len() as int),
            65_535,
        ) is None,
    ensures
        port_param(join(parts, ';'), key) is None,
{
    lemma_split_of_join(parts, ';');
    if i < parts.len() {
        lemma_first_param(parts, key, i);
    } else {
        lemma_no_param(parts, key);
    }
}

proof fn lemma_no_param(parts: Seq<Seq<char>>, key: Seq<char>)
    requires
        forall|j: int| 0 <= j < parts.len() ==> !has_prefix(trim(#[trigger] parts[j]), key),
    ensures
        first_param(parts, key) is None,
    decreases parts.len(),
{
    if parts.len() > 0 {
        let rest = parts.skip(1);
        assert(!has_prefix(trim(parts[0]), key));
        assert forall|j: int| 0 <= j < rest.len() implies !has_prefix(trim(#[trigger] rest[j]), key) by {
            assert(rest[j] == parts[j + 1]);
        }
        lemma_no_param(rest, key);
    }
}

/// What the answer to SETUP means: a status outside 200 to 299 refuses it; an
/// accepted one gives the three ports of its Transport header, or the first of
/// them that it lacks. It gives the session id, if it was accepted and has one.
pub proof fn lemma_setup_answer(c: RtspView, resp: ResponseView, r: Result<DevicePorts, RtspError>)
    requires
        setup_means(resp, r),
    ensures
        resp.status < 200 || resp.status > 299 ==> (r matches Err(RtspError::Refused { method, status }) && method@
            == "SETUP"@ && status == resp.status) && session_after(c, resp) == c,
        200 <= resp.status <= 299 ==> match lookup(resp.headers, "transport"@) {
            Some(t) => {
                let server = port_param(t, "server_port="@);
                let control = port_param(t, "control_port="@);
                let timing = port_param(t, "timing_port="@);
                &&& r is Ok <==> server is Some && control is Some && timing is Some
                &&& r matches Ok(p) ==> server == Some(p.server as nat) && control == Some(p.control as nat) && timing
                    == Some(p.timing as nat)
                &&& r matches Err(e) ==> (e is NoServerPort <==> server is None) && (e is NoControlPort <==> server
                    is Some && control is None) && (e is NoTimingPort <==> server is Some && control is Some && timing
                    is None)
            },
            None => r matches Err(e) && e is MissingTransport,
        },
        200 <= resp.status <= 299 ==> session_after(c, resp).session == match lookup(resp.headers, "session"@) {
            Some(id) => id,
            None => c.session,
        },
        session_after(c, resp).cseq == c.cseq && session_after(c, resp).uri == c.uri && session_after(
            c,
            resp,
        ).base_headers == c.base_headers,
{
    if let Some(t) = lookup(resp.headers, "transport"@) {
        lemma_port_fits(t, "server_port="@);
        lemma_port_fits(t, "control_port="@);
        lemma_port_fits(t, "timing_port="@);
    }
}

proof fn lemma_port_fits(transport: Seq<char>, key: Seq<char>)
    ensures
        port_param(transport, key) matches Some(n) ==> n <= 65_535,
{
}

/// The session id goes along exactly once there is one.
pub proof fn lemma_session_header(session: Seq<char>)
    ensures
        session.len() == 0 ==> session_headers(session) == Seq::<Header>::empty(),
        session.len() > 0 ==> session_headers(session) == seq![("Session"@, session)],
{
}

/// Requests and headers stand for their characters.
pub proof fn lemma_request_fields(r: Request, a: Seq<(String, String)>, b: Seq<(&str, &str)>)
    ensures
        r@.head == r.head@,
        r@.body == r.body@,
        header_views(a).len() == a.len(),
        extra_views(b).len() == b.len(),
        forall|i: int| 0 <= i < a.len() ==> #[trigger] header_views(a)[i] == (a[i].0@, a[i].1@),
        forall|i: int| 0 <= i < b.len() ==> #[trigger] extra_views(b)[i] == (b[i].0@, b[i].1@),
{
}

} // verus!
