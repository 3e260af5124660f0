//! The course of a session: which request follows which response, and when
//! the other parts of the sender start.
//!
//! Strict receivers begin probing the advertised timing port right after
//! SETUP and withhold the RECORD response until the NTP timing exchange
//! completes. The timing and retransmit responders must therefore be live
//! *before* RECORD, or the handshake deadlocks. SYNC starts only once the
//! device is recording.

use crate::audio::{packet, StreamParams, BLOCK_BYTES, FRAMES_PER_PACKET, SAMPLE_RATE};
use crate::codec::payload_of;
use crate::response::{Response, ResponseView, RtspError};
use crate::rtsp::{
    counted, media_text, next_request, request, rtp_info_text, sdp_text, session_after, session_headers, session_number,
    setup_means, transport_text, DevicePorts, Header, Request, RequestView, Rtsp, RtspView,
};
use crate::text::after_last;
use vstd::prelude::*;

verus! {

/// How long to wait between two keep-alives, in milliseconds.
pub const KEEPALIVE_MS: u64 = 2000;

/// How far a session has come: what it is waiting for.
#[derive(Clone, Copy, PartialEq, Eq, Structural)]
pub enum Stage {
    /// The connection.
    Idle,
    /// The response to OPTIONS.
    Options,
    /// The response to ANNOUNCE.
    Announce,
    /// The response to SETUP.
    Setup,
    /// The timing and retransmit responders.
    Responders,
    /// The response to RECORD.
    Record,
    /// The response to SET_PARAMETER.
    Volume,
    /// The end of the input.
    Streaming,
    /// Nothing: the session is being torn down.
    Closing,
    /// Nothing: a request was refused.
    Failed,
}

/// What happens to a session.
pub enum SessionEvent {
    /// The connection is there.
    Begin,
    /// The response to the last request.
    Reply(Response),
    /// The timing and retransmit responders are live.
    Ready,
    /// All audio has been sent, or sending it failed.
    InputEnded,
}

/// What is to be done next.
pub enum SessionAction {
    /// Send a request.
    Send(Request),
    /// Start the timing and retransmit responders.
    StartResponders(DevicePorts),
    /// Start SYNC, the keep-alive, and the audio.
    Stream(DevicePorts),
    /// Give up.
    Fail(RtspError),
    /// Nothing: the event means nothing at this stage.
    Nothing,
}

/// What a session needs to know.
pub struct SessionConfig {
    pub client_ip: String,
    pub device_ip: String,
    /// Our own ports, which SETUP advertises.
    pub control_port: u16,
    pub timing_port: u16,
    /// The volume in decibels, as decimal text.
    pub volume_db: String,
    pub params: StreamParams,
}

/// A session.
pub struct Session {
    config: SessionConfig,
    rtsp: Rtsp,
    stage: Stage,
    ports: DevicePorts,
}

/// A `SessionConfig` as a value.
pub struct ConfigView {
    pub client_ip: Seq<char>,
    pub device_ip: Seq<char>,
    pub control_port: u16,
    pub timing_port: u16,
    pub volume_db: Seq<char>,
    pub params: StreamParams,
}

/// A `Session` as a value.
pub struct SessionView {
    pub config: ConfigView,
    pub rtsp: RtspView,
    pub stage: Stage,
    /// The device's ports, once SETUP has been answered.
    pub ports: DevicePorts,
}

impl View for SessionConfig {
    type V = ConfigView;

    open spec fn view(&self) -> ConfigView {
        ConfigView {
            client_ip: self.client_ip@,
            device_ip: self.device_ip@,
            control_port: self.control_port,
            timing_port: self.timing_port,
            volume_db: self.volume_db@,
            params: self.params,
        }
    }
}

impl View for Session {
    type V = SessionView;

    closed spec fn view(&self) -> SessionView {
        SessionView { config: self.config@, rtsp: self.rtsp@, stage: self.stage, ports: self.ports }
    }
}

pub open spec fn options_request(s: SessionView) -> RequestView {
    next_request(s.rtsp, "OPTIONS"@, "*"@, session_headers(s.rtsp.session), None, Seq::empty())
}

/// The description is of the stream that the session will send.
pub open spec fn announce_request(s: SessionView) -> RequestView {
    next_request(
        s.rtsp,
        "ANNOUNCE"@,
        s.rtsp.uri,
        session_headers(s.rtsp.session),
        Some("application/sdp"@),
        sdp_text(
            session_number(s.rtsp.uri),
            s.config.client_ip,
            s.config.device_ip,
            s.config.params.codec,
            SAMPLE_RATE,
        ),
    )
}

pub open spec fn setup_request(s: SessionView) -> RequestView {
    next_request(
        s.rtsp,
        "SETUP"@,
        s.rtsp.uri,
        session_headers(s.rtsp.session).push(
            ("Transport"@, transport_text(s.config.control_port, s.config.timing_port)),
        ),
        None,
        Seq::empty(),
    )
}

/// The stream starts at the numbers of its first packet.
pub open spec fn record_request(s: SessionView) -> RequestView {
    next_request(
        s.rtsp,
        "RECORD"@,
        s.rtsp.uri,
        seq![
            ("Range"@, "npt=0-"@),
            ("RTP-Info"@, rtp_info_text(s.config.params.seq_start, s.config.params.rtp_start)),
            ("Session"@, s.rtsp.session),
        ],
        None,
        Seq::empty(),
    )
}

pub open spec fn volume_request(s: SessionView) -> RequestView {
    next_request(
        s.rtsp,
        "SET_PARAMETER"@,
        s.rtsp.uri,
        seq![("Session"@, s.rtsp.session)],
        Some("text/parameters"@),
        "volume: "@ + s.config.volume_db + "\r\n"@,
    )
}

pub open spec fn teardown_request(s: SessionView) -> RequestView {
    next_request(s.rtsp, "TEARDOWN"@, s.rtsp.uri, seq![("Session"@, s.rtsp.session)], None, Seq::empty())
}

/// A request goes out, and the session waits at `stage`.
pub open spec fn sends(
    s: SessionView,
    action: SessionAction,
    after: SessionView,
    stage: Stage,
    r: RequestView,
) -> bool {
    &&& action matches SessionAction::Send(req)
    &&& req@ == r
    &&& after == SessionView { stage, rtsp: counted(s.rtsp), ..s }
}

/// A request was refused, and the session is over.
pub open spec fn refused(
    s: SessionView,
    method: Seq<char>,
    resp: ResponseView,
    action: SessionAction,
    after: SessionView,
) -> bool {
    &&& action matches SessionAction::Fail(RtspError::Refused { method: m, status })
    &&& m@ == method
    &&& status == resp.status
    &&& after == SessionView { stage: Stage::Failed, ..s }
}

pub open spec fn accepted(resp: ResponseView) -> bool {
    200 <= resp.status < 300
}

/// The answer to SETUP: the device's ports are known and the responders
/// start, or there is something wrong with it and the session is over.
pub open spec fn set_up(s: SessionView, resp: ResponseView, action: SessionAction, after: SessionView) -> bool {
    match action {
        SessionAction::StartResponders(ports) => {
            &&& setup_means(resp, Ok(ports))
            &&& after == SessionView {
                stage: Stage::Responders,
                rtsp: session_after(s.rtsp, resp),
                ports,
                ..s
            }
        },
        SessionAction::Fail(e) => {
            &&& setup_means(resp, Err(e))
            &&& after == SessionView { stage: Stage::Failed, rtsp: session_after(s.rtsp, resp), ..s }
        },
        _ => false,
    }
}

/// What a session does on an event.
pub open spec fn does(s: SessionView, event: SessionEvent, action: SessionAction, after: SessionView) -> bool {
    match (s.stage, event) {
        (Stage::Idle, SessionEvent::Begin) => sends(s, action, after, Stage::Options, options_request(s)),
        (Stage::Options, SessionEvent::Reply(resp)) => if accepted(resp@) {
            sends(s, action, after, Stage::Announce, announce_request(s))
        } else {
            refused(s, "OPTIONS"@, resp@, action, after)
        },
        (Stage::Announce, SessionEvent::Reply(resp)) => if accepted(resp@) {
            sends(s, action, after, Stage::Setup, setup_request(s))
        } else {
            refused(s, "ANNOUNCE"@, resp@, action, after)
        },
        (Stage::Setup, SessionEvent::Reply(resp)) => set_up(s, resp@, action, after),
        (Stage::Responders, SessionEvent::Ready) => sends(s, action, after, Stage::Record, record_request(s)),
        (Stage::Record, SessionEvent::Reply(resp)) => if accepted(resp@) {
            sends(s, action, after, Stage::Volume, volume_request(s))
        } else {
            refused(s, "RECORD"@, resp@, action, after)
        },
        (Stage::Volume, SessionEvent::Reply(resp)) => if accepted(resp@) {
            &&& action == SessionAction::Stream(s.ports)
            &&& after == SessionView { stage: Stage::Streaming, ..s }
        } else {
            refused(s, "SET_PARAMETER"@, resp@, action, after)
        },
        (Stage::Streaming, SessionEvent::InputEnded) => sends(
            s,
            action,
            after,
            Stage::Closing,
            teardown_request(s),
        ),
        _ => action is Nothing && after == s,
    }
}

impl Session {
    /// A session that waits for its connection.
    pub fn new(config: SessionConfig, rtsp: Rtsp) -> (s: Self)
        ensures
            s@ == (SessionView {
                config: config@,
                rtsp: rtsp@,
                stage: Stage::Idle,
                ports: DevicePorts { server: 0, control: 0, timing: 0 },
            }),
    {
        Session { config, rtsp, stage: Stage::Idle, ports: DevicePorts { server: 0, control: 0, timing: 0 } }
    }

    /// How many requests there were.
    pub fn requests(&self) -> (n: u32)
        ensures
            n == self@.rtsp.cseq,
    {
        self.rtsp.requests()
    }

    /// Take in an event.
    pub fn step(&mut self, event: SessionEvent) -> (action: SessionAction)
        requires
            old(self)@.rtsp.cseq < u32::MAX,
        ensures
            does(old(self)@, event, action, final(self)@),
    {
        match event {
            SessionEvent::Begin => {
                if self.stage != Stage::Idle {
                    return SessionAction::Nothing;
                }
                self.stage = Stage::Options;
                SessionAction::Send(self.rtsp.options())
            },
            SessionEvent::Reply(resp) => self.reply(&resp),
            SessionEvent::Ready => {
                if self.stage != Stage::Responders {
                    return SessionAction::Nothing;
                }
                self.stage = Stage::Record;
                SessionAction::Send(
                    self.rtsp.record(self.config.params.seq_start, self.config.params.rtp_start),
                )
            },
            SessionEvent::InputEnded => {
                if self.stage != Stage::Streaming {
                    return SessionAction::Nothing;
                }
                self.stage = Stage::Closing;
                SessionAction::Send(self.rtsp.teardown())
            },
        }
    }

    fn reply(&mut self, resp: &Response) -> (action: SessionAction)
        requires
            old(self)@.rtsp.cseq < u32::MAX,
        ensures
            does(old(self)@, SessionEvent::Reply(*resp), action, final(self)@),
    {
        match self.stage {
            Stage::Options => {
                if let Err(e) = resp.check("OPTIONS") {
                    self.stage = Stage::Failed;
                    return SessionAction::Fail(e);
                }
                self.stage = Stage::Announce;
                SessionAction::Send(
                    self.rtsp.announce(
                        self.config.client_ip.as_str(),
                        self.config.device_ip.as_str(),
                        SAMPLE_RATE,
                        self.config.params.codec,
                    ),
                )
            },
            Stage::Announce => {
                if let Err(e) = resp.check("ANNOUNCE") {
                    self.stage = Stage::Failed;
                    return SessionAction::Fail(e);
                }
                self.stage = Stage::Setup;
                SessionAction::Send(self.rtsp.setup(self.config.control_port, self.config.timing_port))
            },
            Stage::Setup => match self.rtsp.setup_done(resp) {
                Ok(ports) => {
                    self.stage = Stage::Responders;
                    self.ports = ports;
                    SessionAction::StartResponders(ports)
                },
                Err(e) => {
                    self.stage = Stage::Failed;
                    SessionAction::Fail(e)
                },
            },
            Stage::Record => {
                if let Err(e) = resp.check("RECORD") {
                    self.stage = Stage::Failed;
                    return SessionAction::Fail(e);
                }
                self.stage = Stage::Volume;
                SessionAction::Send(self.rtsp.set_volume(self.config.volume_db.as_str()))
            },
            Stage::Volume => {
                if let Err(e) = resp.check("SET_PARAMETER") {
                    self.stage = Stage::Failed;
                    return SessionAction::Fail(e);
                }
                self.stage = Stage::Streaming;
                SessionAction::Stream(self.ports)
            },
            _ => SessionAction::Nothing,
        }
    }

    /// The request that keeps the connection alive, while audio is sent.
    pub fn keepalive(&mut self) -> (r: Option<Request>)
        requires
            old(self)@.rtsp.cseq < u32::MAX,
        ensures
            r is Some <==> old(self)@.stage == Stage::Streaming,
            r matches Some(req) ==> req@ == options_request(old(self)@),
            final(self)@ == if r is Some {
                SessionView { rtsp: counted(old(self)@.rtsp), ..old(self)@ }
            } else {
                old(self)@
            },
    {
        if self.stage != Stage::Streaming {
            return None;
        }
        Some(self.rtsp.keepalive())
    }
}

// ---------------------------------------------------------------------------
// What a session promises

/// One step of a session: an event, or (`None`) a keep-alive.
pub open spec fn steps(
    s: SessionView,
    event: Option<SessionEvent>,
    action: SessionAction,
    after: SessionView,
) -> bool {
    match event {
        Some(e) => does(s, e, action, after),
        None => s.stage == Stage::Streaming && sends(s, action, after, Stage::Streaming, options_request(s)),
    }
}

/// A course of a session: what happened, what was done, and the states in
/// between, from the first one on.
pub struct Course {
    pub states: Seq<SessionView>,
    pub events: Seq<Option<SessionEvent>>,
    pub actions: Seq<SessionAction>,
}

impl Course {
    pub open spec fn len(self) -> nat {
        self.events.len()
    }

    pub open spec fn wf(self) -> bool {
        &&& self.actions.len() == self.len()
        &&& self.states.len() == self.len() + 1
        &&& self.states[0].stage == Stage::Idle
        &&& forall|i: int|
            0 <= i < self.len() ==> #[trigger] steps(
                self.states[i],
                self.events[i],
                self.actions[i],
                self.states[i + 1],
            )
    }

    /// Whether step `i` leads from one stage to another.
    pub open spec fn leads(self, i: int, from: Stage, to: Stage) -> bool {
        &&& 0 <= i < self.len()
        &&& self.states[i].stage == from
        &&& self.states[i + 1].stage == to
    }

    /// Whether the answer to SETUP came in at step `i` and gave these ports,
    /// with which the responders were started.
    pub open spec fn gave_ports(self, i: int, ports: DevicePorts) -> bool {
        &&& self.leads(i, Stage::Setup, Stage::Responders)
        &&& self.actions[i] == SessionAction::StartResponders(ports)
        &&& self.events[i] matches Some(SessionEvent::Reply(resp)) && setup_means(resp@, Ok(ports))
    }
}

/// The order of the stages.
pub open spec fn rank(stage: Stage) -> int {
    match stage {
        Stage::Idle => 0,
        Stage::Options => 1,
        Stage::Announce => 2,
        Stage::Setup => 3,
        Stage::Responders => 4,
        Stage::Record => 5,
        Stage::Volume => 6,
        Stage::Streaming => 7,
        Stage::Closing => 8,
        Stage::Failed => 9,
    }
}

/// Every step stays at its stage, or leads to the very next one, or fails.
pub proof fn lemma_stages_in_order(
    s: SessionView,
    event: Option<SessionEvent>,
    action: SessionAction,
    after: SessionView,
)
    requires
        steps(s, event, action, after),
    ensures
        after.stage == s.stage || rank(after.stage) == rank(s.stage) + 1 || (after.stage == Stage::Failed
            && action is Fail),
        after.config == s.config,
        s.stage == Stage::Closing || s.stage == Stage::Failed ==> after == s && action is Nothing,
{
}

/// A session that is at a stage has entered it from the one before.
proof fn lemma_entered(c: Course, n: int, from: Stage, to: Stage)
    requires
        c.wf(),
        0 <= n <= c.len(),
        c.states[n].stage == to,
        rank(to) == rank(from) + 1,
        to != Stage::Failed,
    ensures
        exists|h: int| h < n && #[trigger] c.leads(h, from, to),
    decreases n,
{
    if n > 0 {
        let s = c.states[n - 1];
        assert(steps(s, c.events[n - 1], c.actions[n - 1], c.states[n - 1 + 1]));
        lemma_stages_in_order(s, c.events[n - 1], c.actions[n - 1], c.states[n]);
        if s.stage == to {
            lemma_entered(c, n - 1, from, to);
            let h = choose|h: int| h < n - 1 && #[trigger] c.leads(h, from, to);
            assert(c.leads(h, from, to));
        } else {
            assert(c.leads(n - 1, from, to));
        }
    }
}

/// From the answer to SETUP on, a session goes by the ports that it gave.
proof fn lemma_ports_are_given(c: Course, n: int)
    requires
        c.wf(),
        0 <= n <= c.len(),
        rank(Stage::Responders) <= rank(c.states[n].stage) <= rank(Stage::Closing),
    ensures
        exists|h: int| h < n && #[trigger] c.gave_ports(h, c.states[n].ports),
    decreases n,
{
    if n > 0 {
        let s = c.states[n - 1];
        let ports = c.states[n].ports;
        assert(steps(s, c.events[n - 1], c.actions[n - 1], c.states[n - 1 + 1]));
        if s.stage == Stage::Setup {
            assert(c.gave_ports(n - 1, ports));
        } else {
            assert(s.ports == ports);
            lemma_ports_are_given(c, n - 1);
            let h = choose|h: int| h < n - 1 && #[trigger] c.gave_ports(h, ports);
            assert(c.gave_ports(h, ports));
        }
    }
}

/// The handshake cannot deadlock on timing: whenever RECORD goes out, the
/// timing and retransmit responders had been started before, with the ports
/// from the answer to SETUP, and were live.
pub proof fn lemma_responders_before_record(c: Course, k: int)
    requires
        c.wf(),
        c.leads(k, Stage::Responders, Stage::Record),
    ensures
        c.events[k] matches Some(e) && e is Ready,
        c.actions[k] matches SessionAction::Send(r) && r@ == record_request(c.states[k]),
        exists|h: int| h < k && #[trigger] c.gave_ports(h, c.states[k].ports),
{
    assert(steps(c.states[k], c.events[k], c.actions[k], c.states[k + 1]));
    lemma_ports_are_given(c, k);
}

/// Audio and SYNC go to the ports from the answer to SETUP.
pub proof fn lemma_stream_uses_given_ports(c: Course, k: int)
    requires
        c.wf(),
        0 <= k < c.len(),
        c.actions[k] is Stream,
    ensures
        exists|h: int| h < k && #[trigger] c.gave_ports(h, c.actions[k]->Stream_0),
{
    assert(steps(c.states[k], c.events[k], c.actions[k], c.states[k + 1]));
    let ports = c.states[k].ports;
    assert(c.actions[k] == SessionAction::Stream(ports));
    lemma_ports_are_given(c, k);
    let h = choose|h: int| h < k && #[trigger] c.gave_ports(h, ports);
    assert(c.gave_ports(h, c.actions[k]->Stream_0));
}

/// RECORD goes out in no other way.
pub proof fn lemma_record_only_when_ready(c: Course, k: int)
    requires
        c.wf(),
        0 <= k < c.len(),
        c.states[k].stage != Stage::Record,
        c.states[k + 1].stage == Stage::Record,
    ensures
        c.leads(k, Stage::Responders, Stage::Record),
{
    assert(steps(c.states[k], c.events[k], c.actions[k], c.states[k + 1]));
}

/// SYNC and audio start only once the device is recording: RECORD had been
/// accepted before.
pub proof fn lemma_stream_after_record(c: Course, k: int)
    requires
        c.wf(),
        0 <= k < c.len(),
        c.actions[k] is Stream,
    ensures
        exists|h: int|
            0 <= h < k && #[trigger] c.leads(h, Stage::Record, Stage::Volume) && (c.events[h] matches Some(
                SessionEvent::Reply(resp),
            ) && accepted(resp@)),
{
    assert(steps(c.states[k], c.events[k], c.actions[k], c.states[k + 1]));
    assert(c.states[k].stage == Stage::Volume);
    lemma_entered(c, k, Stage::Record, Stage::Volume);
    let h = choose|h: int| h < k && #[trigger] c.leads(h, Stage::Record, Stage::Volume);
    assert(steps(c.states[h], c.events[h], c.actions[h], c.states[h + 1]));
    assert(c.leads(h, Stage::Record, Stage::Volume));
}

/// The session id comes from the answer to SETUP and stays: no other step,
/// and no keep-alive, changes it.
pub proof fn lemma_session_id_stays(
    s: SessionView,
    event: Option<SessionEvent>,
    action: SessionAction,
    after: SessionView,
)
    requires
        steps(s, event, action, after),
        s.stage != Stage::Setup,
    ensures
        after.rtsp.session == s.rtsp.session,
{
}

/// What ANNOUNCE describes is what goes out: its description ends with the
/// media lines for the codec, and every packet carries, behind 12 bytes of
/// header, a block of the described number of frames in that codec.
pub proof fn lemma_announce_matches_audio(s: SessionView, n: int, pcm: Seq<u8>)
    requires
        pcm.len() == BLOCK_BYTES,
    ensures
        ({
            let body = announce_request(s).body;
            let media = media_text(s.config.params.codec, SAMPLE_RATE);
            body.len() >= media.len() && body.skip(body.len() - media.len()) == media
        }),
        packet(s.config.params, n, pcm).bytes.skip(12) == payload_of(s.config.params.codec, pcm),
        pcm.len() == FRAMES_PER_PACKET * 4,
{
    let body = announce_request(s).body;
    let media = media_text(s.config.params.codec, SAMPLE_RATE);
    assert(body.skip(body.len() - media.len()) =~= media);
    assert(packet(s.config.params, n, pcm).bytes.skip(12) =~= payload_of(s.config.params.codec, pcm));
}

/// RECORD names the numbers of the packet that is sent first.
pub proof fn lemma_record_names_first_packet(s: SessionView, pcm: Seq<u8>)
    ensures
        ({
            let first = packet(s.config.params, 0, pcm);
            record_request(s) == next_request(
                s.rtsp,
                "RECORD"@,
                s.rtsp.uri,
                seq![
                    ("Range"@, "npt=0-"@),
                    ("RTP-Info"@, rtp_info_text(first.seq, first.timestamp)),
                    ("Session"@, s.rtsp.session),
                ],
                None,
                Seq::empty(),
            )
        }),
{
    let first = packet(s.config.params, 0, pcm);
    assert(first.seq == s.config.params.seq_start);
    assert(first.timestamp == s.config.params.rtp_start);
}

/// A refused request is the end: the session fails with the method and the
/// status, and does nothing more.
pub proof fn lemma_refusal_ends_session(s: SessionView, resp: Response, action: SessionAction, after: SessionView)
    requires
        does(s, SessionEvent::Reply(resp), action, after),
        !accepted(resp@),
        s.stage == Stage::Options || s.stage == Stage::Announce || s.stage == Stage::Setup || s.stage
            == Stage::Record || s.stage == Stage::Volume,
    ensures
        after.stage == Stage::Failed,
        action matches SessionAction::Fail(RtspError::Refused { status, .. }) && status == resp@.status,
{
}

// ---------------------------------------------------------------------------
// What is sent when

/// What a session was given stands for itself.
pub proof fn lemma_config_fields(c: SessionConfig)
    ensures
        c@.client_ip == c.client_ip@,
        c@.device_ip == c.device_ip@,
        c@.control_port == c.control_port,
        c@.timing_port == c.timing_port,
        c@.volume_db == c.volume_db@,
        c@.params == c.params,
{
}

/// A response accepts a request exactly where its status has the hundreds
/// digit 2.
pub proof fn lemma_accepted(resp: ResponseView)
    ensures
        accepted(resp) <==> resp.status as int / 100 == 2,
{
}

/// What each request of a session says. All go to the session's address (but
/// OPTIONS, which goes to "*"), under the next number.
pub proof fn lemma_requests_say(s: SessionView)
    ensures
        ({
            let (c, n, none) = (s.config, s.rtsp.cseq + 1, Seq::<char>::empty());
            let base = s.rtsp.base_headers;
            let session = seq![("Session"@, s.rtsp.session)];
            let echo = if s.rtsp.session.len() == 0 { Seq::<Header>::empty() } else { session };
            &&& options_request(s) == request("OPTIONS"@, "*"@, n, base + echo, None, none)
            &&& announce_request(s) == request(
                "ANNOUNCE"@,
                s.rtsp.uri,
                n,
                base + echo,
                Some("application/sdp"@),
                sdp_text(after_last(s.rtsp.uri, '/'), c.client_ip, c.device_ip, c.params.codec, 44_100),
            )
            &&& setup_request(s) == request(
                "SETUP"@,
                s.rtsp.uri,
                n,
                base + echo.push(("Transport"@, transport_text(c.control_port, c.timing_port))),
                None,
                none,
            )
            &&& record_request(s) == request(
                "RECORD"@,
                s.rtsp.uri,
                n,
                base + (seq![
                    ("Range"@, "npt=0-"@),
                    ("RTP-Info"@, rtp_info_text(c.params.seq_start, c.params.rtp_start)),
                ] + session),
                None,
                none,
            )
            &&& volume_request(s) == request(
                "SET_PARAMETER"@,
                s.rtsp.uri,
                n,
                base + session,
                Some("text/parameters"@),
                "volume: "@ + c.volume_db + "\r\n"@,
            )
            &&& teardown_request(s) == request("TEARDOWN"@, s.rtsp.uri, n, base + session, None, none)
        }),
{
    let c = s.config;
    let session = seq![("Session"@, s.rtsp.session)];
    assert(seq![
        ("Range"@, "npt=0-"@),
        ("RTP-Info"@, rtp_info_text(c.params.seq_start, c.params.rtp_start)),
        ("Session"@, s.rtsp.session),
    ] =~= seq![
        ("Range"@, "npt=0-"@),
        ("RTP-Info"@, rtp_info_text(c.params.seq_start, c.params.rtp_start)),
    ] + session);
}

/// Which request follows which answer: OPTIONS opens a session; each answer
/// with a status from 200 to 299 leads to the next of ANNOUNCE, SETUP, the
/// responders, RECORD (once they are live), SET_PARAMETER and the stream; the
/// end of the input leads to TEARDOWN. Any other answer ends the session with
/// the method that it refuses and its status. What comes out of turn does
/// nothing.
pub proof fn lemma_course(s: SessionView, event: SessionEvent, action: SessionAction, after: SessionView)
    requires
        does(s, event, action, after),
    ensures
        event is Begin ==> if s.stage == Stage::Idle {
            (action matches SessionAction::Send(r) && r@ == options_request(s)) && after.stage == Stage::Options
        } else {
            action is Nothing && after == s
        },
        event is Ready ==> if s.stage == Stage::Responders {
            (action matches SessionAction::Send(r) && r@ == record_request(s)) && after.stage == Stage::Record
        } else {
            action is Nothing && after == s
        },
        event is InputEnded ==> if s.stage == Stage::Streaming {
            (action matches SessionAction::Send(r) && r@ == teardown_request(s)) && after.stage == Stage::Closing
        } else {
            action is Nothing && after == s
        },
        event matches SessionEvent::Reply(resp) ==> ({
            let ok = 200 <= resp@.status <= 299;
            &&& s.stage == Stage::Options && ok ==> (action matches SessionAction::Send(r) && r@ == announce_request(
                s,
            )) && after.stage == Stage::Announce
            &&& s.stage == Stage::Announce && ok ==> (action matches SessionAction::Send(r) && r@ == setup_request(s))
                && after.stage == Stage::Setup
            &&& s.stage == Stage::Setup ==> after.rtsp == session_after(s.rtsp, resp@)
            &&& s.stage == Stage::Setup && (action matches SessionAction::Fail(e)) ==> after.stage == Stage::Failed
                && setup_means(resp@, Err(action->Fail_0))
            &&& s.stage == Stage::Setup && ok && !(action is Fail) ==> action == SessionAction::StartResponders(
                after.ports,
            ) && setup_means(resp@, Ok(after.ports)) && after.stage == Stage::Responders
            &&& s.stage == Stage::Record && ok ==> (action matches SessionAction::Send(r) && r@ == volume_request(s))
                && after.stage == Stage::Volume
            &&& s.stage == Stage::Volume && ok ==> action == SessionAction::Stream(s.ports) && after.stage
                == Stage::Streaming
            &&& s.stage == Stage::Idle || s.stage == Stage::Responders || s.stage == Stage::Streaming || s.stage
                == Stage::Closing || s.stage == Stage::Failed ==> action is Nothing && after == s
            &&& !ok && (s.stage == Stage::Options || s.stage == Stage::Announce || s.stage == Stage::Setup || s.stage
                == Stage::Record || s.stage == Stage::Volume) ==> after.stage == Stage::Failed && (
            action matches SessionAction::Fail(RtspError::Refused { method, status }) && status == resp@.status
                && method@ == (match s.stage {
                Stage::Options => "OPTIONS"@,
                Stage::Announce => "ANNOUNCE"@,
                Stage::Setup => "SETUP"@,
                Stage::Record => "RECORD"@,
                _ => "SET_PARAMETER"@,
            }))
        }),
        action is Send ==> after.rtsp.cseq == s.rtsp.cseq + 1 && after.rtsp.uri == s.rtsp.uri && after.rtsp.session
            == s.rtsp.session && after.rtsp.base_headers == s.rtsp.base_headers,
        !(action is Send) ==> after.rtsp.cseq == s.rtsp.cseq,
        after.config == s.config,
        !(action is StartResponders) ==> after.ports == s.ports,
{
}

} // verus!
