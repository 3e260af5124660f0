//! The realtime data plane beside the audio itself: the three things a strict
//! receiver needs to keep playing instead of muting after about a second:
//!   1. an NTP-style **timing** responder,
//!   2. periodic **SYNC** packets (RTP timestamp -> clock anchor), and
//!   3. a **retransmit** responder backed by a bounded packet history.

use crate::audio::{frames_ns, lemma_packets_are_consecutive, packet, AudioPacket, StreamParams};
use crate::bytes::{
    be16, be16_at, be32, lemma_be16_bytes, lemma_be32_bytes, push_be16, push_be32, push_bytes, read_be16,
};
use crate::clock::Clock;
use crate::history::{lemma_recent_packets_stay, seq_after, stored, stored_run};
use vstd::arithmetic::power2::{is_pow2_exists, lemma2_to64, lemma_pow2};
use vstd::prelude::*;

pub use crate::audio::{FRAMES_PER_PACKET, SAMPLE_RATE};
pub use crate::history::History;

verus! {

/// How many packets can be sent again: about 16 s of audio, in fixed memory.
pub const HISTORY_PACKETS: usize = 2048;

/// How long to wait between two SYNC packets, in milliseconds.
pub const SYNC_MS: u64 = 1000;

/// State that the sync and control responders read while audio is sent.
pub struct Shared {
    pub clock: Clock,
    /// RTP timestamp the sender has produced up to (advertised in SYNC).
    pub head: u32,
    pub latency: u32,
    pub history: History,
}

// ---------------------------------------------------------------------------
// Timing

/// The answer to a timing request: type 0x53 with the marker bit, the
/// request's transmit time, and our receive and transmit times.
pub open spec fn timing_bytes(request: Seq<u8>, received: (u32, u32), sent: (u32, u32)) -> Seq<u8> {
    seq![0x80u8, 0xD3u8, 0u8, 0x07u8, 0u8, 0u8, 0u8, 0u8] + request.subrange(24, 32) + be32(received.0) + be32(
        received.1,
    ) + be32(sent.0) + be32(sent.1)
}

/// The answer to a timing request that came in and goes out at the given
/// times. A datagram that is too short gets none.
pub fn timing_reply(request: &[u8], received: (u32, u32), sent: (u32, u32)) -> (r: Option<Vec<u8>>)
    ensures
        r is Some <==> request@.len() >= 32,
        r matches Some(bytes) ==> bytes@ == timing_bytes(request@, received, sent),
{
    if request.len() < 32 {
        return None;
    }
    let mut r: Vec<u8> = Vec::new();
    r.push(0x80);
    r.push(0xD3);  // timing response, marker bit set
    r.push(0);
    r.push(0x07);
    push_be32(&mut r, 0);
    assert(r@ =~= seq![0x80u8, 0xD3u8, 0u8, 0x07u8, 0u8, 0u8, 0u8, 0u8]);
    push_bytes(&mut r, &request[24..32]);  // the request's transmit time
    push_be32(&mut r, received.0);
    push_be32(&mut r, received.1);
    push_be32(&mut r, sent.0);
    push_be32(&mut r, sent.1);
    Some(r)
}

/// Answer a timing request now.
pub fn answer_timing(clock: &Clock, request: &[u8]) -> (r: Option<Vec<u8>>)
    ensures
        r is Some <==> request@.len() >= 32,
        r matches Some(bytes) ==> exists|received: (u32, u32), sent: (u32, u32)|
            clock.shows(received) && clock.shows(sent) && bytes@ == #[trigger] timing_bytes(
                request@,
                received,
                sent,
            ),
{
    if request.len() < 32 {
        return None;
    }
    let received = clock.ntp();
    let sent = clock.ntp();
    timing_reply(request, received, sent)
}

// ---------------------------------------------------------------------------
// SYNC

/// A SYNC packet (type 0x54): the RTP time that is playing, the NTP time, and
/// the RTP time that has been sent. The first one sets the extension bit.
pub open spec fn sync_bytes(first: bool, head: u32, latency: u32, now: (u32, u32)) -> Seq<u8> {
    seq![if first { 0x90u8 } else { 0x80u8 }, 0xD4u8, 0u8, 0x07u8] + be32(
        ((head - latency) % 0x1_0000_0000) as u32,
    ) + be32(now.0) + be32(now.1) + be32(head)
}

/// The SYNC packet for the given state and time.
pub fn sync_packet(first: bool, head: u32, latency: u32, now: (u32, u32)) -> (p: Vec<u8>)
    ensures
        p@ == sync_bytes(first, head, latency, now),
{
    let now_without_latency: u32 = head.wrapping_sub(latency);
    let mut p: Vec<u8> = Vec::new();
    p.push(if first { 0x90 } else { 0x80 });
    p.push(0xD4);
    p.push(0);
    p.push(0x07);
    assert(p@ =~= seq![if first { 0x90u8 } else { 0x80u8 }, 0xD4u8, 0u8, 0x07u8]);
    push_be32(&mut p, now_without_latency);
    push_be32(&mut p, now.0);
    push_be32(&mut p, now.1);
    push_be32(&mut p, head);
    p
}

/// Whether `p` is a SYNC packet for the given state, at some time that the
/// clock can show.
pub open spec fn is_sync_for(shared: Shared, first: bool, p: Seq<u8>) -> bool {
    exists|now: (u32, u32)|
        shared.clock.shows(now) && p == #[trigger] sync_bytes(first, shared.head, shared.latency, now)
}

/// The sender of SYNC packets, which knows whether it has sent one.
pub struct SyncSender {
    first: bool,
}

impl SyncSender {
    /// Whether the next packet is the first one.
    pub closed spec fn is_first(&self) -> bool {
        self.first
    }

    pub fn new() -> (s: Self)
        ensures
            s.is_first(),
    {
        SyncSender { first: true }
    }

    /// The packet to send now.
    pub fn next(&mut self, shared: &Shared) -> (p: Vec<u8>)
        ensures
            !final(self).is_first(),
            is_sync_for(*shared, old(self).is_first(), p@),
    {
        let now = shared.clock.ntp();
        let p = sync_packet(self.first, shared.head, shared.latency, now);
        self.first = false;
        p
    }
}

// ---------------------------------------------------------------------------
// Retransmission

/// Whether a datagram asks for packets again (type 0x55).
pub open spec fn is_resend_request(request: Seq<u8>) -> bool {
    request.len() >= 8 && request[1] % 0x80 == 0x55
}

/// A packet that is sent again, in its container (type 0x56).
pub open spec fn resend_bytes(seq: u16, pkt: Seq<u8>) -> Seq<u8> {
    seq![0x80u8, 0xD6u8] + be16(seq) + pkt
}

/// The answers for `count` sequence numbers from `first` on: one for each
/// packet that can still be had, in order.
pub open spec fn resends(m: Map<u16, Seq<u8>>, first: u16, count: nat) -> Seq<Seq<u8>>
    decreases count,
{
    if count == 0 {
        Seq::<Seq<u8>>::empty()
    } else {
        let before = resends(m, first, (count - 1) as nat);
        let seq = seq_after(first, count - 1);
        if m.contains_key(seq) {
            before.push(resend_bytes(seq, m[seq]))
        } else {
            before
        }
    }
}

/// What is sent in answer to a datagram on the control port.
pub open spec fn resend_answers(m: Map<u16, Seq<u8>>, request: Seq<u8>) -> Seq<Seq<u8>> {
    if is_resend_request(request) {
        resends(m, be16_at(request, 4), be16_at(request, 6) as nat)
    } else {
        Seq::<Seq<u8>>::empty()
    }
}

/// A list of datagrams as values.
pub open spec fn all_bytes(v: Seq<Vec<u8>>) -> Seq<Seq<u8>> {
    v.map_values(|b: Vec<u8>| b@)
}

/// The RTP time up to which there is audio, once the packet with the given
/// timestamp has been sent.
pub open spec fn head_after(timestamp: u32) -> u32 {
    ((timestamp + FRAMES_PER_PACKET) % 0x1_0000_0000) as u32
}

impl Shared {
    pub open spec fn wf(&self) -> bool {
        self.history.wf()
    }

    /// The state before the first packet.
    pub fn new(clock: Clock, rtp_start: u32, latency: u32) -> (s: Self)
        ensures
            s.wf(),
            s.clock == clock,
            s.head == rtp_start,
            s.latency == latency,
            s.history.cap() == HISTORY_PACKETS,
            s.history@ == Map::<u16, Seq<u8>>::empty(),
    {
        proof {
            lemma2_to64();
            lemma_pow2(11);
            assert(vstd::arithmetic::power::pow(2, 11) == 2048);
        }
        Shared { clock, head: rtp_start, latency, history: History::new(HISTORY_PACKETS) }
    }

    /// Note that a packet has been sent: the head moves past it, and it can be
    /// sent again.
    pub fn sent(&mut self, p: AudioPacket)
        requires
            old(self).wf(),
        ensures
            final(self).wf(),
            final(self).clock == old(self).clock,
            final(self).latency == old(self).latency,
            final(self).head == head_after(p.timestamp),
            final(self).head == (p.timestamp + FRAMES_PER_PACKET) % 0x1_0000_0000,
            final(self).history.cap() == old(self).history.cap(),
            final(self).history@ == stored(old(self).history@, old(self).history.cap(), p.seq, p.bytes@),
    {
        self.head = p.timestamp.wrapping_add(FRAMES_PER_PACKET);
        self.history.put(p.seq, p.bytes);
    }

    /// The datagrams to send in answer to one that came in on the control
    /// port.
    pub fn resend(&self, request: &[u8]) -> (out: Vec<Vec<u8>>)
        requires
            self.wf(),
        ensures
            all_bytes(out@) == resend_answers(self.history@, request@),
    {
        let mut out: Vec<Vec<u8>> = Vec::new();
        assert(all_bytes(out@) =~= Seq::<Seq<u8>>::empty());
        if request.len() < 8 {
            return out;
        }
        let kind: u8 = request[1];
        assert(kind & 0x7f == kind % 0x80) by (bit_vector);
        if kind & 0x7f != 0x55 {
            return out;
        }
        let first: u16 = read_be16(request, 4);
        let count: u16 = read_be16(request, 6);
        let mut i: u16 = 0;
        while i < count
            invariant
                self.wf(),
                i <= count,
                all_bytes(out@) == resends(self.history@, first, i as nat),
            decreases count - i,
        {
            let seq: u16 = first.wrapping_add(i);
            assert(seq == seq_after(first, i as int));
            if let Some(orig) = self.history.get(seq) {
                let mut answer: Vec<u8> = Vec::new();
                answer.push(0x80);
                answer.push(0xD6);
                assert(answer@ =~= seq![0x80u8, 0xD6u8]);
                push_be16(&mut answer, seq);
                push_bytes(&mut answer, orig);
                let ghost before = out@;
                out.push(answer);
                assert(all_bytes(out@) =~= all_bytes(before).push(answer@));
            }
            i = i + 1;
        }
        out
    }
}

// ---------------------------------------------------------------------------
// What is on the wire

/// The bytes of `x` as they stand at `at` in `p`.
spec fn stands(p: Seq<u8>, at: int, x: u32) -> bool {
    p[at] * 16_777_216 + p[at + 1] * 65_536 + p[at + 2] * 256 + p[at + 3] == x
}

proof fn lemma_stands(p: Seq<u8>, at: int, x: u32)
    requires
        0 <= at,
        at + 4 <= p.len(),
        p.subrange(at, at + 4) == be32(x),
    ensures
        stands(p, at, x),
{
    lemma_be32_bytes(x);
    assert(p[at] == p.subrange(at, at + 4)[0] && p[at + 1] == p.subrange(at, at + 4)[1]);
    assert(p[at + 2] == p.subrange(at, at + 4)[2] && p[at + 3] == p.subrange(at, at + 4)[3]);
}

/// Going back and forth on a wrapping counter.
proof fn lemma_back_and_forth(head: int, latency: int)
    requires
        0 <= head < 4_294_967_296,
        0 <= latency < 4_294_967_296,
    ensures
        ((head - latency) % 4_294_967_296 + latency) % 4_294_967_296 == head,
        ((head + 352) % 4_294_967_296 - head) % 4_294_967_296 == 352,
{
    if head >= latency {
        assert((head - latency) % 4_294_967_296 == head - latency);
    } else {
        assert((head - latency) % 4_294_967_296 == head - latency + 4_294_967_296);
    }
}

/// A timing reply, read from the wire: type 0x53 with the marker bit, the
/// transmit time of the request as it came, and both of our times.
#[verifier::spinoff_prover]
#[verifier::rlimit(40)]
pub proof fn lemma_timing_on_wire(request: Seq<u8>, received: (u32, u32), sent: (u32, u32))
    requires
        request.len() >= 32,
    ensures
        ({
            let r = timing_bytes(request, received, sent);
            &&& r.len() == 32
            &&& r[0] == 0x80 && r[1] == 0xD3 && r[2] == 0 && r[3] == 7
            &&& r[4] == 0 && r[5] == 0 && r[6] == 0 && r[7] == 0
            &&& forall|i: int| 0 <= i < 8 ==> #[trigger] r[8 + i] == request[24 + i]
            &&& r[16] * 16_777_216 + r[17] * 65_536 + r[18] * 256 + r[19] == received.0
            &&& r[20] * 16_777_216 + r[21] * 65_536 + r[22] * 256 + r[23] == received.1
            &&& r[24] * 16_777_216 + r[25] * 65_536 + r[26] * 256 + r[27] == sent.0
            &&& r[28] * 16_777_216 + r[29] * 65_536 + r[30] * 256 + r[31] == sent.1
        }),
{
    let r = timing_bytes(request, received, sent);
    assert(r.subrange(16, 20) =~= be32(received.0));
    assert(r.subrange(20, 24) =~= be32(received.1));
    assert(r.subrange(24, 28) =~= be32(sent.0));
    assert(r.subrange(28, 32) =~= be32(sent.1));
    lemma_stands(r, 16, received.0);
    lemma_stands(r, 20, received.1);
    lemma_stands(r, 24, sent.0);
    lemma_stands(r, 28, sent.1);
}

/// A SYNC packet, read from the wire: type 0x54, with the extension bit on the
/// first one only; the RTP time that is playing, which is the latency behind
/// the head; the NTP time that was given; and the head.
#[verifier::spinoff_prover]
#[verifier::rlimit(40)]
pub proof fn lemma_sync_on_wire(first: bool, head: u32, latency: u32, now: (u32, u32))
    ensures
        ({
            let p = sync_bytes(first, head, latency, now);
            let playing = p[4] * 16_777_216 + p[5] * 65_536 + p[6] * 256 + p[7];
            &&& p.len() == 20
            &&& p[0] == if first { 0x90int } else { 0x80int }
            &&& p[1] == 0xD4 && p[2] == 0 && p[3] == 7
            &&& (playing + latency) % 4_294_967_296 == head
            &&& p[8] * 16_777_216 + p[9] * 65_536 + p[10] * 256 + p[11] == now.0
            &&& p[12] * 16_777_216 + p[13] * 65_536 + p[14] * 256 + p[15] == now.1
            &&& p[16] * 16_777_216 + p[17] * 65_536 + p[18] * 256 + p[19] == head
        }),
{
    let p = sync_bytes(first, head, latency, now);
    let playing = ((head - latency) % 0x1_0000_0000) as u32;
    assert(p.subrange(4, 8) =~= be32(playing));
    assert(p.subrange(8, 12) =~= be32(now.0));
    assert(p.subrange(12, 16) =~= be32(now.1));
    assert(p.subrange(16, 20) =~= be32(head));
    lemma_back_and_forth(head as int, latency as int);
    lemma_stands(p, 4, playing);
    lemma_stands(p, 8, now.0);
    lemma_stands(p, 12, now.1);
    lemma_stands(p, 16, head);
}

/// A SYNC packet of a state carries its head and its latency, and a time that
/// its clock shows.
pub proof fn lemma_sync_of_state(shared: Shared, first: bool, p: Seq<u8>)
    requires
        is_sync_for(shared, first, p),
    ensures
        p.len() == 20,
        p[0] == if first { 0x90int } else { 0x80int },
        p[16] * 16_777_216 + p[17] * 65_536 + p[18] * 256 + p[19] == shared.head,
        (p[4] * 16_777_216 + p[5] * 65_536 + p[6] * 256 + p[7] + shared.latency) % 4_294_967_296 == shared.head,
        exists|now: (u32, u32)| #[trigger]
            shared.clock.shows(now) && p[8] * 16_777_216 + p[9] * 65_536 + p[10] * 256 + p[11] == now.0 && p[12]
                * 16_777_216 + p[13] * 65_536 + p[14] * 256 + p[15] == now.1,
{
    let now = choose|now: (u32, u32)|
        shared.clock.shows(now) && p == #[trigger] sync_bytes(first, shared.head, shared.latency, now);
    lemma_sync_on_wire(first, shared.head, shared.latency, now);
    assert(shared.clock.shows(now));
}

/// What SYNC calls the head is the timestamp of the packet that comes next:
/// 352 frames past the one that was sent last.
#[verifier::spinoff_prover]
#[verifier::rlimit(40)]
pub proof fn lemma_head_is_next_timestamp(params: StreamParams, n: int, pcm: Seq<u8>, next: Seq<u8>)
    requires
        0 <= n,
    ensures
        head_after(packet(params, n, pcm).timestamp) == packet(params, n + 1, next).timestamp,
        (head_after(packet(params, n, pcm).timestamp) - packet(params, n, pcm).timestamp) % 4_294_967_296 == 352,
{
    lemma_packets_are_consecutive(params, n, pcm, next);
    lemma_back_and_forth(packet(params, n, pcm).timestamp as int, 0);
}

/// A datagram that answers a request for packet `seq`, read from the wire:
/// type 0x56 with the marker bit, the number of the packet, and behind these
/// four bytes the packet as it was sent.
pub open spec fn carries(datagram: Seq<u8>, seq: u16, pkt: Seq<u8>) -> bool {
    &&& datagram.len() == 4 + pkt.len()
    &&& datagram[0] == 0x80
    &&& datagram[1] == 0xD6
    &&& datagram[2] * 256 + datagram[3] == seq
    &&& forall|i: int| 0 <= i < pkt.len() ==> #[trigger] datagram[4 + i] == pkt[i]
}

/// A packet that is sent again, whatever it holds, has the bytes of a
/// retransmit response: 0x80 0xD6, its number, and the packet from byte 4 on.
pub proof fn lemma_resend_on_wire(seq: u16, pkt: Seq<u8>)
    ensures
        resend_bytes(seq, pkt).len() == 4 + pkt.len(),
        resend_bytes(seq, pkt)[0] == 0x80,
        resend_bytes(seq, pkt)[1] == 0xD6,
        resend_bytes(seq, pkt)[2] * 256 + resend_bytes(seq, pkt)[3] == seq,
        resend_bytes(seq, pkt).skip(4) == pkt,
        carries(resend_bytes(seq, pkt), seq, pkt),
{
    let d = resend_bytes(seq, pkt);
    lemma_be16_bytes(seq, d, 2);
    assert(d.subrange(2, 4) =~= be16(seq));
    assert(d[2] == be16(seq)[0] && d[3] == be16(seq)[1]);
    assert(d.skip(4) =~= pkt);
}

/// How far the number in an answer lies behind the first one asked for.
pub open spec fn offset_in(datagram: Seq<u8>, first: int) -> int {
    (datagram[2] * 256 + datagram[3] - first) % 65_536
}

#[verifier::rlimit(40)]
proof fn lemma_resends_in_order(m: Map<u16, Seq<u8>>, first: u16, count: nat)
    requires
        count <= 65_536,
    ensures
        forall|k: int|
            0 <= k < resends(m, first, count).len() ==> 0 <= offset_in(
                #[trigger] resends(m, first, count)[k],
                first as int,
            ) < count,
        forall|k: int, l: int|
            0 <= k < l < resends(m, first, count).len() ==> offset_in(
                #[trigger] resends(m, first, count)[k],
                first as int,
            ) < offset_in(#[trigger] resends(m, first, count)[l], first as int),
        forall|k: int|
            0 <= k < resends(m, first, count).len() ==> ({
                let d = #[trigger] resends(m, first, count)[k];
                let seq = ((first + offset_in(d, first as int)) % 65_536) as u16;
                m.contains_key(seq) && carries(d, seq, m[seq])
            }),
        forall|j: int|
            0 <= j < count && m.contains_key(#[trigger] seq_after(first, j)) ==> exists|k: int|
                0 <= k < resends(m, first, count).len() && carries(
                    #[trigger] resends(m, first, count)[k],
                    seq_after(first, j),
                    m[seq_after(first, j)],
                ),
    decreases count,
{
    if count > 0 {
        let n = (count - 1) as nat;
        lemma_resends_in_order(m, first, n);
        let before = resends(m, first, n);
        let after = resends(m, first, count);
        let last = seq_after(first, n as int);
        if m.contains_key(last) {
            lemma_resend_on_wire(last, m[last]);
            let d = resend_bytes(last, m[last]);
            assert(after == before.push(d));
            assert(offset_in(d, first as int) == n);
            assert(((first + n) % 65_536) as u16 == last);
        }
        assert forall|k: int| 0 <= k < before.len() implies #[trigger] after[k] == before[k] by {}
        assert forall|j: int| 0 <= j < count && m.contains_key(#[trigger] seq_after(first, j)) implies exists|k: int|
            0 <= k < after.len() && carries(
                #[trigger] after[k],
                seq_after(first, j),
                m[seq_after(first, j)],
            ) by {
            if j < n {
                let k = choose|k: int|
                    0 <= k < before.len() && carries(
                        #[trigger] before[k],
                        seq_after(first, j),
                        m[seq_after(first, j)],
                    );
                assert(after[k] == before[k]);
            } else {
                assert(carries(after[before.len() as int], last, m[last]));
            }
        }
    }
}

/// How a datagram on the control port is answered. One that is shorter than
/// eight bytes, or whose type (with or without the marker bit) is not 0x55, is
/// not. Otherwise bytes 4 and 5 are the first number that is asked for, bytes
/// 6 and 7 how many: each packet with one of these numbers that can be had
/// goes out once, in their order, and nothing else does.
#[verifier::rlimit(40)]
pub proof fn lemma_request_is_answered(m: Map<u16, Seq<u8>>, request: Seq<u8>)
    ensures
        request.len() < 8 || !(request[1] == 0x55 || request[1] == 0xD5) ==> resend_answers(m, request).len() == 0,
        request.len() >= 8 && (request[1] == 0x55 || request[1] == 0xD5) ==> ({
            let answers = resend_answers(m, request);
            let first = request[4] * 256 + request[5];
            let count = request[6] * 256 + request[7];
            &&& forall|k: int|
                0 <= k < answers.len() ==> 0 <= offset_in(#[trigger] answers[k], first) < count
            &&& forall|k: int, l: int|
                0 <= k < l < answers.len() ==> offset_in(#[trigger] answers[k], first) < offset_in(
                    #[trigger] answers[l],
                    first,
                )
            &&& forall|k: int|
                0 <= k < answers.len() ==> ({
                    let seq = ((first + offset_in(#[trigger] answers[k], first)) % 65_536) as u16;
                    m.contains_key(seq) && carries(answers[k], seq, m[seq])
                })
            &&& forall|j: int, seq: u16|
                0 <= j < count && seq == #[trigger] ((first + j) % 65_536) && #[trigger] m.contains_key(seq)
                    ==> exists|k: int| 0 <= k < answers.len() && carries(#[trigger] answers[k], seq, m[seq])
        }),
{
    if request.len() >= 8 && (request[1] == 0x55 || request[1] == 0xD5) {
        let first = be16_at(request, 4);
        let count = be16_at(request, 6) as nat;
        lemma_be16_bytes(0, request, 4);
        lemma_be16_bytes(0, request, 6);
        assert(is_resend_request(request));
        lemma_resends_in_order(m, first, count);
        let answers = resend_answers(m, request);
        assert(answers == resends(m, first, count));
        assert forall|j: int, seq: u16|
            0 <= j < count && seq == #[trigger] ((first + j) % 65_536) && #[trigger] m.contains_key(
                seq,
            ) implies exists|k: int| 0 <= k < answers.len() && carries(#[trigger] answers[k], seq, m[seq]) by {
            assert(seq == seq_after(first, j));
        }
    }
}

/// The list of datagrams that goes out is the list of answers.
pub proof fn lemma_all_bytes(v: Seq<Vec<u8>>)
    ensures
        all_bytes(v).len() == v.len(),
        forall|i: int| 0 <= i < v.len() ==> #[trigger] all_bytes(v)[i] == v[i]@,
{
}

// ---------------------------------------------------------------------------
// What retransmission promises

/// Whether a datagram is the answer for one of the numbers asked for.
pub open spec fn answers_one(m: Map<u16, Seq<u8>>, first: u16, count: nat, datagram: Seq<u8>) -> bool {
    exists|j: int|
        0 <= j < count && m.contains_key(#[trigger] seq_after(first, j)) && datagram == resend_bytes(
            seq_after(first, j),
            m[seq_after(first, j)],
        )
}

/// A request is answered for every packet that can be had, and for nothing
/// else: whatever goes out is a held packet with one of the numbers asked for.
pub proof fn lemma_resends_exact(m: Map<u16, Seq<u8>>, first: u16, count: nat)
    ensures
        forall|j: int|
            0 <= j < count && m.contains_key(#[trigger] seq_after(first, j)) ==> resends(m, first, count).contains(
                resend_bytes(seq_after(first, j), m[seq_after(first, j)]),
            ),
        forall|k: int|
            0 <= k < resends(m, first, count).len() ==> answers_one(
                m,
                first,
                count,
                #[trigger] resends(m, first, count)[k],
            ),
        resends(m, first, count).len() <= count,
    decreases count,
{
    if count > 0 {
        let n = (count - 1) as nat;
        lemma_resends_exact(m, first, n);
        let before = resends(m, first, n);
        let after = resends(m, first, count);
        let last = seq_after(first, n as int);
        assert forall|j: int| 0 <= j < count && m.contains_key(#[trigger] seq_after(first, j)) implies after.contains(
            resend_bytes(seq_after(first, j), m[seq_after(first, j)]),
        ) by {
            let x = resend_bytes(seq_after(first, j), m[seq_after(first, j)]);
            if j < n {
                let k = choose|k: int| 0 <= k < before.len() && before[k] == x;
                assert(after[k] == x);
            } else {
                assert(after[before.len() as int] == x);
            }
        }
        assert forall|k: int| 0 <= k < after.len() implies answers_one(m, first, count, #[trigger] after[k]) by {
            if k < before.len() {
                assert(after[k] == before[k]);
                assert(answers_one(m, first, n, before[k]));
                let j = choose|j: int|
                    0 <= j < n && m.contains_key(#[trigger] seq_after(first, j)) && before[k] == resend_bytes(
                        seq_after(first, j),
                        m[seq_after(first, j)],
                    );
                assert(m.contains_key(seq_after(first, j)));
            } else {
                assert(m.contains_key(seq_after(first, n as int)));
            }
        }
    }
}

/// The held packets among the numbers asked for.
pub open spec fn held(m: Map<u16, Seq<u8>>, first: u16, count: nat) -> Set<u16>
    decreases count,
{
    if count == 0 {
        Set::empty()
    } else {
        let before = held(m, first, (count - 1) as nat);
        let seq = seq_after(first, count - 1);
        if m.contains_key(seq) {
            before.insert(seq)
        } else {
            before
        }
    }
}

proof fn lemma_held(m: Map<u16, Seq<u8>>, first: u16, count: nat)
    requires
        count <= 0x1_0000,
    ensures
        held(m, first, count).finite(),
        held(m, first, count).len() == resends(m, first, count).len(),
        forall|k: u16| #[trigger]
            held(m, first, count).contains(k) ==> m.contains_key(k) && exists|j: int|
                0 <= j < count && k == #[trigger] seq_after(first, j),
    decreases count,
{
    if count > 0 {
        lemma_held(m, first, (count - 1) as nat);
        let before = held(m, first, (count - 1) as nat);
        let seq = seq_after(first, count - 1);
        if before.contains(seq) {
            let j = choose|j: int| 0 <= j < count - 1 && seq == #[trigger] seq_after(first, j);
            assert(seq_after(first, j) != seq_after(first, count - 1));
        }
        assert forall|k: u16| #[trigger] held(m, first, count).contains(k) implies m.contains_key(k) && exists|j: int|
            0 <= j < count && k == #[trigger] seq_after(first, j) by {
            if k == seq {
                assert(k == seq_after(first, count - 1));
            } else {
                assert(before.contains(k));
                let j = choose|j: int| 0 <= j < count - 1 && k == #[trigger] seq_after(first, j);
                assert(k == seq_after(first, j));
            }
        }
    }
}

/// However much is asked for, no more goes out in answer than the history
/// holds.
pub proof fn lemma_resends_bounded(m: Map<u16, Seq<u8>>, request: Seq<u8>)
    requires
        m.dom().finite(),
    ensures
        resend_answers(m, request).len() <= m.dom().len(),
{
    let first = be16_at(request, 4);
    let count = be16_at(request, 6) as nat;
    lemma_held(m, first, count);
    assert(held(m, first, count).subset_of(m.dom()));
    vstd::set_lib::lemma_len_subset(held(m, first, count), m.dom());
}

/// A lost packet is recovered: when a run of packets has been sent, a request
/// that covers one of the last `cap` of them is answered with exactly the
/// bytes that were sent.
pub proof fn lemma_lost_packet_is_resent(
    m: Map<u16, Seq<u8>>,
    cap: nat,
    seq_start: u16,
    pkts: Seq<Seq<u8>>,
    i: int,
    first: u16,
    count: nat,
    j: int,
)
    requires
        is_pow2_exists(cap as int),
        0 <= i < pkts.len(),
        pkts.len() - i <= cap,
        pkts.len() - i <= 0x1_0000,
        0 <= j < count,
        seq_after(first, j) == seq_after(seq_start, i),
    ensures
        resends(stored_run(m, cap, seq_start, pkts), first, count).contains(
            resend_bytes(seq_after(seq_start, i), pkts[i]),
        ),
{
    lemma_recent_packets_stay(m, cap, seq_start, pkts, i);
    lemma_resends_exact(stored_run(m, cap, seq_start, pkts), first, count);
}

/// The history covers at least 16 seconds of audio.
pub proof fn lemma_history_span()
    ensures
        frames_ns(HISTORY_PACKETS * FRAMES_PER_PACKET) >= 16 * 1_000_000_000,
        HISTORY_PACKETS * 352 >= 16 * 44_100,
{
}

} // verus!
