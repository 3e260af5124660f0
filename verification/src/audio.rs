//! Audio out: PCM is cut into blocks, each block becomes one RTP packet, and
//! each packet has a time before which it is not sent.

use crate::bytes::{
    be16, be16_at, be32, be32_at, lemma_be16_bytes, lemma_be32_bytes, push_be16, push_be32, push_bytes,
};
use crate::codec::{encode, payload_of, Codec};
use crate::history::seq_after;
use crate::random::{drawn16, drawn32};
use vstd::arithmetic::div_mod::{
    lemma_add_mod_noop, lemma_add_mod_noop_right, lemma_mul_mod_noop_left, lemma_small_mod,
};
use vstd::prelude::*;

verus! {

pub const SAMPLE_RATE: u32 = 44100;

pub const FRAMES_PER_PACKET: u32 = 352;

/// One block of input: `FRAMES_PER_PACKET` frames of two 16-bit channels.
pub const BLOCK_BYTES: usize = 1408;

/// What stays the same for all packets of a stream.
#[derive(Clone, Copy)]
pub struct StreamParams {
    pub codec: Codec,
    /// Sequence number of the first packet.
    pub seq_start: u16,
    /// RTP timestamp of the first packet.
    pub rtp_start: u32,
    pub ssrc: u32,
    /// How far ahead of playout packets are sent, in frames.
    pub latency: u32,
}

impl StreamParams {
    /// A new stream, which starts at random numbers.
    pub fn random(codec: Codec, latency: u32) -> (p: Self)
        ensures
            p.codec == codec,
            p.latency == latency,
            drawn16(p.seq_start),
            drawn32(p.rtp_start),
            drawn32(p.ssrc),
    {
        let seq_start: u16 = rand::random();
        let rtp_start: u32 = rand::random();
        let ssrc: u32 = rand::random();
        StreamParams { codec, seq_start, rtp_start, ssrc, latency }
    }
}

/// One audio packet, and when it is due.
pub struct AudioPacket {
    pub seq: u16,
    pub timestamp: u32,
    pub bytes: Vec<u8>,
    /// Nanoseconds after the start of the stream before which it is not sent.
    pub send_offset_ns: u128,
}

/// An `AudioPacket` as a value.
pub struct PacketView {
    pub seq: u16,
    pub timestamp: u32,
    pub bytes: Seq<u8>,
    pub send_offset_ns: int,
}

impl View for AudioPacket {
    type V = PacketView;

    open spec fn view(&self) -> PacketView {
        PacketView {
            seq: self.seq,
            timestamp: self.timestamp,
            bytes: self.bytes@,
            send_offset_ns: self.send_offset_ns as int,
        }
    }
}

// ---------------------------------------------------------------------------
// One packet

/// The RTP timestamp of packet `n`: 352 frames each, wrapping around.
pub open spec fn rtp_time(rtp_start: u32, n: int) -> u32 {
    ((rtp_start + n * FRAMES_PER_PACKET) % 0x1_0000_0000) as u32
}

/// An RTP packet: payload type 96, with the marker bit on the first one.
pub open spec fn rtp_bytes(first: bool, seq: u16, timestamp: u32, ssrc: u32, payload: Seq<u8>) -> Seq<u8> {
    seq![0x80u8, if first { 0xE0u8 } else { 0x60u8 }] + be16(seq) + be32(timestamp) + be32(ssrc) + payload
}

/// How long `frames` frames play, in nanoseconds, rounded down.
pub open spec fn frames_ns(frames: int) -> int {
    frames * 1_000_000_000 / SAMPLE_RATE as int
}

/// When packet `n` is due: when the audio in front of it has played, but ahead
/// of that by the latency; at once where that lies before the start. The time
/// is counted from the start of the stream for every packet, so nothing adds
/// up from one to the next.
pub open spec fn due_ns(latency: u32, n: int) -> int {
    let frames = n * FRAMES_PER_PACKET - latency;
    if frames < 0 {
        0
    } else {
        frames_ns(frames)
    }
}

/// Packet `n` of a stream, which carries the block `pcm`.
pub open spec fn packet(params: StreamParams, n: int, pcm: Seq<u8>) -> PacketView {
    PacketView {
        seq: seq_after(params.seq_start, n),
        timestamp: rtp_time(params.rtp_start, n),
        bytes: rtp_bytes(
            n == 0,
            seq_after(params.seq_start, n),
            rtp_time(params.rtp_start, n),
            params.ssrc,
            payload_of(params.codec, pcm),
        ),
        send_offset_ns: due_ns(params.latency, n),
    }
}

/// The time before which packet `n` is not sent.
fn send_offset(latency: u32, n: u64) -> (ns: u128)
    ensures
        ns == due_ns(latency, n as int),
{
    let block: u128 = FRAMES_PER_PACKET as u128;
    assert(block == 352);
    let start: u128 = n as u128 * block;
    let ahead: u128 = latency as u128;
    let rate: u128 = SAMPLE_RATE as u128;
    assert(rate == 44100);
    if start <= ahead {
        0
    } else {
        (start - ahead) * 1_000_000_000 / rate
    }
}

fn rtp_packet(first: bool, seq: u16, timestamp: u32, ssrc: u32, payload: &[u8]) -> (bytes: Vec<u8>)
    ensures
        bytes@ == rtp_bytes(first, seq, timestamp, ssrc, payload@),
{
    let mut bytes: Vec<u8> = Vec::new();
    bytes.push(0x80);
    bytes.push(if first { 0xE0 } else { 0x60 });  // PT 96; marker on first
    assert(bytes@ =~= seq![0x80u8, if first { 0xE0u8 } else { 0x60u8 }]);
    push_be16(&mut bytes, seq);
    push_be32(&mut bytes, timestamp);
    push_be32(&mut bytes, ssrc);
    push_bytes(&mut bytes, payload);
    bytes
}

/// The sequence number of packet `n`.
fn seq_of(seq_start: u16, n: u64) -> (seq: u16)
    ensures
        seq == seq_after(seq_start, n as int),
{
    assert(n as u16 == n % 0x1_0000) by (bit_vector);
    seq_start.wrapping_add(n as u16)
}

/// The RTP timestamp of packet `n`.
fn timestamp_of(rtp_start: u32, n: u64) -> (t: u32)
    ensures
        t == rtp_time(rtp_start, n as int),
{
    assert(n as u32 == n % 0x1_0000_0000) by (bit_vector);
    let frames: u32 = (n as u32).wrapping_mul(FRAMES_PER_PACKET);
    proof {
        let whole = n as int * FRAMES_PER_PACKET;
        lemma_mul_mod_noop_left(n as int, FRAMES_PER_PACKET as int, 0x1_0000_0000);
        assert(frames == whole % 0x1_0000_0000);
        lemma_add_mod_noop_right(rtp_start as int, whole, 0x1_0000_0000);
    }
    rtp_start.wrapping_add(frames)
}

/// Build packet `n` of a stream.
pub fn make_packet(params: &StreamParams, n: u64, pcm: &[u8]) -> (p: AudioPacket)
    ensures
        p@ == packet(*params, n as int, pcm@),
{
    let mut payload: Vec<u8> = Vec::new();
    encode(params.codec, &mut payload, pcm);
    let seq: u16 = seq_of(params.seq_start, n);
    let timestamp: u32 = timestamp_of(params.rtp_start, n);
    let bytes: Vec<u8> = rtp_packet(n == 0, seq, timestamp, params.ssrc, payload.as_slice());
    let send_offset_ns: u128 = send_offset(params.latency, n);
    AudioPacket { seq, timestamp, bytes, send_offset_ns }
}

/// How long to wait for a packet that is due at `due`, where it is `now`.
pub open spec fn waits(due: int, now: int) -> int {
    if due > now {
        due - now
    } else {
        0
    }
}

/// How long to wait before sending a packet, so many nanoseconds after the
/// start of the stream.
pub fn wait_ns(send_offset_ns: u128, elapsed_ns: u128) -> (w: u128)
    ensures
        w == waits(send_offset_ns as int, elapsed_ns as int),
        w == if send_offset_ns > elapsed_ns {
            send_offset_ns - elapsed_ns
        } else {
            0
        },
{
    send_offset_ns.saturating_sub(elapsed_ns)
}

// ---------------------------------------------------------------------------
// The stream

/// How far a stream has come: the packets made, and the input that does not
/// fill a block yet.
pub struct StreamView {
    pub n: nat,
    pub block: Seq<u8>,
}

/// A short block, filled up with silence.
pub open spec fn padded(block: Seq<u8>) -> Seq<u8> {
    block + Seq::new((BLOCK_BYTES - block.len()) as nat, |i: int| 0u8)
}

/// What reading `data` does: a full block becomes the next packet.
pub open spec fn fed(params: StreamParams, st: StreamView, data: Seq<u8>) -> (StreamView, Option<PacketView>) {
    let block = st.block + data;
    if block.len() == BLOCK_BYTES {
        (
            StreamView { n: st.n + 1, block: Seq::<u8>::empty() },
            Some(packet(params, st.n as int, block)),
        )
    } else {
        (StreamView { n: st.n, block }, None)
    }
}

/// What the end of the input does: a block that was begun is padded and sent.
pub open spec fn ended(params: StreamParams, st: StreamView) -> (StreamView, Option<PacketView>) {
    if st.block.len() == 0 {
        (st, None)
    } else {
        (
            StreamView { n: st.n + 1, block: Seq::<u8>::empty() },
            Some(packet(params, st.n as int, padded(st.block))),
        )
    }
}

/// Cuts the input into packets, however the reads happen to fall.
pub struct AudioStream {
    params: StreamParams,
    n: u64,
    block: Vec<u8>,
}

impl View for AudioStream {
    type V = StreamView;

    closed spec fn view(&self) -> StreamView {
        StreamView { n: self.n as nat, block: self.block@ }
    }
}

impl AudioStream {
    pub closed spec fn params(&self) -> StreamParams {
        self.params
    }

    /// A full block never waits: memory does not grow with the input.
    pub open spec fn wf(&self) -> bool {
        self@.block.len() < BLOCK_BYTES
    }

    /// A stream of which nothing has been read.
    pub fn new(params: StreamParams) -> (s: Self)
        ensures
            s.wf(),
            s.params() == params,
            s@ == (StreamView { n: 0, block: Seq::<u8>::empty() }),
    {
        AudioStream { params, n: 0, block: Vec::new() }
    }

    /// How many bytes are missing from the current block: the most that the
    /// next read may return.
    pub fn wanted(&self) -> (k: usize)
        requires
            self.wf(),
        ensures
            k == BLOCK_BYTES - self@.block.len(),
            k > 0,
    {
        BLOCK_BYTES - self.block.len()
    }

    /// How many packets have been made.
    pub fn packets(&self) -> (n: u64)
        ensures
            n == self@.n,
    {
        self.n
    }

    /// Take what a read returned. The packet, if this completes a block.
    pub fn feed(&mut self, data: &[u8]) -> (p: Option<AudioPacket>)
        requires
            old(self).wf(),
            old(self)@.n < u64::MAX,
            data@.len() <= BLOCK_BYTES - old(self)@.block.len(),
        ensures
            final(self).wf(),
            final(self).params() == old(self).params(),
            final(self)@ == fed(old(self).params(), old(self)@, data@).0,
            p is Some <==> fed(old(self).params(), old(self)@, data@).1 is Some,
            p matches Some(a) ==> fed(old(self).params(), old(self)@, data@).1 == Some(a@),
    {
        push_bytes(&mut self.block, data);
        if self.block.len() == BLOCK_BYTES {
            let p = make_packet(&self.params, self.n, self.block.as_slice());
            self.n = self.n + 1;
            self.block.clear();
            Some(p)
        } else {
            None
        }
    }

    /// The input has ended. The last packet, if a block was begun.
    pub fn finish(&mut self) -> (p: Option<AudioPacket>)
        requires
            old(self).wf(),
            old(self)@.n < u64::MAX,
        ensures
            final(self).wf(),
            final(self).params() == old(self).params(),
            final(self)@ == ended(old(self).params(), old(self)@).0,
            p is Some <==> ended(old(self).params(), old(self)@).1 is Some,
            p matches Some(a) ==> ended(old(self).params(), old(self)@).1 == Some(a@),
    {
        if self.block.len() == 0 {
            return None;
        }
        let ghost begun = self.block@;
        while self.block.len() < BLOCK_BYTES
            invariant
                self.n == old(self).n,
                self.params == old(self).params,
                begun.len() <= self.block@.len() <= BLOCK_BYTES,
                self.block@ == padded(begun).take(self.block@.len() as int),
            decreases BLOCK_BYTES - self.block@.len(),
        {
            let ghost len = self.block@.len() as int;
            self.block.push(0);
            assert(self.block@ =~= padded(begun).take(len + 1));
        }
        assert(self.block@ =~= padded(begun));
        let p = make_packet(&self.params, self.n, self.block.as_slice());
        self.n = self.n + 1;
        self.block.clear();
        Some(p)
    }
}

// ---------------------------------------------------------------------------
// What a stream promises

/// All reads of an input, one after the other.
pub open spec fn concat(chunks: Seq<Seq<u8>>) -> Seq<u8>
    decreases chunks.len(),
{
    if chunks.len() == 0 {
        Seq::<u8>::empty()
    } else {
        concat(chunks.drop_last()) + chunks.last()
    }
}

/// Where a fresh stream stands, and what it has sent, after some reads.
pub open spec fn fed_all(params: StreamParams, chunks: Seq<Seq<u8>>) -> (StreamView, Seq<PacketView>)
    decreases chunks.len(),
{
    if chunks.len() == 0 {
        (StreamView { n: 0, block: Seq::<u8>::empty() }, Seq::<PacketView>::empty())
    } else {
        let (st, sent) = fed_all(params, chunks.drop_last());
        let (after, p) = fed(params, st, chunks.last());
        (
            after,
            match p {
                Some(p) => sent.push(p),
                None => sent,
            },
        )
    }
}

/// No read returned more than was asked for.
pub open spec fn reads_fit(params: StreamParams, chunks: Seq<Seq<u8>>) -> bool
    decreases chunks.len(),
{
    chunks.len() == 0 || {
        &&& reads_fit(params, chunks.drop_last())
        &&& chunks.last().len() <= BLOCK_BYTES - fed_all(params, chunks.drop_last()).0.block.len()
    }
}

/// Everything that is sent for an input that arrived in some reads and ended.
pub open spec fn sent_for(params: StreamParams, chunks: Seq<Seq<u8>>) -> Seq<PacketView> {
    let (st, sent) = fed_all(params, chunks);
    match ended(params, st).1 {
        Some(p) => sent.push(p),
        None => sent,
    }
}

/// Block `k` of an input; the last one is padded.
pub open spec fn block_of(input: Seq<u8>, k: int) -> Seq<u8> {
    if BLOCK_BYTES * (k + 1) <= input.len() {
        input.subrange(BLOCK_BYTES * k, BLOCK_BYTES * (k + 1))
    } else {
        padded(input.skip(BLOCK_BYTES * k))
    }
}

/// While input arrives, every block that is complete has been sent, in order,
/// and the rest of it waits.
#[verifier::rlimit(40)]
pub proof fn lemma_whole_blocks_sent(params: StreamParams, chunks: Seq<Seq<u8>>)
    requires
        reads_fit(params, chunks),
    ensures
        ({
            let input = concat(chunks);
            let blocks = input.len() / BLOCK_BYTES as nat;
            fed_all(params, chunks) == (
                StreamView { n: blocks, block: input.skip(BLOCK_BYTES * blocks) },
                Seq::new(blocks, |k: int| packet(params, k, block_of(input, k))),
            )
        }),
    decreases chunks.len(),
{
    let input = concat(chunks);
    let blocks = input.len() / BLOCK_BYTES as nat;
    if chunks.len() == 0 {
        assert(fed_all(params, chunks).0.block =~= input.skip(0));
        assert(fed_all(params, chunks).1 =~= Seq::new(0, |k: int| packet(params, k, block_of(input, k))));
    } else {
        let before = concat(chunks.drop_last());
        let m = before.len() / BLOCK_BYTES as nat;
        lemma_whole_blocks_sent(params, chunks.drop_last());
        let (st, sent) = fed_all(params, chunks.drop_last());
        let block = st.block + chunks.last();
        assert(block =~= input.skip(BLOCK_BYTES * m));
        assert forall|k: int| 0 <= k < m implies block_of(before, k) == block_of(input, k) by {
            assert(block_of(before, k) =~= block_of(input, k));
        }
        if block.len() == BLOCK_BYTES {
            assert(blocks == m + 1);
            assert(block =~= block_of(input, m as int));
            assert(Seq::<u8>::empty() =~= input.skip(BLOCK_BYTES * blocks));
        } else {
            assert(blocks == m);
        }
        assert(fed_all(params, chunks).1 =~= Seq::new(blocks, |k: int| packet(params, k, block_of(input, k))));
    }
}

/// What is sent depends on the input alone, not on how the reads fell: block
/// `k` goes out as packet `k`, nothing is lost, repeated or reordered, and
/// only the last block is padded.
#[verifier::rlimit(40)]
pub proof fn lemma_input_is_sent(params: StreamParams, chunks: Seq<Seq<u8>>)
    requires
        reads_fit(params, chunks),
    ensures
        sent_for(params, chunks) == Seq::new(
            (concat(chunks).len() + BLOCK_BYTES - 1) as nat / BLOCK_BYTES as nat,
            |k: int| packet(params, k, block_of(concat(chunks), k)),
        ),
{
    lemma_whole_blocks_sent(params, chunks);
    let input = concat(chunks);
    let all = Seq::new(
        (input.len() + BLOCK_BYTES - 1) as nat / BLOCK_BYTES as nat,
        |k: int| packet(params, k, block_of(input, k)),
    );
    assert(sent_for(params, chunks) =~= all);
}

/// Numbering goes on without a gap: the next packet has the next sequence
/// number, and its timestamp is where this packet's audio ends.
pub proof fn lemma_packets_are_consecutive(params: StreamParams, n: int, pcm: Seq<u8>, next: Seq<u8>)
    requires
        0 <= n,
    ensures
        packet(params, n + 1, next).seq == (packet(params, n, pcm).seq + 1) % 0x1_0000,
        packet(params, n + 1, next).timestamp == (packet(params, n, pcm).timestamp + FRAMES_PER_PACKET)
            % 0x1_0000_0000,
{
    assert(seq_after(params.seq_start, n + 1) == (seq_after(params.seq_start, n) + 1) % 0x1_0000);
    lemma_rtp_time_step(params.rtp_start, n);
}

proof fn lemma_rtp_time_step(rtp_start: u32, n: int)
    requires
        0 <= n,
    ensures
        rtp_time(rtp_start, n + 1) == (rtp_time(rtp_start, n) + FRAMES_PER_PACKET) % 0x1_0000_0000,
{
    let block: int = FRAMES_PER_PACKET as int;
    assert(block == 352);
    let t = rtp_start + n * block;
    assert((n + 1) * block == n * block + block) by (nonlinear_arith);
    lemma_add_mod_noop(t, block, 0x1_0000_0000);
    lemma_small_mod(352, 0x1_0000_0000);
    assert((t + block) % 0x1_0000_0000 == (t % 0x1_0000_0000 + block) % 0x1_0000_0000);
}

/// The first packets go out as a burst: all that start within the latency are
/// due at once.
pub proof fn lemma_burst(latency: u32, n: int)
    requires
        0 <= n,
        n * FRAMES_PER_PACKET <= latency,
    ensures
        due_ns(latency, n) == 0,
{
}

/// After the burst, packets are due 352/44100 s apart, in whole nanoseconds:
/// any `k` packets take what their frames play, to less than one nanosecond,
/// however many they are and wherever they start.
pub proof fn lemma_steady_pace(latency: u32, n: int, k: int)
    requires
        0 <= n,
        0 <= k,
        n * FRAMES_PER_PACKET >= latency,
    ensures
        ({
            let apart = due_ns(latency, n + k) - due_ns(latency, n);
            &&& (apart - 1) * SAMPLE_RATE < k * FRAMES_PER_PACKET * 1_000_000_000
            &&& k * FRAMES_PER_PACKET * 1_000_000_000 < (apart + 1) * SAMPLE_RATE
        }),
        due_ns(latency, n + 1) - due_ns(latency, n) == 7_981_859 || due_ns(latency, n + 1) - due_ns(latency, n)
            == 7_981_860,
{
}

/// A packet is never due before an earlier one.
pub proof fn lemma_due_in_order(latency: u32, n: int, m: int)
    requires
        0 <= n <= m,
    ensures
        due_ns(latency, n) <= due_ns(latency, m),
{
}

/// The schedule keeps to the clock: after the burst, each packet is due when
/// the audio in front of it, less the latency, has played, rounded down to
/// whole nanoseconds. The error is below one nanosecond for every packet: no
/// drift accumulates.
pub proof fn lemma_schedule_keeps_time(latency: u32, n: int)
    requires
        0 <= n,
        n * FRAMES_PER_PACKET >= latency,
    ensures
        due_ns(latency, n) * SAMPLE_RATE <= (n * FRAMES_PER_PACKET - latency) * 1_000_000_000,
        (n * FRAMES_PER_PACKET - latency) * 1_000_000_000 < (due_ns(latency, n) + 1) * SAMPLE_RATE,
{
}

/// Every block fits one packet: 12 bytes of header and the payload of 352
/// frames.
pub proof fn lemma_packet_len(params: StreamParams, n: int, pcm: Seq<u8>)
    requires
        pcm.len() == BLOCK_BYTES,
    ensures
        packet(params, n, pcm).bytes.len() == match params.codec {
            Codec::Alac => 1424int,
            Codec::Pcm => 1420int,
        },
{
    crate::codec::lemma_payload_len(params.codec, pcm);
}

/// The sizes that a receiver relies on: 44100 frames a second, 352 frames a
/// packet, four bytes a frame.
pub proof fn lemma_sizes()
    ensures
        SAMPLE_RATE == 44_100,
        FRAMES_PER_PACKET == 352,
        BLOCK_BYTES == 352 * 4,
{
}

/// A packet on the wire, read as RTP, carries its own numbers, whichever
/// packet it is: version 2, payload type 96 with the marker on the first one
/// only, its sequence number, its timestamp, the source, and behind these 12
/// bytes the payload. The sequence number is `n` past the first one, the
/// timestamp `n` times 352 past it.
#[verifier::spinoff_prover]
#[verifier::rlimit(40)]
pub proof fn lemma_packet_on_wire(params: StreamParams, n: int, pcm: Seq<u8>)
    requires
        0 <= n,
    ensures
        ({
            let p = packet(params, n, pcm);
            &&& p.bytes.len() == 12 + payload_of(params.codec, pcm).len()
            &&& p.bytes[0] == 0x80
            &&& p.bytes[1] == if n == 0 { 0xE0int } else { 0x60int }
            &&& p.bytes[2] * 256 + p.bytes[3] == p.seq
            &&& p.bytes[4] * 16_777_216 + p.bytes[5] * 65_536 + p.bytes[6] * 256 + p.bytes[7] == p.timestamp
            &&& p.bytes[8] * 16_777_216 + p.bytes[9] * 65_536 + p.bytes[10] * 256 + p.bytes[11] == params.ssrc
            &&& p.bytes.skip(12) == payload_of(params.codec, pcm)
            &&& p.seq == (params.seq_start + n) % 65_536
            &&& p.timestamp == (params.rtp_start + 352 * n) % 4_294_967_296
        }),
{
    let p = packet(params, n, pcm);
    lemma_be16_bytes(p.seq, p.bytes, 2);
    lemma_be32_bytes(p.timestamp);
    lemma_be32_bytes(params.ssrc);
    assert(p.bytes.subrange(2, 4) =~= be16(p.seq));
    assert(p.bytes.subrange(4, 8) =~= be32(p.timestamp));
    assert(p.bytes.subrange(8, 12) =~= be32(params.ssrc));
    assert(p.bytes.skip(12) =~= payload_of(params.codec, pcm));
}

/// A step of a wrapping counter.
proof fn lemma_steps(x: int, y: int)
    ensures
        ((x + 352) % 4_294_967_296 - x % 4_294_967_296) % 4_294_967_296 == 352,
        ((y + 1) % 65_536 - y % 65_536) % 65_536 == 1,
{
}

/// On the wire, every packet is numbered one past the one before and stamped
/// 352 frames later; both wrap around.
#[verifier::rlimit(40)]
pub proof fn lemma_wire_numbers_advance(params: StreamParams, n: int, pcm: Seq<u8>, next: Seq<u8>)
    requires
        0 <= n,
    ensures
        ({
            let a = packet(params, n, pcm).bytes;
            let b = packet(params, n + 1, next).bytes;
            &&& (be32_at(b, 4) - be32_at(a, 4)) % 4_294_967_296 == 352
            &&& (be16_at(b, 2) - be16_at(a, 2)) % 65_536 == 1
            &&& be32_at(b, 8) == be32_at(a, 8)
        }),
{
    lemma_packet_on_wire(params, n, pcm);
    lemma_packet_on_wire(params, n + 1, next);
    let (p, q) = (packet(params, n, pcm), packet(params, n + 1, next));
    lemma_be16_bytes(p.seq, p.bytes, 2);
    lemma_be16_bytes(q.seq, q.bytes, 2);
    lemma_steps(params.rtp_start + 352 * n, params.seq_start + n);
    assert(be32_at(p.bytes, 4) == p.timestamp && be32_at(q.bytes, 4) == q.timestamp);
    assert(be16_at(p.bytes, 2) == p.seq && be16_at(q.bytes, 2) == q.seq);
}

/// When a packet may go out: at once, where it starts within the latency, and
/// otherwise (352 n - latency) / 44100 s after the start, in whole nanoseconds
/// rounded down, whatever `n` is.
pub proof fn lemma_send_time(params: StreamParams, n: int, pcm: Seq<u8>)
    requires
        0 <= n,
    ensures
        ({
            let at = packet(params, n, pcm).send_offset_ns;
            let frames = 352 * n - params.latency;
            &&& frames <= 0 ==> at == 0
            &&& frames > 0 ==> at * 44_100 <= frames * 1_000_000_000 < (at + 1) * 44_100
        }),
{
}

/// Waiting ends when the packet is due and not before, and there is none for
/// a packet that is due already.
pub proof fn lemma_wait_ends_when_due(due: int, now: int)
    requires
        0 <= due,
        0 <= now,
    ensures
        waits(due, now) >= 0,
        now + waits(due, now) >= due,
        waits(due, now) > 0 ==> now + waits(due, now) == due,
{
}

/// The reads of an input are one after the other what was read.
pub proof fn lemma_reads_in_order(chunks: Seq<Seq<u8>>, more: Seq<u8>)
    ensures
        concat(Seq::<Seq<u8>>::empty()) == Seq::<u8>::empty(),
        concat(chunks.push(more)) == concat(chunks) + more,
{
    assert(chunks.push(more).drop_last() =~= chunks);
}

/// A block is 1408 bytes: the input from where the block starts, and silence
/// (zeros) behind its end.
pub proof fn lemma_block_bytes(input: Seq<u8>, k: int, i: int)
    requires
        0 <= k,
        1408 * k < input.len(),
        0 <= i < 1408,
    ensures
        block_of(input, k).len() == 1408,
        block_of(input, k)[i] == (if 1408 * k + i < input.len() {
            input[1408 * k + i]
        } else {
            0u8
        }),
{
}

/// Everything that is read is on the wire, in order: as raw PCM, bytes `i` and
/// `i + 1` of block `k` stand exchanged behind the header of packet `k`, and
/// there are just as many packets as blocks were begun.
#[verifier::rlimit(40)]
pub proof fn lemma_pcm_on_wire(params: StreamParams, chunks: Seq<Seq<u8>>, k: int, i: int)
    requires
        reads_fit(params, chunks),
        params.codec == Codec::Pcm,
        0 <= k,
        1408 * k < concat(chunks).len(),
        0 <= i < 1408,
        i % 2 == 0,
    ensures
        ({
            let input = concat(chunks);
            let sent = sent_for(params, chunks);
            let first = if 1408 * k + i < input.len() { input[1408 * k + i] } else { 0u8 };
            let second = if 1408 * k + i + 1 < input.len() { input[1408 * k + i + 1] } else { 0u8 };
            &&& k < sent.len()
            &&& 1408 * (sent.len() - 1) < input.len() <= 1408 * sent.len()
            &&& sent[k].bytes.len() == 1420
            &&& sent[k].bytes[12 + i] == second
            &&& sent[k].bytes[13 + i] == first
            &&& sent[k].bytes[2] * 256 + sent[k].bytes[3] == (params.seq_start + k) % 65_536
        }),
{
    let input = concat(chunks);
    let block = block_of(input, k);
    lemma_input_is_sent(params, chunks);
    lemma_block_bytes(input, k, i);
    lemma_block_bytes(input, k, i + 1);
    lemma_packet_on_wire(params, k, block);
    let p = packet(params, k, block);
    let payload = payload_of(params.codec, block);
    assert(payload.len() == 1408);
    assert(p.bytes[12 + i] == p.bytes.skip(12)[i]);
    assert(p.bytes[13 + i] == p.bytes.skip(12)[i + 1]);
}

/// A packet with an ALAC payload, read from the wire.
#[verifier::rlimit(40)]
proof fn lemma_alac_packet(params: StreamParams, n: int, block: Seq<u8>, at: int)
    requires
        params.codec == Codec::Alac,
        0 <= n,
        block.len() == 1408,
        0 <= at < 1408,
    ensures
        ({
            let p = packet(params, n, block).bytes;
            &&& p.len() == 1424
            &&& p[12] == 0x20 && p[13] == 0 && p[14] / 2 == 1
            &&& p[14 + at] % 2 * 128 + p[15 + at] / 2 == (if at % 2 == 0 {
                block[at + 1]
            } else {
                block[at - 1]
            })
        }),
{
    let p = packet(params, n, block).bytes;
    let frame = payload_of(params.codec, block);
    lemma_packet_on_wire(params, n, block);
    crate::codec::lemma_frame_ends(block);
    crate::codec::lemma_frame_samples(block, at);
    assert(p[12] == frame[0] && p[13] == frame[1] && p[14] == frame[2]) by {
        assert(p.skip(12)[0] == p[12] && p.skip(12)[1] == p[13] && p.skip(12)[2] == p[14]);
    }
    assert(p[14 + at] == frame[at + 2] && p[15 + at] == frame[at + 3]) by {
        assert(p.skip(12)[at + 2] == p[14 + at] && p.skip(12)[at + 3] == p[15 + at]);
    }
}

/// As ALAC, what a receiver reads from packet `k` is block `k` of the input:
/// sample byte `at` of the frame, which is uncompressed, is the byte of the
/// input with which it was exchanged.
#[verifier::rlimit(40)]
pub proof fn lemma_alac_on_wire(params: StreamParams, chunks: Seq<Seq<u8>>, k: int, at: int)
    requires
        reads_fit(params, chunks),
        params.codec == Codec::Alac,
        0 <= k,
        1408 * k < concat(chunks).len(),
        0 <= at < 1408,
    ensures
        ({
            let input = concat(chunks);
            let p = sent_for(params, chunks)[k].bytes;
            let i = 1408 * k + (if at % 2 == 0 { at + 1 } else { at - 1 });
            &&& k < sent_for(params, chunks).len()
            &&& p.len() == 1424
            &&& p[12] == 0x20 && p[13] == 0 && p[14] / 2 == 1
            &&& p[14 + at] % 2 * 128 + p[15 + at] / 2 == (if i < input.len() {
                input[i]
            } else {
                0u8
            })
        }),
{
    let input = concat(chunks);
    let block = block_of(input, k);
    lemma_input_is_sent(params, chunks);
    assert(sent_for(params, chunks)[k] == packet(params, k, block));
    lemma_block_bytes(input, k, if at % 2 == 0 { at + 1 } else { at - 1 });
    lemma_alac_packet(params, k, block, at);
}

/// What a read does: as long as the block is not full, it waits; when 1408
/// bytes are there, they are the next packet, and a new block begins.
pub proof fn lemma_read_fills_block(params: StreamParams, st: StreamView, data: Seq<u8>)
    ensures
        st.block.len() + data.len() < 1408 ==> fed(params, st, data) == (
            StreamView { n: st.n, block: st.block + data },
            None::<PacketView>,
        ),
        st.block.len() + data.len() == 1408 ==> fed(params, st, data) == (
            StreamView { n: st.n + 1, block: Seq::<u8>::empty() },
            Some(packet(params, st.n as int, st.block + data)),
        ),
{
}

/// What the end of the input does: nothing where no block was begun, and
/// otherwise one more packet, of 1408 bytes, with silence behind the input.
pub proof fn lemma_end_pads_block(params: StreamParams, st: StreamView, block: Seq<u8>)
    requires
        st.block.len() < 1408,
        block.len() == 1408,
        forall|i: int| 0 <= i < 1408 ==> #[trigger] block[i] == (if i < st.block.len() { st.block[i] } else { 0u8 }),
    ensures
        st.block.len() == 0 ==> ended(params, st) == (st, None::<PacketView>),
        st.block.len() > 0 ==> ended(params, st) == (
            StreamView { n: st.n + 1, block: Seq::<u8>::empty() },
            Some(packet(params, st.n as int, block)),
        ),
{
    assert(padded(st.block) =~= block);
}

/// Reads fit as long as none returns more than is missing from the block that
/// was begun.
pub proof fn lemma_reads_that_fit(params: StreamParams, chunks: Seq<Seq<u8>>, more: Seq<u8>)
    ensures
        reads_fit(params, Seq::<Seq<u8>>::empty()),
        reads_fit(params, chunks) ==> (reads_fit(params, chunks.push(more)) <==> more.len() <= 1408 - concat(
            chunks,
        ).len() as int % 1408),
{
    assert(chunks.push(more).drop_last() =~= chunks);
    if reads_fit(params, chunks) {
        lemma_whole_blocks_sent(params, chunks);
    }
}

/// A packet stands for its fields.
pub proof fn lemma_packet_fields(p: AudioPacket)
    ensures
        p@.seq == p.seq,
        p@.timestamp == p.timestamp,
        p@.bytes == p.bytes@,
        p@.send_offset_ns == p.send_offset_ns,
{
}

} // verus!
