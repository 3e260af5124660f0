use raop_send::audio::{make_packet, wait_ns, AudioPacket, AudioStream, StreamParams, BLOCK_BYTES, FRAMES_PER_PACKET, SAMPLE_RATE};
use raop_send::codec::{encode_alac, Codec};

fn params(codec: Codec) -> StreamParams {
    StreamParams { codec, seq_start: 65_535, rtp_start: 0xFFFF_FF00, ssrc: 0x0102_0304, latency: 88_200 }
}

fn run(params: StreamParams, input: &[u8], reads: &[usize]) -> Vec<AudioPacket> {
    let mut stream = AudioStream::new(params);
    let mut out = Vec::new();
    let mut at = 0;
    let mut turn = 0;
    while at < input.len() {
        let k = reads[turn % reads.len()].min(stream.wanted()).min(input.len() - at);
        out.extend(stream.feed(&input[at..at + k]));
        at += k;
        turn += 1;
    }
    out.extend(stream.finish());
    out
}

#[test]
fn constants_fit_together() {
    assert_eq!(SAMPLE_RATE, 44100);
    assert_eq!(BLOCK_BYTES, FRAMES_PER_PACKET as usize * 4);
}

#[test]
fn first_packet() {
    let p = make_packet(&params(Codec::Pcm), 0, &[1, 2, 3, 4]);
    assert_eq!(p.seq, 65_535);
    assert_eq!(p.timestamp, 0xFFFF_FF00);
    assert_eq!(p.send_offset_ns, 0);
    assert_eq!(
        p.bytes,
        vec![0x80, 0xE0, 0xFF, 0xFF, 0xFF, 0xFF, 0xFF, 0x00, 1, 2, 3, 4, 2, 1, 4, 3]
    );
}

#[test]
fn second_packet_wraps() {
    let p = make_packet(&params(Codec::Pcm), 1, &[]);
    assert_eq!(p.seq, 0);
    assert_eq!(p.timestamp, 0x60);
    assert_eq!(p.bytes, vec![0x80, 0x60, 0, 0, 0, 0, 0, 0x60, 1, 2, 3, 4]);
}

#[test]
fn alac_packet_carries_the_frame() {
    let pcm = vec![5u8; 1408];
    let mut frame = Vec::new();
    encode_alac(&mut frame, &pcm);
    let p = make_packet(&params(Codec::Alac), 7, &pcm);
    assert_eq!(&p.bytes[12..], &frame[..]);
    assert_eq!(p.bytes.len(), 1424);
}

#[test]
fn packets_are_paced() {
    let mut ps = params(Codec::Pcm);
    // 88200 frames are 2 s, or 250 packets and 200 frames.
    assert_eq!(make_packet(&ps, 250, &[]).send_offset_ns, 0);
    assert_eq!(make_packet(&ps, 251, &[]).send_offset_ns, 3_446_712);
    assert_eq!(make_packet(&ps, 252, &[]).send_offset_ns, 11_428_571);
    ps.latency = 0;
    assert_eq!(make_packet(&ps, 1, &[]).send_offset_ns, 7_981_859);
    assert_eq!(make_packet(&ps, 3, &[]).send_offset_ns, 23_945_578);
    assert_eq!(make_packet(&ps, 1000, &[]).send_offset_ns, 7_981_859_410);
    ps.latency = 1;
    assert_eq!(make_packet(&ps, 1, &[]).send_offset_ns, 7_959_183);
    ps.latency = 352;
    assert_eq!(make_packet(&ps, 1, &[]).send_offset_ns, 0);
}

#[test]
fn no_drift_accumulates() {
    let mut ps = params(Codec::Pcm);
    ps.latency = 0;
    assert_eq!(make_packet(&ps, 1_000_000_000, &[]).send_offset_ns, 7_981_859_410_430_839);
    // 44100 packets play exactly 352 s.
    for k in [1u64, 10, 1_000_000] {
        assert_eq!(make_packet(&ps, 44_100 * k, &[]).send_offset_ns, 352_000_000_000 * k as u128);
    }
    assert_eq!(make_packet(&ps, u64::MAX, &[]).send_offset_ns, 352 * u64::MAX as u128 * 1_000_000_000 / 44_100);
}

#[test]
fn the_pace_is_steady() {
    let ps = params(Codec::Pcm);
    for n in 251..5000 {
        let apart = make_packet(&ps, n + 1, &[]).send_offset_ns - make_packet(&ps, n, &[]).send_offset_ns;
        assert!(apart == 7_981_859 || apart == 7_981_860);
    }
}

#[test]
fn waiting_ends_when_a_packet_is_due() {
    assert_eq!(wait_ns(10, 3), 7);
    assert_eq!(wait_ns(10, 10), 0);
    assert_eq!(wait_ns(10, 30), 0);
}

#[test]
fn far_packet_numbers_wrap() {
    let p = make_packet(&params(Codec::Pcm), 0x1_0000_0001, &[]);
    assert_eq!(p.seq, 0);
    assert_eq!(p.timestamp, 0x60);
    assert_eq!(p.bytes[1], 0x60);
    assert_eq!(p.send_offset_ns, (352 * 0x1_0000_0001 - 88_200) * 1_000_000_000 / 44_100);
}

#[test]
fn no_input_no_packet() {
    assert!(run(params(Codec::Pcm), &[], &[1408]).is_empty());
}

#[test]
fn a_short_block_is_padded_with_silence() {
    let out = run(params(Codec::Pcm), &[1, 2, 3], &[1408]);
    assert_eq!(out.len(), 1);
    assert_eq!(out[0].bytes.len(), 12 + 1408);
    assert_eq!(&out[0].bytes[12..16], &[2, 1, 0, 3]);
    assert!(out[0].bytes[16..].iter().all(|b| *b == 0));
}

#[test]
fn whole_blocks_leave_no_rest() {
    let input = vec![3u8; 2 * 1408];
    let out = run(params(Codec::Pcm), &input, &[1408]);
    assert_eq!(out.len(), 2);
}

#[test]
fn reads_do_not_matter() {
    let input: Vec<u8> = (0..5000u32).map(|i| (i % 253) as u8).collect();
    let a = run(params(Codec::Alac), &input, &[1408]);
    let b = run(params(Codec::Alac), &input, &[1]);
    let c = run(params(Codec::Alac), &input, &[7, 500, 3, 2000]);
    assert_eq!(a.len(), 4);
    for other in [b, c] {
        assert_eq!(other.len(), 4);
        for k in 0..4 {
            assert_eq!(a[k].bytes, other[k].bytes);
            assert_eq!(a[k].seq, other[k].seq);
            assert_eq!(a[k].timestamp, other[k].timestamp);
            assert_eq!(a[k].send_offset_ns, other[k].send_offset_ns);
        }
    }
    for k in 1..4 {
        assert_eq!(a[k].seq, a[k - 1].seq.wrapping_add(1));
        assert_eq!(a[k].timestamp, a[k - 1].timestamp.wrapping_add(352));
    }
}

#[test]
fn a_stream_wants_the_rest_of_a_block() {
    let mut s = AudioStream::new(params(Codec::Pcm));
    assert_eq!(s.wanted(), 1408);
    assert!(s.feed(&[0; 8]).is_none());
    assert_eq!(s.wanted(), 1400);
    assert!(s.feed(&[0; 1400]).is_some());
    assert_eq!(s.wanted(), 1408);
    assert_eq!(s.packets(), 1);
    assert!(s.finish().is_none());
}

#[test]
fn random_streams_keep_what_was_asked_for() {
    let mut seen = Vec::new();
    for _ in 0..8 {
        let p = StreamParams::random(Codec::Pcm, 77);
        assert!(p.codec == Codec::Pcm);
        assert_eq!(p.latency, 77);
        seen.push((p.seq_start, p.rtp_start, p.ssrc));
    }
    seen.dedup();
    assert!(seen.len() > 1);
}
