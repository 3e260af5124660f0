use raop_send::audio::{make_packet, AudioPacket, StreamParams};
use raop_send::clock::Clock;
use raop_send::codec::Codec;
use raop_send::stream::{answer_timing, sync_packet, timing_reply, Shared, SyncSender, HISTORY_PACKETS};

fn shared() -> Shared {
    Shared::new(Clock::new().unwrap(), 1000, 88_200)
}

fn packet(seq: u16, timestamp: u32, byte: u8) -> AudioPacket {
    AudioPacket { seq, timestamp, bytes: vec![byte; 3], send_offset_ns: 0 }
}

#[test]
fn timing_reply_echoes_and_stamps() {
    let request: Vec<u8> = (0..32).collect();
    let r = timing_reply(&request, (0x0102_0304, 0x0506_0708), (0x1112_1314, 0x1516_1718)).unwrap();
    assert_eq!(
        r,
        vec![
            0x80, 0xD3, 0, 7, 0, 0, 0, 0, 24, 25, 26, 27, 28, 29, 30, 31, 1, 2, 3, 4, 5, 6, 7, 8, 0x11, 0x12, 0x13,
            0x14, 0x15, 0x16, 0x17, 0x18
        ]
    );
}

#[test]
fn short_timing_requests_get_no_reply() {
    assert!(timing_reply(&[0; 31], (1, 2), (3, 4)).is_none());
    assert!(answer_timing(&Clock::new().unwrap(), &[0; 31]).is_none());
    assert!(answer_timing(&Clock::new().unwrap(), &[]).is_none());
}

#[test]
fn timing_answers_carry_the_time() {
    let clock = Clock::new().unwrap();
    let (before, _) = clock.ntp();
    let r = answer_timing(&clock, &[9; 40]).unwrap();
    let (after, _) = clock.ntp();
    assert_eq!(r.len(), 32);
    assert_eq!(&r[..16], &[0x80, 0xD3, 0, 7, 0, 0, 0, 0, 9, 9, 9, 9, 9, 9, 9, 9]);
    let received = u64::from_be_bytes([r[16], r[17], r[18], r[19], r[20], r[21], r[22], r[23]]);
    let sent = u64::from_be_bytes([r[24], r[25], r[26], r[27], r[28], r[29], r[30], r[31]]);
    assert!(received <= sent);
    assert!(before as u64 <= received >> 32 && sent >> 32 <= after as u64);
}

#[test]
fn sync_packet_layout() {
    let p = sync_packet(true, 0x0000_0010, 0x0000_0020, (0xA1A2_A3A4, 0xB1B2_B3B4));
    assert_eq!(
        p,
        vec![
            0x90, 0xD4, 0, 7, 0xFF, 0xFF, 0xFF, 0xF0, 0xA1, 0xA2, 0xA3, 0xA4, 0xB1, 0xB2, 0xB3, 0xB4, 0, 0, 0, 0x10
        ]
    );
    assert_eq!(sync_packet(false, 5, 2, (0, 0))[..8], [0x80, 0xD4, 0, 7, 0, 0, 0, 3]);
}

#[test]
fn only_the_first_sync_is_marked() {
    let s = shared();
    let mut sender = SyncSender::new();
    assert_eq!(sender.next(&s)[0], 0x90);
    assert_eq!(sender.next(&s)[0], 0x80);
    let p = sender.next(&s);
    assert_eq!(p[0], 0x80);
    assert_eq!(p[4..8], 1000u32.wrapping_sub(88_200).to_be_bytes());
    assert_eq!(p[16..20], 1000u32.to_be_bytes());
}

#[test]
fn sending_moves_the_head() {
    let mut s = shared();
    s.sent(packet(5, 1000, 1));
    assert_eq!(s.head, 1352);
    s.sent(packet(6, u32::MAX, 1));
    assert_eq!(s.head, 351);
    assert_eq!(s.latency, 88_200);
}

#[test]
fn lost_packets_are_sent_again() {
    let mut s = shared();
    for i in 0..4u16 {
        s.sent(packet(65_534u16.wrapping_add(i), 352 * i as u32, i as u8));
    }
    // 65533 (never sent), 65534, 65535, 0
    let out = s.resend(&[0x80, 0xD5, 0, 1, 0xFF, 0xFD, 0, 4]);
    assert_eq!(
        out,
        vec![
            vec![0x80, 0xD6, 0xFF, 0xFE, 0, 0, 0],
            vec![0x80, 0xD6, 0xFF, 0xFF, 1, 1, 1],
            vec![0x80, 0xD6, 0x00, 0x00, 2, 2, 2],
        ]
    );
}

#[test]
fn the_marker_bit_of_a_request_does_not_matter() {
    let mut s = shared();
    s.sent(packet(1, 0, 9));
    assert_eq!(s.resend(&[0x80, 0x55, 0, 0, 0, 1, 0, 1]).len(), 1);
    assert_eq!(s.resend(&[0x80, 0xD5, 0, 0, 0, 1, 0, 1]).len(), 1);
}

#[test]
fn other_datagrams_are_not_answered() {
    let mut s = shared();
    s.sent(packet(1, 0, 9));
    assert!(s.resend(&[0x80, 0xD4, 0, 0, 0, 1, 0, 1]).is_empty());
    assert!(s.resend(&[0x80, 0xD5, 0, 0, 0, 1, 0]).is_empty());
    assert!(s.resend(&[]).is_empty());
    assert!(s.resend(&[0x80, 0xD5, 0, 0, 0, 1, 0, 0]).is_empty());
    assert!(s.resend(&[0x80, 0xD5, 0, 0, 0, 2, 0, 1]).is_empty());
}

#[test]
fn a_long_stream_keeps_its_recent_past() {
    let mut s = shared();
    let params = StreamParams { codec: Codec::Pcm, seq_start: 60_000, rtp_start: 0, ssrc: 1, latency: 0 };
    let total = 10_000u64;
    for n in 0..total {
        s.sent(make_packet(&params, n, &[n as u8, (n >> 8) as u8]));
    }
    let first = 60_000u16.wrapping_add((total - HISTORY_PACKETS as u64) as u16);
    let mut request = vec![0x80, 0xD5, 0, 0];
    request.extend_from_slice(&first.to_be_bytes());
    request.extend_from_slice(&(HISTORY_PACKETS as u16).to_be_bytes());
    let out = s.resend(&request);
    assert_eq!(out.len(), HISTORY_PACKETS);
    for (k, answer) in out.iter().enumerate() {
        let n = total - HISTORY_PACKETS as u64 + k as u64;
        assert_eq!(answer[4..], make_packet(&params, n, &[n as u8, (n >> 8) as u8]).bytes[..]);
    }
    // Everything is asked for: no more than the history holds goes out.
    assert_eq!(s.resend(&[0x80, 0xD5, 0, 0, 0, 0, 0xFF, 0xFF]).len(), HISTORY_PACKETS);
}
