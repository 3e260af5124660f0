use raop_send::codec::{encode, encode_alac, encode_pcm_be, BitWriter, Codec};

/// Bit `i` of a frame, most significant bit of the first byte first.
fn bit(frame: &[u8], i: usize) -> u8 {
    (frame[i / 8] >> (7 - i % 8)) & 1
}

/// The byte that starts at bit `at`.
fn byte_at(frame: &[u8], at: usize) -> u8 {
    (0..8).fold(0, |acc, j| (acc << 1) | bit(frame, at + j))
}

#[test]
fn pcm_bytes_are_swapped() {
    let mut out = vec![9, 9];
    encode_pcm_be(&mut out, &[1, 2, 3, 4]);
    assert_eq!(out, vec![2, 1, 4, 3]);
}

#[test]
fn pcm_drops_a_trailing_byte() {
    let mut out = Vec::new();
    encode_pcm_be(&mut out, &[1, 2, 3, 4, 5]);
    assert_eq!(out, vec![2, 1, 4, 3]);
    encode_pcm_be(&mut out, &[]);
    assert_eq!(out, Vec::<u8>::new());
}

#[test]
fn alac_of_nothing_is_header_and_end() {
    let mut out = vec![7; 100];
    encode_alac(&mut out, &[]);
    // 001 0000 00000000 0000 0 00 1, then 111, then six bits of padding.
    assert_eq!(out, vec![0x20, 0x00, 0x03, 0xC0]);
}

#[test]
fn alac_of_one_frame() {
    let mut out = Vec::new();
    encode_alac(&mut out, &[0x34, 0x12, 0x78, 0x56]);
    // 22 bits 0010..0, the flag, 0x12345678, 111, padding.
    assert_eq!(out, vec![0x20, 0x00, 0x02, 0x24, 0x68, 0xAC, 0xF1, 0xC0]);
}

#[test]
fn alac_drops_part_of_a_frame() {
    let mut whole = Vec::new();
    let mut more = Vec::new();
    encode_alac(&mut whole, &[1, 2, 3, 4]);
    encode_alac(&mut more, &[1, 2, 3, 4, 5, 6, 7]);
    assert_eq!(whole, more);
}

#[test]
fn alac_samples_read_back() {
    let pcm: Vec<u8> = (0..1408u32).map(|i| (i * 37 % 251) as u8).collect();
    let mut frame = Vec::new();
    encode_alac(&mut frame, &pcm);
    assert_eq!(frame.len(), 1412);
    for k in 0..704 {
        let hi = byte_at(&frame, 23 + 16 * k);
        let lo = byte_at(&frame, 23 + 16 * k + 8);
        assert_eq!([lo, hi], [pcm[2 * k], pcm[2 * k + 1]]);
    }
    let end = 23 + 8 * 1408;
    assert_eq!((bit(&frame, end), bit(&frame, end + 1), bit(&frame, end + 2)), (1, 1, 1));
    for i in end + 3..8 * frame.len() {
        assert_eq!(bit(&frame, i), 0);
    }
}

#[test]
fn encode_follows_the_codec() {
    let mut a = Vec::new();
    let mut b = Vec::new();
    encode(Codec::Pcm, &mut a, &[1, 2, 3, 4]);
    encode(Codec::Alac, &mut b, &[1, 2, 3, 4]);
    assert_eq!(a, vec![2, 1, 4, 3]);
    assert_eq!(b.len(), 8);
}

#[test]
fn bits_are_written_in_order() {
    let mut w = BitWriter::new(vec![9, 9, 9]);
    w.write(0b101, 3);
    w.write(0xFF00, 8);
    w.write(7, 0);
    w.write(1, 1);
    assert_eq!(w.finish(), vec![0b1010_0000, 0b0001_0000]);
    assert_eq!(BitWriter::new(vec![1]).finish(), Vec::<u8>::new());
    let mut w = BitWriter::new(Vec::new());
    w.write(0x1234_5678, 32);
    assert_eq!(w.finish(), vec![0x12, 0x34, 0x56, 0x78]);
}

#[test]
fn a_field_can_be_written_in_parts() {
    let v = 0xDEAD_BEEFu32;
    for lead in 0..8 {
        for a in 0..=32u32 {
            for b in 0..32u32.min(33 - a) {
                let mut once = BitWriter::new(Vec::new());
                let mut twice = BitWriter::new(Vec::new());
                once.write(0x55, lead);
                twice.write(0x55, lead);
                once.write(v, a + b);
                twice.write(v >> b, a);
                twice.write(v, b);
                assert_eq!(once.finish(), twice.finish());
            }
        }
    }
}
