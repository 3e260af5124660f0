use raop_send::bytes::{push_be16, push_be32, push_bytes, read_be16};
use raop_send::text::{
    chars_of, index_of, join_strings, lowered, parse_unsigned, push_chars, push_decimal, push_hex, rest_after, same, same_chars,
    split_at_char, split_word, string_of, strip_prefix, suffix_after, trimmed, trimmed_end, trimmed_start, white,
};

fn text(s: &[char]) -> String {
    s.iter().collect()
}

fn parse(s: &str, max: u64) -> Option<u64> {
    parse_unsigned(&chars_of(s), max)
}

fn parts(s: &str, c: char) -> Vec<String> {
    split_at_char(&chars_of(s), c).iter().map(|p| text(p)).collect()
}

#[test]
fn characters_make_the_string() {
    let s = "Köket \u{1F50A}";
    assert_eq!(chars_of(s).len(), 7);
    assert_eq!(string_of(&chars_of(s)), s);
    let mut out = "a".to_string();
    push_chars(&mut out, &['b', 'ö']);
    assert_eq!(out, "abö");
    assert_eq!(string_of(&[]), "");
}

#[test]
fn same_means_equal() {
    assert!(same("abc", "abc"));
    assert!(!same("abc", "abd"));
    assert!(!same("abc", "ab"));
    assert!(same("", ""));
    assert!(same_chars(&['a'], &['a']));
    assert!(!same_chars(&['a'], &['A']));
}

#[test]
fn decimal_numbers() {
    for x in [0u64, 7, 10, 99, 100, 65_535, 4_294_967_295, u64::MAX] {
        let mut s = "x=".to_string();
        push_decimal(&mut s, x);
        assert_eq!(s, format!("x={}", x));
        assert_eq!(parse(&s[2..], u64::MAX), Some(x));
    }
}

#[test]
fn hexadecimal_numbers() {
    for x in [0u64, 0xABCDEF, 0x0123_4567_89AB_CDEF, u64::MAX] {
        let mut s = String::new();
        push_hex(&mut s, x, 16);
        assert_eq!(s, format!("{:016X}", x));
    }
    let mut s = String::new();
    push_hex(&mut s, 0x1234, 2);
    assert_eq!(s, "34");
}

#[test]
fn numbers_are_read_like_std_does() {
    let cases = [
        "", "+", "-", "0", "-0", "-1", "+1", "++1", "007", "255", "256", "65535", "65536", "4294967295", "4294967296",
        " 1", "1 ", "1.0", "0x10", "1e3", "٣", "18446744073709551615", "18446744073709551616", "99999999999999999999",
        "1_000", "000000000000000000000000000001",
    ];
    for c in cases {
        assert_eq!(parse(c, 0xFF), c.parse::<u8>().ok().map(u64::from));
        assert_eq!(parse(c, 0xFFFF), c.parse::<u16>().ok().map(u64::from));
        assert_eq!(parse(c, 0xFFFF_FFFF), c.parse::<u32>().ok().map(u64::from));
        assert_eq!(parse(c, u64::MAX), c.parse::<u64>().ok());
    }
}

#[test]
fn white_space_is_what_unicode_says() {
    for c in '\0'..=char::MAX {
        assert_eq!(white(c), c.is_whitespace());
    }
}

#[test]
fn white_space_is_trimmed() {
    for s in ["", " ", "a", " a", "a ", " a b\t", "\r\n x \u{3000}", "\u{a0}y\u{85}"] {
        let chars = chars_of(s);
        assert_eq!(text(trimmed(&chars)), s.trim());
        assert_eq!(text(trimmed_start(&chars)), s.trim_start());
        assert_eq!(text(trimmed_end(&chars)), s.trim_end());
    }
}

#[test]
fn words_are_split_off() {
    let chars = chars_of("  RTSP/1.0\t200 OK\r\n");
    let (first, rest) = split_word(&chars);
    let (second, rest) = split_word(rest);
    let (third, rest) = split_word(rest);
    let (none, _) = split_word(rest);
    assert_eq!(text(first), "RTSP/1.0");
    assert_eq!(text(second), "200");
    assert_eq!(text(third), "OK");
    assert_eq!(text(none), "");
}

#[test]
fn separators_are_found() {
    assert_eq!(index_of(&chars_of("a:b:c"), ':'), 1);
    assert_eq!(index_of(&chars_of(":"), ':'), 0);
    assert_eq!(index_of(&chars_of("abc"), ':'), 3);
}

#[test]
fn texts_are_split_and_joined() {
    for s in ["", ".", "a", "a.b", "a..b", ".a.", "_raop._tcp.local"] {
        let split: Vec<String> = s.split('.').map(|p| p.to_string()).collect();
        assert_eq!(parts(s, '.'), split);
        assert_eq!(join_strings(&split, '.'), s);
    }
    assert_eq!(join_strings(&[], '.'), "");
}

#[test]
fn prefixes_are_stripped() {
    let chars = chars_of("server_port=6000");
    assert_eq!(strip_prefix(&chars, &chars_of("server_port=")).map(text), Some("6000".to_string()));
    assert_eq!(strip_prefix(&chars, &chars_of("server_port=6000")).map(text), Some("".to_string()));
    assert!(strip_prefix(&chars, &chars_of("control_port=")).is_none());
    assert!(strip_prefix(&chars, &chars_of("server_port=60001")).is_none());
}

#[test]
fn the_last_separator_counts() {
    assert_eq!(text(suffix_after(&chars_of("a@b@c"), '@')), "c");
    assert_eq!(text(suffix_after(&chars_of("abc"), '@')), "abc");
    assert_eq!(text(suffix_after(&chars_of("abc@"), '@')), "");
    assert_eq!(text(suffix_after(&chars_of("rtsp://10.0.0.1/77"), '/')), "77");
}

#[test]
fn the_first_separator_counts() {
    assert_eq!(text(rest_after(&chars_of("a@b@c"), '@')), "b@c");
    assert_eq!(text(rest_after(&chars_of("abc"), '@')), "abc");
    assert_eq!(text(rest_after(&chars_of("@abc"), '@')), "abc");
    assert_eq!(text(rest_after(&chars_of("abc@"), '@')), "");
}

#[test]
fn ascii_letters_are_lowered() {
    let s = "AZaz09[]@`{ÄÖ\u{212A}";
    assert_eq!(text(&lowered(&chars_of(s))), s.to_ascii_lowercase());
}

#[test]
fn numbers_in_network_order() {
    let mut out = vec![1];
    push_be16(&mut out, 0x0203);
    push_be32(&mut out, 0x0405_0607);
    push_bytes(&mut out, &[8, 9]);
    assert_eq!(out, vec![1, 2, 3, 4, 5, 6, 7, 8, 9]);
    assert_eq!(read_be16(&out, 1), 0x0203);
    assert_eq!(read_be16(&out, 7), 0x0809);
    for x in 0..=u16::MAX {
        let mut b = Vec::new();
        push_be16(&mut b, x);
        assert_eq!(read_be16(&b, 0), x);
    }
}
