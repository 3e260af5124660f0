use raop_send::dns::{build_name_query, build_query, name_query_with_id, query_with_id, read_name, TYPE_A, TYPE_PTR, TYPE_SRV};

fn read(buf: &[u8], at: usize) -> (Option<Vec<String>>, usize) {
    let mut pos = at;
    let r = read_name(buf, &mut pos);
    (r, pos)
}

fn owned(labels: &[&str]) -> Option<Vec<String>> {
    Some(labels.iter().map(|l| l.to_string()).collect())
}

#[test]
fn query_for_the_service() {
    let q = query_with_id(0x1234, &[("_raop._tcp.local", TYPE_PTR)]);
    let mut expected = vec![0x12, 0x34, 0, 0, 0, 1, 0, 0, 0, 0, 0, 0];
    expected.extend_from_slice(b"\x05_raop\x04_tcp\x05local\x00");
    expected.extend_from_slice(&[0, 12, 0x80, 0x01]);
    assert_eq!(q, expected);
}

#[test]
fn query_with_two_questions() {
    let q = query_with_id(0, &[("ö.x", TYPE_SRV), ("ö.x", TYPE_A)]);
    let mut expected = vec![0, 0, 0, 0, 0, 2, 0, 0, 0, 0, 0, 0];
    expected.extend_from_slice(b"\x02\xC3\xB6\x01x\x00\x00\x21\x80\x01");
    expected.extend_from_slice(b"\x02\xC3\xB6\x01x\x00\x00\x01\x80\x01");
    assert_eq!(q, expected);
}

#[test]
fn query_without_questions() {
    assert_eq!(query_with_id(0xFFFF, &[]), vec![0xFF, 0xFF, 0, 0, 0, 0, 0, 0, 0, 0, 0, 0]);
}

#[test]
fn random_ids_differ() {
    let questions = [("_raop._tcp.local", TYPE_PTR)];
    let first = build_query(&questions);
    let mut differs = false;
    for _ in 0..16 {
        let other = build_query(&questions);
        assert_eq!(other[2..], first[2..]);
        differs = differs || other[..2] != first[..2];
    }
    assert!(differs);
    assert_eq!(first[2..], query_with_id(0, &questions)[2..]);
}

#[test]
fn plain_name() {
    let buf = b"\x05_raop\x04_tcp\x05local\x00rest";
    assert_eq!(read(buf, 0), (owned(&["_raop", "_tcp", "local"]), 18));
    assert_eq!(read(buf, 6), (owned(&["_tcp", "local"]), 18));
    assert_eq!(read(buf, 17), (owned(&[]), 18));
}

#[test]
fn written_names_read_back() {
    let q = query_with_id(9, &[("Köket._raop._tcp.local", TYPE_SRV)]);
    assert_eq!(read(&q, 12), (owned(&["Köket", "_raop", "_tcp", "local"]), q.len() - 4));
}

#[test]
fn compressed_name() {
    let mut buf = b"\x05local\x00\x04_tcp\xC0\x00\x03abc\xC0\x07!".to_vec();
    assert_eq!(read(&buf, 7), (owned(&["_tcp", "local"]), 14));
    assert_eq!(read(&buf, 14), (owned(&["abc", "_tcp", "local"]), 20));
    buf.truncate(19);
    assert_eq!(read(&buf, 14), (None, 14));
}

#[test]
fn long_pointers() {
    let mut buf = vec![0u8; 0x0305];
    buf.extend_from_slice(b"\x01x\x00\xC3\x05");
    assert_eq!(read(&buf, 0x0308), (owned(&["x"]), 0x030A));
    // All bits above the two marks belong to the offset.
    let far = [0xFFu8, 0xFF];
    assert_eq!(read(&far, 0), (None, 0));
}

#[test]
fn pointer_loops_end() {
    assert_eq!(read(b"\xC0\x00", 0), (None, 0));
    assert_eq!(read(b"\xC0\x02\xC0\x00", 2), (None, 2));
}

#[test]
fn at_most_64_pointers() {
    // A chain of pointers, each to the one before, from a name at 0.
    let chain = |n: usize| {
        let mut buf = b"\x01a\x00".to_vec();
        let mut to = 0usize;
        for _ in 0..n {
            let at = buf.len();
            buf.extend_from_slice(&[0xC0 | (to >> 8) as u8, to as u8]);
            to = at;
        }
        (buf, to)
    };
    let (buf, at) = chain(64);
    assert_eq!(read(&buf, at), (owned(&["a"]), at + 2));
    let (buf, at) = chain(65);
    assert_eq!(read(&buf, at), (None, at));
}

#[test]
fn cut_off_names() {
    assert_eq!(read(b"", 0), (None, 0));
    assert_eq!(read(b"\x00", 1), (None, 1));
    assert_eq!(read(b"\x03ab", 0), (None, 0));
    assert_eq!(read(b"\x02ab", 0), (None, 0));
    assert_eq!(read(b"\xC0", 0), (None, 0));
    assert_eq!(read(b"\x00", usize::MAX), (None, usize::MAX));
}

#[test]
fn long_labels() {
    // Lengths between the pointers' marks and the usual limit are lengths.
    let mut buf = vec![0xBF];
    buf.extend_from_slice(&[b'x'; 0xBF]);
    buf.push(0);
    let (labels, end) = read(&buf, 0);
    assert_eq!(labels.unwrap()[0].len(), 0xBF);
    assert_eq!(end, 0xC1);
}

#[test]
fn bytes_that_are_no_utf8_are_replaced() {
    assert_eq!(read(b"\x04a\xFFb\xC3\x00", 0), (owned(&["a\u{FFFD}b\u{FFFD}"]), 6));
    assert_eq!(read(b"\x02\xC3\xB6\x00", 0), (owned(&["ö"]), 4));
}

#[test]
fn dots_inside_labels_stay() {
    assert_eq!(read(b"\x03a.b\x01c\x00", 0), (owned(&["a.b", "c"]), 7));
}

#[test]
fn names_are_asked_for_label_by_label() {
    let name = vec!["a.b".to_string(), "ö".to_string()];
    let q = name_query_with_id(0x0102, &[(&name, TYPE_SRV)]);
    let mut expected = vec![1, 2, 0, 0, 0, 1, 0, 0, 0, 0, 0, 0];
    expected.extend_from_slice(b"\x03a.b\x02\xC3\xB6\x00\x00\x21\x80\x01");
    assert_eq!(q, expected);
    assert_eq!(build_name_query(&[(&name, TYPE_SRV)])[2..], q[2..]);
}
