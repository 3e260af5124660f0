use raop_send::dns::{name_query_with_id, query_with_id, read_name, TYPE_A, TYPE_PTR, TYPE_SRV};
use raop_send::mdns::{friendly_matches, Action, Event, RecordDb, Resolver, BROWSE_MS, FOLLOW_UP_MS, SERVICE};

fn wire(name: &[&str]) -> Vec<u8> {
    let mut out = Vec::new();
    for label in name {
        out.push(label.len() as u8);
        out.extend_from_slice(label.as_bytes());
    }
    out.push(0);
    out
}

fn record(name: &[&str], rtype: u16, data: &[u8]) -> Vec<u8> {
    let mut out = wire(name);
    out.extend_from_slice(&rtype.to_be_bytes());
    out.extend_from_slice(&[0x80, 1, 0, 0, 0, 120]);
    out.extend_from_slice(&(data.len() as u16).to_be_bytes());
    out.extend_from_slice(data);
    out
}

/// A reply: the questions, then records in the three sections.
fn message(questions: &[Vec<u8>], sections: [&[Vec<u8>]; 3]) -> Vec<u8> {
    let mut out = vec![0, 0, 0x84, 0];
    out.extend_from_slice(&(questions.len() as u16).to_be_bytes());
    for s in sections {
        out.extend_from_slice(&(s.len() as u16).to_be_bytes());
    }
    for q in questions {
        out.extend_from_slice(q);
    }
    for s in sections {
        for r in s {
            out.extend_from_slice(r);
        }
    }
    out
}

const SERVICE_NAME: [&str; 3] = ["_raop", "_tcp", "local"];
const INSTANCE: [&str; 4] = ["AABBCCDDEEFF@Kontoret", "_raop", "_tcp", "local"];
const HOST: [&str; 2] = ["speaker", "local"];

fn ptr(instance: &[&str]) -> Vec<u8> {
    record(&SERVICE_NAME, TYPE_PTR, &wire(instance))
}

fn srv(instance: &[&str], port: u16, host: &[&str]) -> Vec<u8> {
    let mut data = vec![0, 0, 0, 0];
    data.extend_from_slice(&port.to_be_bytes());
    data.extend_from_slice(&wire(host));
    record(instance, TYPE_SRV, &data)
}

fn addr(host: &[&str], a: [u8; 4]) -> Vec<u8> {
    record(host, TYPE_A, &a)
}

fn bundled() -> Vec<u8> {
    message(&[], [&[ptr(&INSTANCE)], &[], &[srv(&INSTANCE, 7000, &HOST), addr(&HOST, [10, 0, 0, 7])]])
}

fn found(db: &RecordDb, name: &str) -> Option<([u8; 4], u16, String)> {
    db.find(name).map(|d| (d.addr, d.port, d.instance))
}

fn kontoret(port: u16, a: [u8; 4]) -> Option<([u8; 4], u16, String)> {
    Some((a, port, "AABBCCDDEEFF@Kontoret._raop._tcp.local".to_string()))
}

fn strings(labels: &[&str]) -> Vec<String> {
    labels.iter().map(|l| l.to_string()).collect()
}

#[test]
fn friendly_names() {
    let instance = strings(&INSTANCE);
    assert!(friendly_matches(&instance, "Kontoret"));
    assert!(friendly_matches(&instance, "kONTORET"));
    assert!(!friendly_matches(&instance, "Kontor"));
    assert!(!friendly_matches(&instance, "AABBCCDDEEFF@Kontoret"));
    assert!(friendly_matches(&strings(&["Office"]), "office"));
    // Only the device id is taken off.
    assert!(friendly_matches(&strings(&["AABBCCDDEEFF@Me@Home", "_raop", "_tcp", "local"]), "Me@Home"));
    assert!(!friendly_matches(&strings(&["AABBCCDDEEFF@Me@Home", "_raop", "_tcp", "local"]), "Home"));
    assert!(friendly_matches(&strings(&["a@"]), ""));
    assert!(!friendly_matches(&[], ""));
    // Only ASCII letters come in two cases.
    assert!(friendly_matches(&strings(&["Köket"]), "KöKET"));
    assert!(!friendly_matches(&strings(&["Köket"]), "KÖKET"));
}

#[test]
fn bundled_reply() {
    let mut db = RecordDb::new();
    assert!(db.find("kontoret").is_none());
    db.ingest(&bundled());
    assert_eq!(found(&db, "kontoret"), kontoret(7000, [10, 0, 0, 7]));
    assert_eq!(db.matching_instance("KONTORET"), Some("AABBCCDDEEFF@Kontoret._raop._tcp.local".to_string()));
    assert!(db.find("Office").is_none());
    assert!(db.matching_instance("Office").is_none());
}

#[test]
fn questions_are_skipped() {
    let q = query_with_id(0, &[("_raop._tcp.local", TYPE_PTR)])[12..].to_vec();
    let mut db = RecordDb::new();
    db.ingest(&message(
        &[q.clone(), q],
        [&[ptr(&INSTANCE), srv(&INSTANCE, 5, &HOST)], &[addr(&HOST, [1, 2, 3, 4])], &[]],
    ));
    assert_eq!(found(&db, "Kontoret"), kontoret(5, [1, 2, 3, 4]));
}

#[test]
fn records_may_come_apart() {
    let mut db = RecordDb::new();
    db.ingest(&message(&[], [&[addr(&HOST, [1, 2, 3, 4])], &[], &[]]));
    db.ingest(&message(&[], [&[srv(&INSTANCE, 5, &HOST)], &[], &[]]));
    assert!(db.find("Kontoret").is_none());
    db.ingest(&message(&[], [&[ptr(&INSTANCE)], &[], &[]]));
    assert_eq!(found(&db, "Kontoret"), kontoret(5, [1, 2, 3, 4]));
}

#[test]
fn later_records_replace_earlier_ones() {
    let mut db = RecordDb::new();
    db.ingest(&bundled());
    db.ingest(&message(&[], [&[srv(&INSTANCE, 6, &HOST), addr(&HOST, [9, 9, 9, 9])], &[], &[]]));
    assert_eq!(found(&db, "Kontoret"), kontoret(6, [9, 9, 9, 9]));
    // A move to a host without a known address.
    db.ingest(&message(&[], [&[srv(&INSTANCE, 6, &["other", "local"])], &[], &[]]));
    assert!(db.find("Kontoret").is_none());
}

#[test]
fn the_first_instance_decides() {
    let other = ["B@Kontoret", "_raop", "_tcp", "local"];
    let mut db = RecordDb::new();
    db.ingest(&message(&[], [&[ptr(&other)], &[], &[]]));
    db.ingest(&bundled());
    // The details of the second one do not help the first one.
    assert!(db.find("Kontoret").is_none());
    assert_eq!(db.matching_instance("Kontoret"), Some("B@Kontoret._raop._tcp.local".to_string()));
    db.ingest(&message(&[], [&[srv(&other, 1, &HOST)], &[], &[]]));
    assert_eq!(db.find("Kontoret").unwrap().port, 1);
}

#[test]
fn unfit_records_add_nothing() {
    let mut db = RecordDb::new();
    db.ingest(&message(
        &[],
        [
            &[
                ptr(&INSTANCE),
                record(&INSTANCE, TYPE_SRV, &[0, 0, 0, 0, 1]),
                record(&HOST, TYPE_A, &[1, 2, 3]),
                record(&HOST, TYPE_A, &[1, 2, 3, 4, 5]),
                record(&HOST, 28, &[0; 16]),
            ],
            &[],
            &[],
        ],
    ));
    assert!(db.find("Kontoret").is_none());
    assert!(db.matching_instance("Kontoret").is_some());
    db.ingest(&message(&[], [&[srv(&INSTANCE, 5, &HOST), addr(&HOST, [1, 2, 3, 4])], &[], &[]]));
    assert_eq!(found(&db, "Kontoret"), kontoret(5, [1, 2, 3, 4]));
}

#[test]
fn cut_off_messages_count_as_far_as_they_go() {
    let whole = bundled();
    for n in 0..whole.len() {
        let mut db = RecordDb::new();
        db.ingest(&whole[..n]);
        assert!(db.find("Kontoret").is_none());
        // The PTR record is complete before the SRV record starts.
        let ptr_end = 12 + ptr(&INSTANCE).len();
        assert_eq!(db.matching_instance("Kontoret").is_some(), n >= ptr_end);
    }
    let mut db = RecordDb::new();
    db.ingest(&whole);
    for n in 0..whole.len() {
        db.ingest(&whole[..n]);
    }
    assert_eq!(found(&db, "Kontoret"), kontoret(7000, [10, 0, 0, 7]));
}

#[test]
fn compressed_reply() {
    let mut buf = vec![0, 0, 0x84, 0, 0, 0, 0, 1, 0, 0, 0, 2];
    buf.extend_from_slice(&wire(&SERVICE_NAME)); // at 12
    buf.extend_from_slice(&[0, 12, 0, 1, 0, 0, 0, 0, 0, 9]);
    let instance_at = buf.len();
    buf.extend_from_slice(b"\x06Office\xC0\x0C");
    buf.extend_from_slice(&[0xC0, instance_at as u8, 0, 33, 0, 1, 0, 0, 0, 0, 0, 10, 0, 0, 0, 0, 0x13, 0x88]);
    let host_at = buf.len();
    buf.extend_from_slice(&[1, b'h', 0xC0, 23]); // "h" + "local"
    buf.extend_from_slice(&[0xC0, host_at as u8, 0, 1, 0, 1, 0, 0, 0, 0, 0, 4, 192, 168, 1, 50]);
    let mut db = RecordDb::new();
    db.ingest(&buf);
    assert_eq!(
        found(&db, "office"),
        Some(([192, 168, 1, 50], 5000, "Office._raop._tcp.local".to_string()))
    );
}

#[test]
fn short_messages_are_ignored() {
    let mut db = RecordDb::new();
    db.ingest(&[]);
    db.ingest(&[0xFF; 11]);
    db.ingest(&[0xFF; 12]);
    assert!(db.matching_instance("").is_none());
}

#[test]
fn search_in_one_round_trip() {
    assert_eq!((BROWSE_MS, FOLLOW_UP_MS), (3000, 500));
    let (mut r, q) = Resolver::start("kontoret");
    assert_eq!(q[2..], query_with_id(0, &[(SERVICE, TYPE_PTR)])[2..]);
    assert!(matches!(r.step(Event::Datagram(vec![1, 2, 3])), Action::Listen));
    match r.step(Event::Datagram(bundled())) {
        Action::Found(d) => {
            assert_eq!(d.addr, [10, 0, 0, 7]);
            assert_eq!(d.port, 7000);
            assert_eq!(d.instance, "AABBCCDDEEFF@Kontoret._raop._tcp.local");
        }
        _ => panic!("not found"),
    }
}

#[test]
fn search_with_a_follow_up() {
    let (mut r, _) = Resolver::start("Kontoret");
    assert!(matches!(r.step(Event::Datagram(message(&[], [&[ptr(&INSTANCE)], &[], &[]]))), Action::Listen));
    let name = "AABBCCDDEEFF@Kontoret._raop._tcp.local";
    match r.step(Event::Expired) {
        Action::Ask(q) => assert_eq!(q[2..], query_with_id(0, &[(name, TYPE_SRV), (name, TYPE_A)])[2..]),
        _ => panic!("no follow-up"),
    }
    let rest = message(&[], [&[srv(&INSTANCE, 7000, &HOST)], &[], &[addr(&HOST, [1, 1, 1, 1])]]);
    assert!(matches!(r.step(Event::Datagram(rest)), Action::Found(_)));
}

#[test]
fn search_gives_up() {
    let (mut r, _) = Resolver::start("Office");
    assert!(matches!(r.step(Event::Datagram(bundled())), Action::Listen));
    assert!(matches!(r.step(Event::Expired), Action::GiveUp));

    let (mut r, _) = Resolver::start("Kontoret");
    assert!(matches!(r.step(Event::Datagram(message(&[], [&[ptr(&INSTANCE)], &[], &[]]))), Action::Listen));
    assert!(matches!(r.step(Event::Expired), Action::Ask(_)));
    assert!(matches!(r.step(Event::Expired), Action::GiveUp));
}

#[test]
fn the_follow_up_keeps_dots_inside_labels() {
    let dotted = ["AA@Living.Room", "_raop", "_tcp", "local"];
    let (mut r, _) = Resolver::start("living.room");
    assert!(matches!(r.step(Event::Datagram(message(&[], [&[ptr(&dotted)], &[], &[]]))), Action::Listen));
    let q = match r.step(Event::Expired) {
        Action::Ask(q) => q,
        _ => panic!("no follow-up"),
    };
    let name = strings(&dotted);
    assert_eq!(q[2..], name_query_with_id(0, &[(&name, TYPE_SRV), (&name, TYPE_A)])[2..]);
    let mut pos = 12;
    assert_eq!(read_name(&q, &mut pos), Some(name.clone()));
    pos += 4;
    assert_eq!(read_name(&q, &mut pos), Some(name));
    assert_eq!(pos + 4, q.len());
}
