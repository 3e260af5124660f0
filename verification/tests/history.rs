use raop_send::history::History;

#[test]
fn a_fresh_ring_is_empty() {
    let h = History::new(4);
    for seq in 0..10 {
        assert!(h.get(seq).is_none());
    }
}

#[test]
fn a_packet_comes_back() {
    let mut h = History::new(4);
    h.put(6, vec![1, 2, 3]);
    assert_eq!(h.get(6), Some(&[1u8, 2, 3][..]));
    // Same slot, other number.
    assert!(h.get(2).is_none());
    assert!(h.get(10).is_none());
}

#[test]
fn a_packet_takes_the_place_of_the_one_in_its_slot() {
    let mut h = History::new(4);
    h.put(1, vec![1]);
    h.put(2, vec![2]);
    h.put(5, vec![5]);
    assert!(h.get(1).is_none());
    assert_eq!(h.get(2), Some(&[2u8][..]));
    assert_eq!(h.get(5), Some(&[5u8][..]));
    h.put(5, vec![55]);
    assert_eq!(h.get(5), Some(&[55u8][..]));
}

#[test]
fn the_last_packets_stay_across_the_wrap() {
    let mut h = History::new(8);
    let start: u16 = 65_530;
    for i in 0..20u16 {
        h.put(start.wrapping_add(i), vec![i as u8]);
    }
    for i in 0..20u16 {
        let got = h.get(start.wrapping_add(i));
        if i >= 12 {
            assert_eq!(got, Some(&[i as u8][..]));
        } else {
            assert!(got.is_none());
        }
    }
}

#[test]
fn one_slot_holds_one_packet() {
    let mut h = History::new(1);
    h.put(1, vec![1]);
    h.put(2, vec![2]);
    assert!(h.get(1).is_none());
    assert_eq!(h.get(2), Some(&[2u8][..]));
}

#[test]
fn no_more_packets_than_slots() {
    let mut h = History::new(16);
    for seq in 0..=u16::MAX {
        h.put(seq, vec![0]);
    }
    let held = (0..=u16::MAX).filter(|s| h.get(*s).is_some()).count();
    assert_eq!(held, 16);
}
