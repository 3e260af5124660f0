use raop_send::clock::{split, Clock};
use std::time::{Duration, Instant};

#[test]
fn anchor_counts_from_1900() {
    let clock = Clock::anchored(Instant::now(), Some((0, 0))).unwrap();
    assert_eq!(clock.ntp64_after(0, 0), 2_208_988_800u64 << 32);
}

#[test]
fn half_a_second_is_half_the_fraction() {
    let clock = Clock::anchored(Instant::now(), Some((1, 500_000_000))).unwrap();
    assert_eq!(clock.ntp64_after(0, 0), (2_208_988_801u64 << 32) | 0x8000_0000);
    assert_eq!(clock.ntp64_after(0, 500_000_000), 2_208_988_802u64 << 32);
    assert_eq!(clock.ntp64_after(2, 1), ((2_208_988_803u64 << 32) | 0x8000_0000) + 4);
}

#[test]
fn seconds_wrap_at_32_bits() {
    let clock = Clock::anchored(Instant::now(), Some((0x1_0000_0000 - 2_208_988_800, 0))).unwrap();
    assert_eq!(clock.ntp64_after(0, 0), 0);
    assert_eq!(clock.ntp64_after(0x1_0000_0003, 0), 3 << 32);
}

#[test]
fn timestamps_wrap_around() {
    let clock = Clock::anchored(Instant::now(), Some((0xFFFF_FFFF - 2_208_988_800, 0))).unwrap();
    assert_eq!(clock.ntp64_after(2, 0), 1 << 32);
}

#[test]
fn no_anchor_before_1970_or_beyond_ntp() {
    assert!(Clock::anchored(Instant::now(), None).is_none());
    assert!(Clock::anchored(Instant::now(), Some((u64::MAX, 0))).is_none());
    assert!(Clock::anchored(Instant::now(), Some((u64::MAX - 2_208_988_800, 0))).is_some());
}

#[test]
fn split_is_high_and_low_half() {
    assert_eq!(split(0x1234_5678_9ABC_DEF0), (0x1234_5678, 0x9ABC_DEF0));
}

#[test]
fn clock_follows_the_wall_clock() {
    let before = std::time::UNIX_EPOCH.elapsed().unwrap().as_secs();
    let clock = Clock::new().unwrap();
    let now = clock.ntp64() >> 32;
    let after = std::time::UNIX_EPOCH.elapsed().unwrap().as_secs();
    let low = (before + 2_208_988_800) & 0xFFFF_FFFF;
    let high = (after + 2_208_988_800) & 0xFFFF_FFFF;
    assert!(low <= now && now <= high + 1);
}

#[test]
fn clock_never_goes_back() {
    let clock = Clock::new().unwrap();
    let mut last = clock.ntp64();
    let end = Instant::now() + Duration::from_millis(20);
    while Instant::now() < end {
        let now = clock.ntp64();
        assert!(now >= last);
        last = now;
    }
    let (secs, _) = clock.ntp();
    assert!((last >> 32) as u32 <= secs);
}

#[test]
fn clock_counts_elapsed_time() {
    let then = Instant::now() - Duration::from_millis(2500);
    let clock = Clock::anchored(then, Some((10, 0))).unwrap();
    let v = clock.ntp64() - (2_208_988_810u64 << 32);
    assert!(v >= (2 << 32) + 0x8000_0000);
    assert!(v < 60 << 32);
}
