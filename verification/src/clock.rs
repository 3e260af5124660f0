//! A monotonic clock that produces 64-bit NTP-format timestamps.
//!
//! RAOP's timing and sync packets carry NTP timestamps. An NTP value (read
//! from the system clock once at startup) is anchored to a monotonic
//! `Instant`, and every later timestamp is derived from the monotonic clock.
//! This gives the receiver a smooth, never-jumping timeline even if the wall
//! clock is stepped mid-stream, which keeps a strict receiver locked.

use std::time::Instant;
use vstd::prelude::*;

verus! {

/// Seconds between the NTP epoch (1900-01-01) and the Unix epoch (1970-01-01).
pub const NTP_UNIX_OFFSET: u64 = 2_208_988_800;

/// `std::time::Instant`, a point on the monotonic clock. Opaque.
#[verifier::external_type_specification]
#[verifier::external_body]
pub struct ExInstant(std::time::Instant);

/// `Instant::now`. The result depends on the time; nothing is claimed of it.
pub assume_specification[ std::time::Instant::now ]() -> std::time::Instant
;

/// `Instant::elapsed`, as whole seconds and the nanoseconds of the last,
/// unfinished one, of which there are less than a billion. How much time has
/// passed is up to the clock.
#[verifier::external_body]
fn elapsed(since: &Instant) -> (e: (u64, u32))
    ensures
        e.1 < 1_000_000_000,
{
    let e = since.elapsed();
    (e.as_secs(), e.subsec_nanos())
}

/// `SystemTime::elapsed` of the Unix epoch: the wall clock in whole seconds
/// and nanoseconds since 1970, of which there are less than a billion, or
/// `None` where the clock is set to an earlier time.
#[verifier::external_body]
fn unix_time() -> (t: Option<(u64, u32)>)
    ensures
        t matches Some(st) ==> st.1 < 1_000_000_000,
{
    match std::time::UNIX_EPOCH.elapsed() {
        Ok(d) => Some((d.as_secs(), d.subsec_nanos())),
        Err(_) => None,
    }
}

/// Whether the wall clock can be read as `t`.
pub closed spec fn wall_clock_reads(t: Option<(u64, u32)>) -> bool {
    call_ensures(unix_time, (), t)
}

/// A time as 64-bit fixed point: the low 32 bits of the seconds above the
/// 32-bit binary fraction that the nanoseconds round down to.
pub open spec fn ntp_fixed(secs: int, nanos: int) -> int {
    secs % 0x1_0000_0000 * 0x1_0000_0000 + nanos * 0x1_0000_0000 / 1_000_000_000
}

/// The timestamp that lies `elapsed` behind `base`; timestamps wrap around.
pub open spec fn ntp_later(base: u64, secs: int, nanos: int) -> u64 {
    ((base + ntp_fixed(secs, nanos)) % 0x1_0000_0000_0000_0000) as u64
}

/// A timestamp as (seconds, fraction).
pub open spec fn ntp_split(v: u64) -> (u32, u32) {
    ((v / 0x1_0000_0000) as u32, (v % 0x1_0000_0000) as u32)
}

fn fixed_point(secs: u64, nanos: u32) -> (v: u64)
    requires
        nanos < 1_000_000_000,
    ensures
        v == ntp_fixed(secs as int, nanos as int),
{
    let n: u64 = nanos as u64;
    assert(n < 1_000_000_000 ==> n << 32 == n * 0x1_0000_0000) by (bit_vector);
    let frac: u64 = (n << 32) / 1_000_000_000;
    assert(frac < 0x1_0000_0000 ==> (secs << 32) | frac == secs % 0x1_0000_0000 * 0x1_0000_0000 + frac)
        by (bit_vector);
    (secs << 32) | frac
}

/// Split a timestamp into (seconds, fraction).
pub fn split(v: u64) -> (p: (u32, u32))
    ensures
        p == ntp_split(v),
{
    assert((v >> 32) as u32 == v / 0x1_0000_0000 && v as u32 == v % 0x1_0000_0000) by (bit_vector);
    ((v >> 32) as u32, v as u32)
}

/// A point on the monotonic clock together with its NTP timestamp.
#[derive(Clone, Copy)]
pub struct Clock {
    base_instant: Instant,
    /// NTP timestamp at `base_instant`, as 64-bit fixed point (secs << 32 | frac).
    base_ntp: u64,
}

impl Clock {
    /// The timestamp at the anchor.
    pub closed spec fn base(self) -> u64 {
        self.base_ntp
    }

    /// The moment of the anchor.
    pub closed spec fn anchor(self) -> Instant {
        self.base_instant
    }

    /// The clock that shows at `at` what the wall clock read then, in seconds
    /// and nanoseconds since 1970. There is none for a reading before 1970
    /// (`None`) or beyond what NTP can count.
    pub fn anchored(at: Instant, reading: Option<(u64, u32)>) -> (c: Option<Self>)
        requires
            reading matches Some(t) ==> t.1 < 1_000_000_000,
        ensures
            Clock::set_by(c, reading),
            c matches Some(clock) ==> clock.anchor() == at,
    {
        match reading {
            Some((secs, nanos)) => if secs <= u64::MAX - NTP_UNIX_OFFSET {
                Some(Clock { base_instant: at, base_ntp: fixed_point(secs + NTP_UNIX_OFFSET, nanos) })
            } else {
                None
            },
            None => None,
        }
    }

    /// Whether the monotonic clock can be read as so many seconds and
    /// nanoseconds after the anchor.
    pub closed spec fn reads(self, e: (u64, u32)) -> bool {
        call_ensures(elapsed, (&self.base_instant,), e)
    }

    /// Whether `c` is what a reading of the wall clock gives: a clock that
    /// shows it, exactly where it is after 1970 and NTP can count it.
    pub open spec fn set_by(c: Option<Self>, reading: Option<(u64, u32)>) -> bool {
        &&& c is Some <==> reading is Some && (reading->0).0 + NTP_UNIX_OFFSET <= u64::MAX
        &&& c matches Some(clock) ==> clock.base() == ntp_fixed(
            (reading->0).0 + NTP_UNIX_OFFSET,
            (reading->0).1 as int,
        )
    }

    /// Anchor a clock at the current time. `None` where the system clock does
    /// not show a time after 1970 that NTP can count.
    pub fn new() -> (c: Option<Self>)
        ensures
            exists|reading: Option<(u64, u32)>| #[trigger]
                wall_clock_reads(reading) && (reading matches Some(t) ==> t.1 < 1_000_000_000) && Clock::set_by(
                    c,
                    reading,
                ),
            c matches Some(clock) ==> call_ensures(std::time::Instant::now, (), clock.anchor()),
    {
        let reading = unix_time();
        let at = Instant::now();
        let c = Clock::anchored(at, reading);
        assert(wall_clock_reads(reading));
        c
    }

    /// The timestamp after the given time on the monotonic clock.
    pub fn ntp64_after(&self, secs: u64, nanos: u32) -> (v: u64)
        requires
            nanos < 1_000_000_000,
        ensures
            v == ntp_later(self.base(), secs as int, nanos as int),
    {
        self.base_ntp.wrapping_add(fixed_point(secs, nanos))
    }

    /// Current time as a 64-bit NTP fixed-point value: a reading of the
    /// monotonic clock, counted from the anchor.
    pub fn ntp64(&self) -> (v: u64)
        ensures
            exists|e: (u64, u32)| #[trigger]
                self.reads(e) && e.1 < 1_000_000_000 && v == ntp_later(self.base(), e.0 as int, e.1 as int),
    {
        let e = elapsed(&self.base_instant);
        assert(self.reads(e));
        self.ntp64_after(e.0, e.1)
    }

    /// Whether the clock can show `t`: the monotonic clock can be read so.
    pub open spec fn shows(self, t: (u32, u32)) -> bool {
        exists|e: (u64, u32)| #[trigger]
            self.reads(e) && e.1 < 1_000_000_000 && t == ntp_split(
                ntp_later(self.base(), e.0 as int, e.1 as int),
            )
    }

    /// Current time split into (seconds, fraction).
    pub fn ntp(&self) -> (p: (u32, u32))
        ensures
            self.shows(p),
    {
        split(self.ntp64())
    }
}

/// The timeline never jumps back: for any two moments within the 136 years
/// that a timestamp can count, the later one is ahead of the earlier one (in
/// the arithmetic of a wrapping counter) by exactly the fixed-point value of
/// the time between their offsets, and that is never negative.
pub proof fn lemma_timeline_is_monotone(base: u64, s1: int, n1: int, s2: int, n2: int)
    requires
        0 <= n1 < 1_000_000_000,
        0 <= n2 < 1_000_000_000,
        0 <= s1,
        s1 < s2 || (s1 == s2 && n1 <= n2),
        s2 < 0x1_0000_0000,
    ensures
        0 <= ntp_fixed(s2, n2) - ntp_fixed(s1, n1),
        ntp_later(base, s2, n2) == (ntp_later(base, s1, n1) + (ntp_fixed(s2, n2) - ntp_fixed(s1, n1)))
            % 0x1_0000_0000_0000_0000,
{
}

/// A timestamp counts the elapsed time to less than one unit of its last bit.
pub proof fn lemma_timeline_is_precise(secs: int, nanos: int)
    requires
        0 <= nanos < 1_000_000_000,
        0 <= secs < 0x1_0000_0000,
    ensures
        ntp_fixed(secs, nanos) * 1_000_000_000 <= (secs * 1_000_000_000 + nanos) * 0x1_0000_0000,
        (secs * 1_000_000_000 + nanos) * 0x1_0000_0000 < (ntp_fixed(secs, nanos) + 1) * 1_000_000_000,
{
}

/// The two halves of a split timestamp are the whole timestamp.
pub proof fn lemma_split_keeps_all(v: u64)
    ensures
        v == ntp_split(v).0 * 0x1_0000_0000 + ntp_split(v).1,
{
}

/// A clock that was set by a reading shows it: the seconds since 1900 (modulo
/// 2^32) above the fraction that the nanoseconds round down to. There is no
/// clock for no reading.
pub proof fn lemma_clock_shows_reading(c: Option<Clock>, reading: Option<(u64, u32)>)
    requires
        Clock::set_by(c, reading),
        reading matches Some(t) ==> t.1 < 1_000_000_000,
    ensures
        reading is None ==> c is None,
        reading matches Some(t) ==> (c is Some <==> t.0 <= u64::MAX - 2_208_988_800),
        c matches Some(clock) ==> ({
            let (secs, nanos) = reading->0;
            let fraction = clock.base() as int % 0x1_0000_0000;
            &&& clock.base() as int / 0x1_0000_0000 == (secs + 2_208_988_800) % 0x1_0000_0000
            &&& fraction * 1_000_000_000 <= nanos * 0x1_0000_0000 < (fraction + 1) * 1_000_000_000
        }),
{
}

/// What a clock shows is ahead of its anchor by the elapsed time, in units of
/// 2^-32 s, rounded down; timestamps wrap around. At the anchor it shows the
/// anchor's timestamp.
pub proof fn lemma_timestamp_counts_elapsed_time(base: u64, secs: int, nanos: int)
    requires
        0 <= nanos < 1_000_000_000,
        0 <= secs,
    ensures
        ntp_later(base, 0, 0) == base,
        ({
            let ahead = (ntp_later(base, secs, nanos) - base) % 0x1_0000_0000_0000_0000;
            let elapsed = (secs % 0x1_0000_0000 * 1_000_000_000 + nanos) * 0x1_0000_0000;
            ahead * 1_000_000_000 <= elapsed < (ahead + 1) * 1_000_000_000
        }),
{
    lemma_timeline_is_precise(secs % 0x1_0000_0000, nanos);
    let fixed = ntp_fixed(secs, nanos);
    assert(fixed == ntp_fixed(secs % 0x1_0000_0000, nanos));
    assert(0 <= fixed < 0x1_0000_0000_0000_0000);
    assert((ntp_later(base, secs, nanos) - base) % 0x1_0000_0000_0000_0000 == fixed);
}

/// What a clock shows is a reading of the monotonic clock, counted from its
/// anchor in units of 2^-32 s, as whole seconds and a fraction.
pub proof fn lemma_clock_shows(c: Clock, t: (u32, u32))
    requires
        c.shows(t),
    ensures
        exists|e: (u64, u32)| #[trigger]
            c.reads(e) && ({
                let ahead = (t.0 * 0x1_0000_0000 + t.1 - c.base()) % 0x1_0000_0000_0000_0000;
                let elapsed = (e.0 as int % 0x1_0000_0000 * 1_000_000_000 + e.1) * 0x1_0000_0000;
                ahead * 1_000_000_000 <= elapsed < (ahead + 1) * 1_000_000_000
            }),
{
    let e = choose|e: (u64, u32)| #[trigger]
        c.reads(e) && e.1 < 1_000_000_000 && t == ntp_split(ntp_later(c.base(), e.0 as int, e.1 as int));
    lemma_timestamp_counts_elapsed_time(c.base(), e.0 as int, e.1 as int);
    lemma_split_keeps_all(ntp_later(c.base(), e.0 as int, e.1 as int));
    assert(c.reads(e));
}

} // verus!
