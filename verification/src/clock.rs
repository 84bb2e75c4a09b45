//! Translating timestamps between the clocks of the two machines' processes.
use vstd::prelude::*;

verus! {

/// A clock reading: seconds and nanoseconds.
#[derive(Debug, Clone, Copy)]
pub struct Timespec {
    pub tv_sec: i64,
    pub tv_nsec: i64,
}

/// Rust's remainder of `x` by 2, which takes the sign of `x`.
pub open spec fn trunc_rem2(x: int) -> int {
    if x >= 0 {
        x % 2
    } else {
        -((-x) % 2)
    }
}

/// The point halfway between two readings, computed field by field.
pub open spec fn midpoint_spec(a: Timespec, b: Timespec) -> (int, int) {
    let nsec0 = if a.tv_nsec < b.tv_nsec {
        a.tv_nsec + (b.tv_nsec - a.tv_nsec) / 2
    } else {
        b.tv_nsec + (a.tv_nsec - b.tv_nsec) / 2
    };
    let sec0 = if a.tv_sec < b.tv_sec {
        a.tv_sec + (b.tv_sec - a.tv_sec) / 2
    } else {
        b.tv_sec + (a.tv_sec - b.tv_sec) / 2
    };
    let nsec1 = if trunc_rem2(b.tv_sec as int) != trunc_rem2(a.tv_sec as int) {
        nsec0 + 500_000_000
    } else {
        nsec0
    };
    if nsec1 > 1_000_000_000 {
        (sec0 + 1, nsec1 - 1_000_000_000)
    } else {
        (sec0, nsec1)
    }
}

/// Nanoseconds in range, as clocks report them.
pub open spec fn nsec_ok(t: Timespec) -> bool {
    0 <= t.tv_nsec < 1_000_000_000
}

/// The two readings can be averaged without overflow.
pub open spec fn midpoint_ok(a: Timespec, b: Timespec) -> bool {
    &&& nsec_ok(a)
    &&& nsec_ok(b)
    &&& i64::MIN <= b.tv_sec - a.tv_sec <= i64::MAX
    &&& i64::MIN <= a.tv_sec - b.tv_sec <= i64::MAX
    &&& a.tv_sec < i64::MAX
    &&& b.tv_sec < i64::MAX
}

/// The reading halfway between `stamp_1` and `stamp_3`.
pub fn timespec_midpoint(stamp_1: Timespec, stamp_3: Timespec) -> (r: Timespec)
    requires
        midpoint_ok(stamp_1, stamp_3),
    ensures
        (r.tv_sec as int, r.tv_nsec as int) == midpoint_spec(stamp_1, stamp_3),
        0 <= r.tv_nsec <= 1_000_000_000,
{
    let mut mid_nsec = if stamp_1.tv_nsec < stamp_3.tv_nsec {
        stamp_1.tv_nsec + (stamp_3.tv_nsec - stamp_1.tv_nsec) / 2
    } else {
        stamp_3.tv_nsec + (stamp_1.tv_nsec - stamp_3.tv_nsec) / 2
    };
    let mut mid_sec = if stamp_1.tv_sec < stamp_3.tv_sec {
        stamp_1.tv_sec + (stamp_3.tv_sec - stamp_1.tv_sec) / 2
    } else {
        stamp_3.tv_sec + (stamp_1.tv_sec - stamp_3.tv_sec) / 2
    };
    if stamp_3.tv_sec % 2 != stamp_1.tv_sec % 2 {
        mid_nsec += 500_000_000;
    }
    if mid_nsec > 1_000_000_000 {
        mid_sec += 1;
        mid_nsec -= 1_000_000_000;
    }
    Timespec { tv_sec: mid_sec, tv_nsec: mid_nsec }
}

/// Why clocks could not be compared.
#[derive(Debug, Clone, Copy)]
pub enum ClockError {
    /// Reading one of the clocks failed.
    ReadFailed(u32, u32),
    /// A value did not fit its type.
    Overflow,
}

/// The readings give an offset whose nanoseconds can be normalized into `0..10^9`.
pub open spec fn difference_ok(s1: Timespec, s2: Timespec, s3: Timespec) -> bool {
    &&& midpoint_ok(s1, s3)
    &&& nsec_ok(s2)
    &&& midpoint_spec(s1, s3).1 - s2.tv_nsec < 1_000_000_000
}

/// The offset of clock A from clock B, given readings `s1` of A, then `s2` of B, then `s3`
/// of A: the midpoint of `s1` and `s3` minus `s2`, with nanoseconds in `0..10^9`. Fails
/// when the seconds do not fit.
pub open spec fn difference_spec(s1: Timespec, s2: Timespec, s3: Timespec) -> Option<(int, int)> {
    let m = midpoint_spec(s1, s3);
    let sec = m.0 - s2.tv_sec;
    let nsec = m.1 - s2.tv_nsec;
    if sec < i64::MIN || sec > i64::MAX {
        None
    } else if nsec < 0 {
        if sec - 1 < i64::MIN {
            None
        } else {
            Some((sec - 1, nsec + 1_000_000_000))
        }
    } else {
        Some((sec, nsec))
    }
}

/// The offset between two clocks from three readings (see `difference_spec`).
pub fn clock_difference(s1: Timespec, s2: Timespec, s3: Timespec) -> (res: Result<(i64, u32), ClockError>)
    requires
        difference_ok(s1, s2, s3),
    ensures
        match difference_spec(s1, s2, s3) {
            Some(d) => res matches Ok(v) && v.0 == d.0 && v.1 == d.1 && v.1 < 1_000_000_000,
            None => res matches Err(ClockError::Overflow),
        },
{
    let stamp_avg = timespec_midpoint(s1, s3);
    let mut tv_sec = match stamp_avg.tv_sec.checked_sub(s2.tv_sec) {
        Some(v) => v,
        None => {
            return Err(ClockError::Overflow);
        },
    };
    let mut tv_nsec: i32 = match stamp_avg.tv_nsec.checked_sub(s2.tv_nsec) {
        Some(v) => v as i32,
        None => {
            return Err(ClockError::Overflow);
        },
    };
    if tv_nsec < 0 {
        tv_sec = match tv_sec.checked_sub(1) {
            Some(v) => v,
            None => {
                return Err(ClockError::Overflow);
            },
        };
        tv_nsec += 1_000_000_000;
    }
    Ok((tv_sec, tv_nsec as u32))
}

/// A reading of the clock with id `clock`: its time, or `None` when reading it failed.
#[derive(Debug, Clone, Copy)]
pub struct ClockReading {
    pub clock: u32,
    pub time: Option<Timespec>,
}

/// Reads the clock with id `id` through `nix::time::clock_gettime`, and labels the reading
/// with that id. The time depends on when the call is made; where there is one, its
/// nanoseconds are in `0..10^9`, as POSIX specifies for every `timespec` that
/// `clock_gettime` fills. Nothing is claimed about the seconds, nor about when it fails.
#[verifier::external_body]
fn read_clock(id: u32) -> (r: ClockReading)
    requires
        id <= i32::MAX,
    ensures
        r.clock == id,
        r.time matches Some(t) ==> nsec_ok(t),
{
    let time = match nix::time::clock_gettime(nix::time::ClockId::from_raw(id as i32)) {
        Ok(t) => Some(Timespec { tv_sec: t.tv_sec() as i64, tv_nsec: t.tv_nsec() as i64 }),
        Err(_) => None,
    };
    ClockReading { clock: id, time }
}

/// A clock reading as `read_clock` can return it: none, or one with nanoseconds in range.
pub open spec fn reading_ok(r: ClockReading) -> bool {
    r.time matches Some(t) ==> nsec_ok(t)
}

/// The readings were taken of clock `clock_a`, then `clock_b`, then `clock_a` again.
pub open spec fn readings_of(clock_a: u32, clock_b: u32, r1: ClockReading, r2: ClockReading, r3: ClockReading) -> bool {
    &&& r1.clock == clock_a
    &&& r2.clock == clock_b
    &&& r3.clock == clock_a
    &&& reading_ok(r1)
    &&& reading_ok(r2)
    &&& reading_ok(r3)
}

/// What comparing two clocks gives when the readings of clock A, then clock B, then A again
/// came back as `r1`, `r2`, `r3`: `ReadFailed` with the ids of A and B when one is missing,
/// `Overflow` when the readings cannot be averaged or subtracted within range, and else
/// their offset.
pub open spec fn clock_outcome(r1: ClockReading, r2: ClockReading, r3: ClockReading) -> Result<(i64, u32), ClockError> {
    match (r1.time, r2.time, r3.time) {
        (Some(s1), Some(s2), Some(s3)) => {
            if !difference_ok(s1, s2, s3) {
                Err(ClockError::Overflow)
            } else {
                match difference_spec(s1, s2, s3) {
                    Some(d) => Ok((d.0 as i64, d.1 as u32)),
                    None => Err(ClockError::Overflow),
                }
            }
        },
        _ => Err(ClockError::ReadFailed(r1.clock, r2.clock)),
    }
}

/// The offset of the clock of `r1` and `r3` from the clock of `r2`, given the readings
/// taken in that order (see `clock_outcome`).
pub fn clock_sub_from_readings(r1: ClockReading, r2: ClockReading, r3: ClockReading) -> (res: Result<(i64, u32), ClockError>)
    ensures
        res == clock_outcome(r1, r2, r3),
        res matches Ok(v) ==> v.1 < 1_000_000_000,
{
    let (s1, s2, s3) = match (r1.time, r2.time, r3.time) {
        (Some(a), Some(b), Some(c)) => (a, b, c),
        _ => {
            return Err(ClockError::ReadFailed(r1.clock, r2.clock));
        },
    };
    if !readings_usable(s1, s2, s3) {
        return Err(ClockError::Overflow);
    }
    clock_difference(s1, s2, s3)
}

/// The offset of clock `clock_a` from clock `clock_b`, measured by reading A, B, then A
/// again. Fails when a clock cannot be read, or when the readings give values that do not
/// fit. The readings depend on the time, so the result is stated for the readings of those
/// clocks, in that order, whatever times they gave.
pub fn clock_sub(clock_a: u32, clock_b: u32) -> (res: Result<(i64, u32), ClockError>)
    requires
        clock_a <= i32::MAX,
        clock_b <= i32::MAX,
    ensures
        exists|r1: ClockReading, r2: ClockReading, r3: ClockReading|
            readings_of(clock_a, clock_b, r1, r2, r3) && res == #[trigger] clock_outcome(r1, r2, r3) && (
            res is Ok && (r1.time->0).tv_sec >= 0 && (r3.time->0).tv_sec >= 0 ==> (res->Ok_0).0 * 1_000_000_000 + (res->Ok_0).1
                == (nanos(r1.time->0) + nanos(r3.time->0)) / 2 - nanos(r2.time->0)),
        res matches Ok(v) ==> v.1 < 1_000_000_000,
{
    let r1 = read_clock(clock_a);
    let r2 = read_clock(clock_b);
    let r3 = read_clock(clock_a);
    let res = clock_sub_from_readings(r1, r2, r3);
    proof {
        assert(readings_of(clock_a, clock_b, r1, r2, r3));
        if res is Ok && (r1.time->0).tv_sec >= 0 && (r3.time->0).tv_sec >= 0 {
            lemma_offset_is_difference(r1, r2, r3);
        }
    }
    res
}

/// Whether `clock_difference` accepts the readings.
pub fn readings_usable(s1: Timespec, s2: Timespec, s3: Timespec) -> (r: bool)
    ensures
        r == difference_ok(s1, s2, s3),
{
    if !(0 <= s1.tv_nsec && s1.tv_nsec < 1_000_000_000 && 0 <= s2.tv_nsec && s2.tv_nsec
        < 1_000_000_000 && 0 <= s3.tv_nsec && s3.tv_nsec < 1_000_000_000) {
        return false;
    }
    if s1.tv_sec == i64::MAX || s3.tv_sec == i64::MAX {
        return false;
    }
    if s3.tv_sec.checked_sub(s1.tv_sec).is_none() || s1.tv_sec.checked_sub(s3.tv_sec).is_none() {
        return false;
    }
    let m = timespec_midpoint(s1, s3);
    m.tv_nsec - s2.tv_nsec < 1_000_000_000
}

/// Add a signed offset to a time; `None` when the seconds leave the range of `u64`.
pub open spec fn time_add_spec(a: (u64, u32), b: (i64, u32)) -> Option<(u64, u32)> {
    let nsec = a.1 + b.1;
    let (sec0, nsec1) = if nsec > 1_000_000_000 {
        (a.0 + 1, nsec - 1_000_000_000)
    } else {
        (a.0 as int, nsec)
    };
    if sec0 > u64::MAX || sec0 + b.0 < 0 || sec0 + b.0 > u64::MAX {
        None
    } else {
        Some(((sec0 + b.0) as u64, nsec1 as u32))
    }
}

/// Add the offset `b` (seconds, nanoseconds) to the time `a`.
pub fn time_add(a: (u64, u32), b: (i64, u32)) -> (r: Option<(u64, u32)>)
    requires
        a.1 < 1_000_000_000,
        b.1 < 1_000_000_000,
    ensures
        r == time_add_spec(a, b),
{
    let mut a = a;
    let mut nsec = match a.1.checked_add(b.1) {
        Some(v) => v,
        None => {
            return None;
        },
    };
    if nsec > 1_000_000_000 {
        nsec -= 1_000_000_000;
        a.0 = match a.0.checked_add(1) {
            Some(v) => v,
            None => {
                return None;
            },
        };
    }
    match a.0.checked_add_signed(b.0) {
        Some(v) => Some((v, nsec)),
        None => None,
    }
}

/// The 64-bit value with high half `hi` and low half `lo`.
pub fn join_u64(hi: u32, lo: u32) -> (r: u64)
    ensures
        r == hi as int * 0x1_0000_0000 + lo as int,
{
    (hi as u64) * 0x1_0000_0000 + (lo as u64)
}

/// The high and low halves of a 64-bit value.
pub fn split_u64(v: u64) -> (r: (u32, u32))
    ensures
        v == r.0 as int * 0x1_0000_0000 + r.1 as int,
        r.0 == v / 0x1_0000_0000,
        r.1 == v % 0x1_0000_0000,
{
    ((v / 0x1_0000_0000) as u32, (v % 0x1_0000_0000) as u32)
}

/// The id of the system-wide real-time clock.
pub const CLOCK_REALTIME: u32 = 0;

/// What translating the time with seconds `tv_sec_hi * 2^32 + tv_sec_lo` and nanoseconds
/// `tv_nsec` gives when measuring the clock offset gave `diff`: the error of the measurement,
/// `Overflow` when the sum leaves the range of `u64` seconds, and else the sum, its seconds
/// split into high and low halves.
pub open spec fn translate_outcome(
    tv_sec_hi: u32,
    tv_sec_lo: u32,
    tv_nsec: u32,
    diff: Result<(i64, u32), ClockError>,
) -> Result<(u32, u32, u32), ClockError> {
    match diff {
        Err(e) => Err(e),
        Ok(d) => match time_add_spec(((tv_sec_hi as int * 0x1_0000_0000 + tv_sec_lo) as u64, tv_nsec), d) {
            None => Err(ClockError::Overflow),
            Some(t) => Ok(((t.0 / 0x1_0000_0000) as u32, (t.0 % 0x1_0000_0000) as u32, t.1)),
        },
    }
}

/// The clocks whose offset translates a timestamp of clock `clock_id`: the real-time clock
/// against `clock_id` towards the channel, and `clock_id` against the real-time clock back.
pub open spec fn translation_clocks(clock_id: u32, to_channel: bool) -> (u32, u32) {
    if to_channel {
        (CLOCK_REALTIME, clock_id)
    } else {
        (clock_id, CLOCK_REALTIME)
    }
}

/// Translate a timestamp by an offset `diff` between two clocks, or pass on the error of
/// measuring it (see `translate_outcome`).
pub fn translate_with_offset(
    tv_sec_hi: u32,
    tv_sec_lo: u32,
    tv_nsec: u32,
    diff: Result<(i64, u32), ClockError>,
) -> (res: Result<(u32, u32, u32), ClockError>)
    requires
        tv_nsec < 1_000_000_000,
        diff matches Ok(d) ==> d.1 < 1_000_000_000,
    ensures
        res == translate_outcome(tv_sec_hi, tv_sec_lo, tv_nsec, diff),
{
    let tv_sec = join_u64(tv_sec_hi, tv_sec_lo);
    let (diff_sec, diff_nsec) = match diff {
        Ok(d) => d,
        Err(e) => {
            return Err(e);
        },
    };
    let (new_sec, new_nsec) = match time_add((tv_sec, tv_nsec), (diff_sec, diff_nsec)) {
        Some(t) => t,
        None => {
            return Err(ClockError::Overflow);
        },
    };
    let (new_sec_hi, new_sec_lo) = split_u64(new_sec);
    Ok((new_sec_hi, new_sec_lo, new_nsec))
}

/// Translate a timestamp (seconds in two halves, nanoseconds) read from clock `clock_id`
/// into the real-time clock, when it goes to the other side, or back from the real-time
/// clock into `clock_id`, when it comes from there. The offset is measured from clock
/// readings, which depend on the time, so the result is stated for the readings that the
/// clocks gave, whatever they were.
pub fn translate_timestamp(
    tv_sec_hi: u32,
    tv_sec_lo: u32,
    tv_nsec: u32,
    clock_id: u32,
    to_channel: bool,
) -> (res: Result<(u32, u32, u32), ClockError>)
    requires
        tv_nsec < 1_000_000_000,
        clock_id <= i32::MAX,
    ensures
        exists|r1: ClockReading, r2: ClockReading, r3: ClockReading|
            readings_of(
                if to_channel { CLOCK_REALTIME } else { clock_id },
                if to_channel { clock_id } else { CLOCK_REALTIME },
                r1,
                r2,
                r3,
            ) && res == translate_outcome(tv_sec_hi, tv_sec_lo, tv_nsec, #[trigger] clock_outcome(r1, r2, r3)) && (
            res is Ok && (r1.time->0).tv_sec >= 0 && (r3.time->0).tv_sec >= 0 ==> stamp_nanos((res->Ok_0).0, (res->Ok_0).1, (res->Ok_0).2)
                == stamp_nanos(tv_sec_hi, tv_sec_lo, tv_nsec) + (nanos(r1.time->0) + nanos(r3.time->0)) / 2 - nanos(
                r2.time->0,
            )),
{
    let realtime = CLOCK_REALTIME;
    let diff = if to_channel {
        clock_sub(realtime, clock_id)
    } else {
        clock_sub(clock_id, realtime)
    };
    let res = translate_with_offset(tv_sec_hi, tv_sec_lo, tv_nsec, diff);
    proof {
        let (a, b) = translation_clocks(clock_id, to_channel);
        let (w1, w2, w3) = choose|r1: ClockReading, r2: ClockReading, r3: ClockReading|
            readings_of(a, b, r1, r2, r3) && diff == #[trigger] clock_outcome(r1, r2, r3);
        if res is Ok && (w1.time->0).tv_sec >= 0 && (w3.time->0).tv_sec >= 0 {
            lemma_translation_moves_by_offset(tv_sec_hi, tv_sec_lo, tv_nsec, w1, w2, w3);
        }
        assert(readings_of(a, b, w1, w2, w3)
            && res == translate_outcome(tv_sec_hi, tv_sec_lo, tv_nsec, clock_outcome(w1, w2, w3)));
    }
    res
}

/// A reading as a number of nanoseconds.
pub open spec fn nanos(t: Timespec) -> int {
    t.tv_sec * 1_000_000_000 + t.tv_nsec
}

/// The nanoseconds of a timestamp given in seconds (two halves) and nanoseconds.
pub open spec fn stamp_nanos(hi: u32, lo: u32, nsec: u32) -> int {
    (hi * 0x1_0000_0000 + lo) * 1_000_000_000 + nsec
}

proof fn lemma_half(m: int, d: int)
    requires
        d >= 0,
    ensures
        m + d / 2 == (2 * m + d) / 2,
{
    vstd::arithmetic::div_mod::lemma_fundamental_div_mod(d, 2);
    vstd::arithmetic::div_mod::lemma_fundamental_div_mod_converse(2 * m + d, 2, m + d / 2, d % 2);
}

/// The midpoint of two readings with nonnegative seconds is their average, rounded down
/// to a nanosecond.
pub proof fn lemma_midpoint_average(a: Timespec, b: Timespec)
    requires
        midpoint_ok(a, b),
        a.tv_sec >= 0,
        b.tv_sec >= 0,
    ensures
        midpoint_spec(a, b).0 * 1_000_000_000 + midpoint_spec(a, b).1 == (nanos(a) + nanos(b)) / 2,
        0 <= midpoint_spec(a, b).1 <= 1_000_000_000,
{
    let n = a.tv_nsec + b.tv_nsec;
    let sm = a.tv_sec + b.tv_sec;
    if a.tv_nsec < b.tv_nsec {
        lemma_half(a.tv_nsec as int, b.tv_nsec - a.tv_nsec);
    } else {
        lemma_half(b.tv_nsec as int, a.tv_nsec - b.tv_nsec);
    }
    if a.tv_sec < b.tv_sec {
        lemma_half(a.tv_sec as int, b.tv_sec - a.tv_sec);
    } else {
        lemma_half(b.tv_sec as int, a.tv_sec - b.tv_sec);
    }
    let nsec0 = n / 2;
    let sec0 = sm / 2;
    vstd::arithmetic::div_mod::lemma_fundamental_div_mod(sm, 2);
    vstd::arithmetic::div_mod::lemma_fundamental_div_mod(n, 2);
    assert(trunc_rem2(a.tv_sec as int) == a.tv_sec % 2);
    assert(trunc_rem2(b.tv_sec as int) == b.tv_sec % 2);
    assert((trunc_rem2(b.tv_sec as int) != trunc_rem2(a.tv_sec as int)) == (sm % 2 == 1)) by {
        vstd::arithmetic::div_mod::lemma_fundamental_div_mod(a.tv_sec as int, 2);
        vstd::arithmetic::div_mod::lemma_fundamental_div_mod(b.tv_sec as int, 2);
        vstd::arithmetic::div_mod::lemma_fundamental_div_mod_converse(
            sm,
            2,
            a.tv_sec / 2 + b.tv_sec / 2 + (a.tv_sec % 2 + b.tv_sec % 2) / 2,
            (a.tv_sec % 2 + b.tv_sec % 2) % 2,
        );
    }
    let odd: int = sm % 2;
    let total = sm * 1_000_000_000 + n;
    assert(total == 2 * (sec0 * 1_000_000_000 + odd * 500_000_000) + n);
    lemma_half(sec0 * 1_000_000_000 + odd * 500_000_000, n);
}

/// The offset that three readings give is the average of the first and third minus the
/// second, in nanoseconds: the time of the clock read first and third, less that of the
/// clock read second.
pub proof fn lemma_offset_is_difference(r1: ClockReading, r2: ClockReading, r3: ClockReading)
    requires
        r1.time matches Some(t) && t.tv_sec >= 0,
        r3.time matches Some(t) && t.tv_sec >= 0,
        clock_outcome(r1, r2, r3) is Ok,
    ensures
        ({
            let d = clock_outcome(r1, r2, r3)->Ok_0;
            d.0 * 1_000_000_000 + d.1 == (nanos(r1.time->0) + nanos(r3.time->0)) / 2 - nanos(r2.time->0)
        }),
{
    let s1 = r1.time->0;
    let s2 = r2.time->0;
    let s3 = r3.time->0;
    lemma_midpoint_average(s1, s3);
}

proof fn lemma_outcome_nsec(r1: ClockReading, r2: ClockReading, r3: ClockReading)
    requires
        r1.time matches Some(t) && t.tv_sec >= 0,
        r3.time matches Some(t) && t.tv_sec >= 0,
        clock_outcome(r1, r2, r3) is Ok,
    ensures
        clock_outcome(r1, r2, r3)->Ok_0.1 < 1_000_000_000,
{
    lemma_midpoint_average(r1.time->0, r3.time->0);
}

/// Adding an offset to a time adds their nanoseconds.
pub proof fn lemma_time_add_sums(a: (u64, u32), b: (i64, u32))
    requires
        a.1 < 1_000_000_000,
        b.1 < 1_000_000_000,
        time_add_spec(a, b) is Some,
    ensures
        ({
            let c = time_add_spec(a, b)->0;
            c.0 * 1_000_000_000 + c.1 == a.0 * 1_000_000_000 + a.1 + b.0 * 1_000_000_000 + b.1
        }),
{
}

/// A translated timestamp is the timestamp moved by the offset that the readings give: the
/// average of the first and third readings less the second.
pub proof fn lemma_translation_moves_by_offset(hi: u32, lo: u32, nsec: u32, r1: ClockReading, r2: ClockReading, r3: ClockReading)
    requires
        nsec < 1_000_000_000,
        r1.time matches Some(t) && t.tv_sec >= 0,
        r3.time matches Some(t) && t.tv_sec >= 0,
        translate_outcome(hi, lo, nsec, clock_outcome(r1, r2, r3)) is Ok,
    ensures
        ({
            let v = translate_outcome(hi, lo, nsec, clock_outcome(r1, r2, r3))->Ok_0;
            stamp_nanos(v.0, v.1, v.2) == stamp_nanos(hi, lo, nsec) + (nanos(r1.time->0) + nanos(r3.time->0)) / 2
                - nanos(r2.time->0)
        }),
{
    lemma_offset_is_difference(r1, r2, r3);
    let d = clock_outcome(r1, r2, r3)->Ok_0;
    lemma_outcome_nsec(r1, r2, r3);
    let a = ((hi * 0x1_0000_0000 + lo) as u64, nsec);
    assert(hi * 0x1_0000_0000 + lo <= u64::MAX) by (nonlinear_arith)
        requires
            hi <= u32::MAX,
            lo <= u32::MAX,
    ;
    lemma_time_add_sums(a, d);
    let t = time_add_spec(a, d)->0;
    vstd::arithmetic::div_mod::lemma_fundamental_div_mod(t.0 as int, 0x1_0000_0000);
    vstd::arithmetic::div_mod::lemma_div_is_ordered(t.0 as int, u64::MAX as int, 0x1_0000_0000);
}

/// Towards the channel a timestamp is translated by the offset of the real-time clock from
/// its clock, and back from the channel by the offset of its clock from the real-time clock.
pub proof fn lemma_translation_clocks(clock_id: u32)
    ensures
        translation_clocks(clock_id, true) == (0u32, clock_id),
        translation_clocks(clock_id, false) == (clock_id, 0u32),
{
}

} // verus!
