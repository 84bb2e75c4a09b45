use waypipe_core::clock::{
    clock_difference, clock_sub, clock_sub_from_readings, join_u64, split_u64, time_add,
    timespec_midpoint, translate_timestamp, translate_with_offset, ClockError, ClockReading, Timespec,
    CLOCK_REALTIME,
};

fn ts(tv_sec: i64, tv_nsec: i64) -> Timespec {
    Timespec { tv_sec, tv_nsec }
}

#[test]
fn midpoints() {
    let m = timespec_midpoint(ts(10, 200), ts(12, 400));
    assert_eq!((m.tv_sec, m.tv_nsec), (11, 300));
    let m = timespec_midpoint(ts(10, 900_000_000), ts(11, 900_000_000));
    assert_eq!((m.tv_sec, m.tv_nsec), (11, 400_000_000));
    let m = timespec_midpoint(ts(-3, 0), ts(0, 0));
    assert_eq!((m.tv_sec, m.tv_nsec), (-2, 500_000_000));
}

#[test]
fn differences_and_sums() {
    let d = clock_difference(ts(10, 0), ts(5, 600_000_000), ts(10, 0)).unwrap();
    assert_eq!(d, (4, 400_000_000));
    assert_eq!(time_add((5, 600_000_000), (-2, 400_000_000)), Some((3, 1_000_000_000)));
    assert_eq!(time_add((5, 700_000_000), (1, 400_000_000)), Some((7, 100_000_000)));
    assert_eq!(time_add((0, 0), (-1, 0)), None);
    assert_eq!(time_add((u64::MAX, 600_000_000), (0, 600_000_000)), None);
    assert_eq!(join_u64(1, 2), (1u64 << 32) + 2);
    assert_eq!(split_u64((7u64 << 32) + 9), (7, 9));
}

#[test]
fn a_clock_has_no_offset_from_itself() {
    let (sec, nsec) = clock_sub(CLOCK_REALTIME, CLOCK_REALTIME).unwrap();
    assert!(nsec < 1_000_000_000);
    let total = sec as i128 * 1_000_000_000 + nsec as i128;
    assert!(total.abs() < 1_000_000_000);
}

#[test]
fn monotonic_clock_is_far_from_realtime() {
    // The real-time clock counts from 1970; the monotonic one (id 1) from boot.
    let (sec, nsec) = clock_sub(CLOCK_REALTIME, 1).unwrap();
    assert!(nsec < 1_000_000_000);
    assert!(sec > 1_000_000);
}

#[test]
fn timestamps_translate_through_the_same_clock_unchanged() {
    let (hi, lo, nsec) = translate_timestamp(0, 1000, 5, CLOCK_REALTIME, true).unwrap();
    assert_eq!(hi, 0);
    assert!((999..=1001).contains(&lo));
    assert!(nsec <= 1_000_000_000);
}

fn rd(clock: u32, time: Option<Timespec>) -> ClockReading {
    ClockReading { clock, time }
}

#[test]
fn offsets_from_given_readings() {
    let r = clock_sub_from_readings(rd(1, Some(ts(10, 100))), rd(2, Some(ts(3, 500))), rd(1, Some(ts(10, 300))));
    assert!(matches!(r, Ok((6, 999_999_700))));
    let r = clock_sub_from_readings(rd(1, Some(ts(10, 0))), rd(2, Some(ts(5, 0))), rd(1, Some(ts(12, 0))));
    assert!(matches!(r, Ok((6, 0))));
    let r = clock_sub_from_readings(rd(4, Some(ts(10, 0))), rd(0, None), rd(4, Some(ts(12, 0))));
    assert!(matches!(r, Err(ClockError::ReadFailed(4, 0))));
    let r = clock_sub_from_readings(rd(4, None), rd(0, Some(ts(10, 0))), rd(4, Some(ts(12, 0))));
    assert!(matches!(r, Err(ClockError::ReadFailed(4, 0))));
    let r = clock_sub_from_readings(rd(1, Some(ts(i64::MAX, 0))), rd(2, Some(ts(0, 0))), rd(1, Some(ts(i64::MAX, 0))));
    assert!(matches!(r, Err(ClockError::Overflow)));
    let r = clock_sub_from_readings(rd(1, Some(ts(0, 0))), rd(2, Some(ts(i64::MIN, 0))), rd(1, Some(ts(0, 0))));
    assert!(matches!(r, Err(ClockError::Overflow)));
}

#[test]
fn timestamps_move_by_the_given_offset() {
    assert!(matches!(translate_with_offset(0, 1000, 5, Ok((3, 10))), Ok((0, 1003, 15))));
    assert!(matches!(
        translate_with_offset(0, u32::MAX, 600_000_000, Ok((0, 600_000_000))),
        Ok((1, 0, 200_000_000))
    ));
    assert!(matches!(translate_with_offset(1, 0, 0, Ok((-1, 0))), Ok((0, u32::MAX, 0))));
    assert!(matches!(translate_with_offset(0, 0, 0, Ok((-1, 0))), Err(ClockError::Overflow)));
    assert!(matches!(
        translate_with_offset(0, 7, 0, Err(ClockError::ReadFailed(0, 3))),
        Err(ClockError::ReadFailed(0, 3))
    ));
}
