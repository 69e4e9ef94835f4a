use lib::time::Timestamp;

#[test]
fn later_instants_are_after_earlier_ones() {
    let a = Timestamp::new(100, 5);
    let b = Timestamp::new(100, 6);
    let c = Timestamp::new(101, 0);
    assert!(b.is_after(&a));
    assert!(c.is_after(&b));
    assert!(!a.is_after(&b));
    assert!(!a.is_after(&a));
    assert!(Timestamp::new(-1, 999_999_999).is_after(&Timestamp::new(-2, 0)));
    assert!(Timestamp::new(0, 0).is_after(&Timestamp::new(-1, 999_999_999)));
}

#[test]
fn spans_are_counted_in_nanoseconds() {
    let a = Timestamp::new(10, 250);
    let b = Timestamp::new(12, 100);
    assert_eq!(b.nanos_since(&a), 1_999_999_850);
    assert_eq!(a.nanos_since(&b), -1_999_999_850);
    assert_eq!(
        Timestamp::new(i64::MAX, u32::MAX).nanos_since(&Timestamp::new(i64::MIN, 0)),
        (i64::MAX as i128 - i64::MIN as i128) * 1_000_000_000 + u32::MAX as i128
    );
}

#[test]
fn whole_seconds_are_rounded_towards_zero() {
    let a = Timestamp::new(10, 250);
    let b = Timestamp::new(12, 100);
    assert_eq!(b.seconds_since(&a), 1);
    assert_eq!(a.seconds_since(&b), -1);
    assert_eq!(Timestamp::new(12, 250).seconds_since(&a), 2);
    assert_eq!(a.seconds_since(&a), 0);
    assert_eq!(Timestamp::new(10, 999_999_999).seconds_since(&Timestamp::new(10, 0)), 0);
    assert_eq!(Timestamp::new(10, 0).seconds_since(&Timestamp::new(10, 999_999_999)), 0);
    assert_eq!(Timestamp::new(110, 0).seconds_since(&Timestamp::new(10, 0)), 100);
}

#[test]
fn the_clock_does_not_run_backwards_by_much() {
    let a = Timestamp::now();
    let b = Timestamp::now();
    assert!(b.nanos_since(&a) > -1_000_000_000);
    assert!(a.secs > 1_600_000_000);
    assert!(a.nanos < 1_000_000_000);
}

#[test]
fn the_clock_gives_less_than_a_second_of_nanoseconds() {
    for _ in 0..1000 {
        assert!(Timestamp::now().nanos < 1_000_000_000);
    }
}
