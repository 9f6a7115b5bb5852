use rustask::clock::Timestamp;
use rustask::clock::CALENDAR_LIMIT_SECS;
use rustask::task::Task;

#[test]
fn clock_reading_lies_in_the_calendar_and_agrees_with_chrono() {
    let before = chrono::Utc::now().timestamp();
    let first = Task::new(1, "a".to_string(), None).created_at;
    let second = Task::new(2, "b".to_string(), None).created_at;
    let after = chrono::Utc::now().timestamp();
    assert!(before <= first.secs && second.secs <= after);
    assert!(first.secs <= CALENDAR_LIMIT_SECS);
    assert!(first.nanos < 1_000_000_000);
    assert!(first.is_at_or_before(&second));
}

#[test]
fn instants_are_ordered_by_seconds_then_nanoseconds() {
    let a = Timestamp::new(10, 999_999_999);
    let b = Timestamp::new(11, 0);
    assert!(a.is_at_or_before(&b));
    assert!(!b.is_at_or_before(&a));
    assert!(a.is_at_or_before(&a));
    assert!(Timestamp::new(-5, 0).is_at_or_before(&Timestamp::new(-4, 0)));
    assert!(Timestamp::new(10, 1).is_at_or_before(&Timestamp::new(10, 2)));
    assert!(!Timestamp::new(10, 2).is_at_or_before(&Timestamp::new(10, 1)));
}

#[test]
fn add_minutes_adds_sixty_seconds_per_minute() {
    let t = Timestamp::new(1_000, 42);
    assert_eq!(t.add_minutes(10), Timestamp::new(1_600, 42));
    assert_eq!(t.add_minutes(0), t);
    assert_eq!(t.add_minutes(-20), Timestamp::new(-200, 42));
}

#[test]
fn checked_add_minutes_is_none_exactly_on_overflow() {
    let t = Timestamp::new(0, 7);
    assert_eq!(t.checked_add_minutes(1), Some(Timestamp::new(60, 7)));
    let most = i64::MAX / 60;
    assert_eq!(t.checked_add_minutes(most), Some(Timestamp::new(most * 60, 7)));
    assert_eq!(t.checked_add_minutes(most + 1), None);
    assert_eq!(t.checked_add_minutes(i64::MIN), None);
    // The product alone overflows, the sum does not.
    let low = Timestamp::new(-60, 0);
    assert_eq!(low.checked_add_minutes(most + 1), Some(Timestamp::new(most * 60, 0)));
    assert_eq!(Timestamp::new(i64::MAX, 0).checked_add_minutes(1), None);
    assert_eq!(Timestamp::new(i64::MAX, 0).checked_add_minutes(0), Some(Timestamp::new(i64::MAX, 0)));
}
