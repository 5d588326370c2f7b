use chrono::{DateTime, Duration};
use gantt_scheduler::date_utils::{
    add_business_days, shift_to_first_next_business_day, shift_to_first_prev_business_day,
    sub_business_days,
};

const FMT: &str = "%Y-%m-%d %H:%M:%S%.3f %z";

/// The day number of a timestamp: calendar days since 1970-01-01, which is
/// day zero of the library's calendar (a Thursday).
fn day_number(s: &str) -> i64 {
    DateTime::parse_from_str(s, FMT)
        .unwrap()
        .timestamp()
        .div_euclid(86400)
}

fn shifted(s: &str, days: i64) -> i64 {
    let now = DateTime::parse_from_str(s, FMT).unwrap();
    now.checked_add_signed(Duration::days(days))
        .unwrap()
        .timestamp()
        .div_euclid(86400)
}

#[test]
fn test_add_3_days() {
    // 2020-03-12 is a Thursday: three business days on are Friday, Monday,
    // Tuesday, five calendar days later.
    let now = "2020-03-12 12:29:03.274 +0000";
    assert_eq!(shifted(now, 5), add_business_days(day_number(now), 3));
}

#[test]
fn test_add_3_days_normal() {
    // 2020-03-10 is a Tuesday: three business days on is Friday.
    let now = "2020-03-10 12:29:03.274 +0000";
    assert_eq!(shifted(now, 3), add_business_days(day_number(now), 3));
}

#[test]
fn test_sub_3_days_normal() {
    // 2020-03-12 is a Thursday: three business days back is Monday.
    let now = "2020-03-12 12:29:03.274 +0000";
    assert_eq!(shifted(now, -3), sub_business_days(day_number(now), 3));
}

#[test]
fn test_sub_3_days() {
    // 2020-03-10 is a Tuesday: three business days back crosses the weekend
    // to Thursday, five calendar days earlier.
    let now = "2020-03-10 12:29:03.274 +0000";
    assert_eq!(shifted(now, -5), sub_business_days(day_number(now), 3));
}

#[test]
fn test_weekend_shifts() {
    // Day 0 is Thursday 1970-01-01, so day 2 is a Saturday, day 3 a Sunday.
    assert_eq!(shift_to_first_next_business_day(2), 4); // Saturday -> Monday
    assert_eq!(shift_to_first_next_business_day(3), 4); // Sunday -> Monday
    assert_eq!(shift_to_first_prev_business_day(2), 1); // Saturday -> Friday
    assert_eq!(shift_to_first_prev_business_day(3), 1); // Sunday -> Friday
}

#[test]
fn test_weekday_shift_identity() {
    // Monday through Friday are left where they are.
    for day in [0, 1, 4, 5, 6] {
        assert_eq!(shift_to_first_next_business_day(day), day);
        assert_eq!(shift_to_first_prev_business_day(day), day);
    }
}

#[test]
fn test_add_sub_zero_identity() {
    let thursday = day_number("2020-03-12 12:29:03.274 +0000");
    assert_eq!(add_business_days(thursday, 0), thursday);
    assert_eq!(sub_business_days(thursday, 0), thursday);
}

#[test]
fn test_add_never_lands_on_weekend() {
    // Walking forward from a Monday, every step lands on a weekday.
    let monday = day_number("2020-03-09 12:29:03.274 +0000");
    for n in 0..20 {
        let d = add_business_days(monday, n);
        let weekday = (d + 4).rem_euclid(7);
        assert!(weekday != 0 && weekday != 6);
        assert!(d >= monday + n as i64);
        let b = sub_business_days(monday, n);
        let weekday_b = (b + 4).rem_euclid(7);
        assert!(weekday_b != 0 && weekday_b != 6);
        assert!(b <= monday - n as i64);
    }
}
