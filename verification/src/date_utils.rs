//! Business-calendar date algebra over plain day numbers.
//!
//! A date is a `Day`: the number of calendar days since day zero, which falls
//! on a Thursday (so weekday arithmetic is a fixed offset modulo seven).
//! Saturday and Sunday are never valid schedule dates; the shift operations
//! move a weekend date to the nearest business day and the add/sub operations
//! step one calendar day at a time, skipping weekends as they go.

use vstd::prelude::*;

verus! {

use vstd::arithmetic::div_mod::{lemma_add_mod_noop, lemma_mod_sub_multiples_vanish, lemma_mod_bound};

/// A calendar date as a count of days since day zero (a Thursday).
pub type Day = i64;

/// Weekday of a day number: 0 = Sunday, 1 = Monday, ..., 6 = Saturday.
/// Day zero is a Thursday, hence the offset of 4.
pub open spec fn day_of_week(d: int) -> int {
    (d + 4) % 7
}

pub open spec fn saturday(d: int) -> bool {
    day_of_week(d) == 6
}

pub open spec fn sunday(d: int) -> bool {
    day_of_week(d) == 0
}

pub open spec fn weekend(d: int) -> bool {
    saturday(d) || sunday(d)
}

/// The first business day at or after `d`: Saturday moves two days forward,
/// Sunday one day forward, weekdays stay put.
pub open spec fn next_business_day(d: int) -> int {
    if saturday(d) {
        d + 2
    } else if sunday(d) {
        d + 1
    } else {
        d
    }
}

/// The first business day at or before `d`: Saturday moves one day back,
/// Sunday two days back, weekdays stay put.
pub open spec fn prev_business_day(d: int) -> int {
    if saturday(d) {
        d - 1
    } else if sunday(d) {
        d - 2
    } else {
        d
    }
}

/// `n` business-day steps forward: each step advances one calendar day and
/// then shifts off a weekend.
pub open spec fn add_business(d: int, n: nat) -> int
    decreases n,
{
    if n == 0 {
        d
    } else {
        next_business_day(add_business(d, (n - 1) as nat) + 1)
    }
}

/// `n` business-day steps backward, the mirror image of `add_business`.
pub open spec fn sub_business(d: int, n: nat) -> int
    decreases n,
{
    if n == 0 {
        d
    } else {
        prev_business_day(sub_business(d, (n - 1) as nat) - 1)
    }
}

/// Weekdays shifted by a small non-negative amount wrap around modulo seven.
proof fn lemma_dow_shift(d: int, k: int)
    requires
        0 <= k < 7,
    ensures
        day_of_week(d + k) == (day_of_week(d) + k) % 7,
{
    lemma_add_mod_noop(d + 4, k, 7);
    assert(k % 7 == k) by {
        lemma_mod_bound(k, 7);
    }
    lemma_mod_bound(day_of_week(d) + k, 7);
}

/// Weekdays are unchanged by stepping a whole week back.
proof fn lemma_dow_week_back(d: int)
    ensures
        day_of_week(d - 7) == day_of_week(d),
{
    lemma_mod_sub_multiples_vanish(d + 4, 7);
}

/// The weekday is always in 0..7, so the weekday cases are exhaustive.
proof fn lemma_dow_bound(d: int)
    ensures
        0 <= day_of_week(d) < 7,
{
    lemma_mod_bound(d + 4, 7);
}

/// Shifting to the next business day never lands on a weekend.
pub proof fn lemma_next_business_day_not_weekend(d: int)
    ensures
        !weekend(next_business_day(d)),
        d <= next_business_day(d) <= d + 2,
{
    lemma_dow_bound(d);
    if saturday(d) {
        lemma_dow_shift(d, 2);
    } else if sunday(d) {
        lemma_dow_shift(d, 1);
    }
}

/// Shifting to the previous business day never lands on a weekend.
pub proof fn lemma_prev_business_day_not_weekend(d: int)
    ensures
        !weekend(prev_business_day(d)),
        d - 2 <= prev_business_day(d) <= d,
{
    lemma_dow_bound(d);
    if saturday(d) {
        lemma_dow_week_back(d);
        lemma_dow_shift(d - 7, 6);
    } else if sunday(d) {
        lemma_dow_week_back(d);
        lemma_dow_shift(d - 7, 5);
    }
}

/// On Monday through Friday both shifts are the identity; a Saturday or a
/// Sunday is mapped to the following Monday by the forward shift and to the
/// preceding Friday by the backward shift.
pub proof fn lemma_shift_weekday_identity(d: int)
    ensures
        !weekend(d) ==> next_business_day(d) == d && prev_business_day(d) == d,
        saturday(d) ==> next_business_day(d) == d + 2 && day_of_week(d + 2) == 1,
        saturday(d) ==> prev_business_day(d) == d - 1 && day_of_week(d - 1) == 5,
        sunday(d) ==> next_business_day(d) == d + 1 && day_of_week(d + 1) == 1,
        sunday(d) ==> prev_business_day(d) == d - 2 && day_of_week(d - 2) == 5,
{
    lemma_next_business_day_not_weekend(d);
    lemma_prev_business_day_not_weekend(d);
    if saturday(d) {
        lemma_dow_shift(d, 2);
        lemma_dow_week_back(d);
        lemma_dow_shift(d - 7, 6);
    } else if sunday(d) {
        lemma_dow_shift(d, 1);
        lemma_dow_week_back(d);
        lemma_dow_shift(d - 7, 5);
    }
}

/// Starting from a weekday, adding `n` business days never lands on a weekend
/// and moves at least `n` and at most `3 n` calendar days forward.
pub proof fn lemma_add_business_forward(d: int, n: nat)
    requires
        !weekend(d),
    ensures
        !weekend(add_business(d, n)),
        d + n <= add_business(d, n) <= d + 3 * n,
    decreases n,
{
    if n > 0 {
        lemma_add_business_forward(d, (n - 1) as nat);
        lemma_next_business_day_not_weekend(add_business(d, (n - 1) as nat) + 1);
    }
}

/// Starting from a weekday, subtracting `n` business days never lands on a
/// weekend and moves at least `n` and at most `3 n` calendar days backward.
pub proof fn lemma_sub_business_backward(d: int, n: nat)
    requires
        !weekend(d),
    ensures
        !weekend(sub_business(d, n)),
        d - 3 * n <= sub_business(d, n) <= d - n,
    decreases n,
{
    if n > 0 {
        lemma_sub_business_backward(d, (n - 1) as nat);
        lemma_prev_business_day_not_weekend(sub_business(d, (n - 1) as nat) - 1);
    }
}

/// Range of `add_business` from an arbitrary start, used for overflow bounds.
pub proof fn lemma_add_business_range(d: int, n: nat)
    ensures
        d <= add_business(d, n) <= d + 3 * n,
    decreases n,
{
    if n > 0 {
        lemma_add_business_range(d, (n - 1) as nat);
        lemma_next_business_day_not_weekend(add_business(d, (n - 1) as nat) + 1);
    }
}

/// Range of `sub_business` from an arbitrary start, used for overflow bounds.
pub proof fn lemma_sub_business_range(d: int, n: nat)
    ensures
        d - 3 * n <= sub_business(d, n) <= d,
    decreases n,
{
    if n > 0 {
        lemma_sub_business_range(d, (n - 1) as nat);
        lemma_prev_business_day_not_weekend(sub_business(d, (n - 1) as nat) - 1);
    }
}

/// The weekday of a date, executable form: 0 = Sunday through 6 = Saturday.
fn weekday_of(date: Day) -> (w: i64)
    ensures
        w == day_of_week(date as int),
{
    let m = match date.checked_rem_euclid(7) {
        Some(m) => m,
        None => 0,  // unreachable: the divisor is never zero
    };
    proof {
        lemma_mod_bound(date as int, 7);
        lemma_add_mod_noop(date as int, 4, 7);
        lemma_mod_bound(4int, 7);
        lemma_mod_bound(date as int + 4, 7);
    }
    (m + 4) % 7
}

fn is_saturday(date: Day) -> (r: bool)
    ensures
        r == saturday(date as int),
{
    weekday_of(date) == 6
}

fn is_sunday(date: Day) -> (r: bool)
    ensures
        r == sunday(date as int),
{
    weekday_of(date) == 0
}

/// If the date falls on a Saturday or a Sunday, move it forward to the
/// following Monday; otherwise return it unchanged.
pub fn shift_to_first_next_business_day(date: Day) -> (r: Day)
    requires
        date + 2 <= i64::MAX,
    ensures
        r == next_business_day(date as int),
{
    if is_saturday(date) {
        date + 2
    } else if is_sunday(date) {
        date + 1
    } else {
        date
    }
}

/// If the date falls on a Saturday or a Sunday, move it backward to the
/// preceding Friday; otherwise return it unchanged.
pub fn shift_to_first_prev_business_day(date: Day) -> (r: Day)
    requires
        date - 2 >= i64::MIN,
    ensures
        r == prev_business_day(date as int),
{
    if is_saturday(date) {
        date - 1
    } else if is_sunday(date) {
        date - 2
    } else {
        date
    }
}

/// Advance `duration` business days: each step moves one calendar day forward
/// and then shifts off a weekend, so weekends are skipped, never counted.
pub fn add_business_days(date: Day, duration: usize) -> (r: Day)
    requires
        date + 3 * duration <= i64::MAX,
    ensures
        r == add_business(date as int, duration as nat),
{
    let mut acc: Day = date;
    let mut i: usize = 0;
    while i < duration
        invariant
            i <= duration,
            acc == add_business(date as int, i as nat),
            date <= acc <= date + 3 * i,
            date + 3 * duration <= i64::MAX,
        decreases duration - i,
    {
        proof {
            lemma_next_business_day_not_weekend(acc + 1);
        }
        acc = shift_to_first_next_business_day(acc + 1);
        i = i + 1;
    }
    acc
}

/// Step `duration` business days backward, the mirror image of
/// `add_business_days`.
pub fn sub_business_days(date: Day, duration: usize) -> (r: Day)
    requires
        date - 3 * duration >= i64::MIN,
    ensures
        r == sub_business(date as int, duration as nat),
{
    let mut acc: Day = date;
    let mut i: usize = 0;
    while i < duration
        invariant
            i <= duration,
            acc == sub_business(date as int, i as nat),
            date - 3 * i <= acc <= date,
            date - 3 * duration >= i64::MIN,
        decreases duration - i,
    {
        proof {
            lemma_prev_business_day_not_weekend(acc - 1);
        }
        acc = shift_to_first_prev_business_day(acc - 1);
        i = i + 1;
    }
    acc
}

} // verus!
