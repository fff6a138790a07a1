use bot_rs::datetime::{day_of_week, next_second, DateTime};
use bot_rs::fire::next_fire;
use bot_rs::parse::parse_expr;

fn dt(year: u16, month: u8, day: u8, hour: u8, minute: u8, second: u8) -> DateTime {
    DateTime { year, month, day, hour, minute, second }
}

#[test]
fn epoch_was_a_thursday() {
    assert_eq!(day_of_week(1970, 1, 1), 4);
    assert_eq!(day_of_week(2026, 3, 10), 2); // a Tuesday
    assert_eq!(day_of_week(2000, 2, 29), 2); // leap day of 2000, a Tuesday
}

#[test]
fn next_second_carries_through_the_calendar() {
    assert_eq!(next_second(&dt(2026, 3, 10, 10, 0, 30)), dt(2026, 3, 10, 10, 0, 31));
    assert_eq!(next_second(&dt(2026, 3, 10, 10, 0, 59)), dt(2026, 3, 10, 10, 1, 0));
    assert_eq!(next_second(&dt(2026, 12, 31, 23, 59, 59)), dt(2027, 1, 1, 0, 0, 0));
    assert_eq!(next_second(&dt(2028, 2, 28, 23, 59, 59)), dt(2028, 2, 29, 0, 0, 0));
    assert_eq!(next_second(&dt(2027, 2, 28, 23, 59, 59)), dt(2027, 3, 1, 0, 0, 0));
}

#[test]
fn per_minute_schedule_fires_at_the_next_whole_minute() {
    let e = parse_expr("0 * * * * * *").unwrap();
    let r = next_fire(&e, &dt(2026, 3, 10, 10, 0, 30)).unwrap();
    assert_eq!(r, dt(2026, 3, 10, 10, 1, 0));
}

#[test]
fn per_minute_schedule_is_strictly_after_a_matching_now() {
    let e = parse_expr("0 * * * * * *").unwrap();
    let r = next_fire(&e, &dt(2026, 3, 10, 10, 1, 0)).unwrap();
    assert_eq!(r, dt(2026, 3, 10, 10, 2, 0));
}

#[test]
fn hourly_schedule_fires_at_the_next_whole_hour() {
    let e = parse_expr("0 0 * * * * *").unwrap();
    let r = next_fire(&e, &dt(2026, 3, 10, 10, 0, 30)).unwrap();
    assert_eq!(r, dt(2026, 3, 10, 11, 0, 0));
}

#[test]
fn day_rollover_to_first_of_next_month() {
    let e = parse_expr("0 0 0 1 * * *").unwrap();
    let r = next_fire(&e, &dt(2026, 3, 10, 12, 0, 0)).unwrap();
    assert_eq!(r, dt(2026, 4, 1, 0, 0, 0));
}

#[test]
fn leap_day_schedule_waits_for_a_leap_year() {
    let e = parse_expr("0 0 0 29 2 * *").unwrap();
    let r = next_fire(&e, &dt(2026, 1, 1, 0, 0, 0)).unwrap();
    assert_eq!(r, dt(2028, 2, 29, 0, 0, 0));
}

#[test]
fn weekday_schedule_finds_the_next_monday() {
    let e = parse_expr("0 0 0 * * mon *").unwrap();
    let r = next_fire(&e, &dt(2026, 3, 10, 5, 0, 0)).unwrap();
    assert_eq!(r, dt(2026, 3, 16, 0, 0, 0));
    assert_eq!(day_of_week(2026, 3, 16), 1);
}

#[test]
fn exhausted_year_gives_no_fire_instant() {
    let e = parse_expr("0 0 0 1 1 * 2020").unwrap();
    assert_eq!(next_fire(&e, &dt(2026, 1, 1, 0, 0, 0)), None);
}

#[test]
fn impossible_date_gives_no_fire_instant() {
    let e = parse_expr("0 0 0 31 2 * *").unwrap();
    assert_eq!(next_fire(&e, &dt(2026, 1, 1, 0, 0, 0)), None);
}

#[test]
fn stepped_seconds_take_the_nearest_step_not_a_later_one() {
    let e = parse_expr("*/15 * * * * * *").unwrap();
    let r = next_fire(&e, &dt(2026, 3, 10, 10, 0, 29)).unwrap();
    assert_eq!(r, dt(2026, 3, 10, 10, 0, 30));
    let r = next_fire(&e, &dt(2026, 3, 10, 10, 0, 30)).unwrap();
    assert_eq!(r, dt(2026, 3, 10, 10, 0, 45));
}

#[test]
fn year_bounded_schedule_fires_within_that_year() {
    let e = parse_expr("0 0 0 1 1 * 2027").unwrap();
    let r = next_fire(&e, &dt(2026, 3, 10, 10, 0, 30)).unwrap();
    assert_eq!(r, dt(2027, 1, 1, 0, 0, 0));
    assert_eq!(next_fire(&e, &dt(2027, 1, 1, 0, 0, 0)), None);
}

#[test]
fn recomputation_from_a_fixed_instant_is_deterministic() {
    let e = parse_expr("0 */5 * * * * *").unwrap();
    let now = dt(2026, 3, 10, 10, 2, 17);
    let first = next_fire(&e, &now);
    let second = next_fire(&e, &now);
    assert_eq!(first, second);
    assert_eq!(first.unwrap(), dt(2026, 3, 10, 10, 5, 0));
}
