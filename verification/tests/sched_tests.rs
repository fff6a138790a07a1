use bot_rs::datetime::{next_second, DateTime};
use bot_rs::sched::{SchedError, Scheduler};

fn dt(year: u16, month: u8, day: u8, hour: u8, minute: u8, second: u8) -> DateTime {
    DateTime { year, month, day, hour, minute, second }
}

/// Drive `ticks` one-second steps from `start` and count how often each of
/// the first two jobs fires.
fn run_window(s: &mut Scheduler, start: DateTime, ticks: usize) -> (usize, usize) {
    let mut clock = start;
    let mut fired_a = 0;
    let mut fired_b = 0;
    for _ in 0..ticks {
        clock = next_second(&clock);
        for id in s.tick(&clock) {
            if id == 0 {
                fired_a += 1;
            } else if id == 1 {
                fired_b += 1;
            }
        }
    }
    (fired_a, fired_b)
}

#[test]
fn registration_returns_ids_in_order() {
    let mut s = Scheduler::new();
    let now = dt(2026, 3, 10, 10, 0, 30);
    assert_eq!(s.add("0 * * * * * *", &now), Ok(0));
    assert_eq!(s.add("0 0 * * * * *", &now), Ok(1));
    assert_eq!(s.job_count(), 2);
}

#[test]
fn first_fire_time_is_strictly_after_registration() {
    let mut s = Scheduler::new();
    let now = dt(2026, 3, 10, 10, 0, 30);
    let id = s.add("0 * * * * * *", &now).unwrap();
    assert_eq!(s.next_fire_time(id), Some(dt(2026, 3, 10, 10, 1, 0)));
}

#[test]
fn invalid_expression_leaves_the_job_set_unchanged() {
    let mut s = Scheduler::new();
    let now = dt(2026, 3, 10, 10, 0, 30);
    assert_eq!(s.add("99 * * * * * *", &now), Err(SchedError::InvalidSchedule));
    assert_eq!(s.job_count(), 0);
    assert_eq!(s.next_fire_time(0), None);
}

#[test]
fn wrong_field_count_leaves_the_job_set_unchanged() {
    let mut s = Scheduler::new();
    let now = dt(2026, 3, 10, 10, 0, 30);
    assert_eq!(s.add("0 * * * *", &now), Err(SchedError::InvalidSchedule));
    assert_eq!(s.add("0 60 * * * * *", &now), Err(SchedError::InvalidSchedule));
    assert_eq!(s.job_count(), 0);
}

#[test]
fn unreachable_schedule_is_reported_at_registration() {
    let mut s = Scheduler::new();
    let now = dt(2026, 3, 10, 10, 0, 30);
    assert_eq!(s.add("0 0 0 1 1 * 2020", &now), Err(SchedError::NeverFires));
    assert_eq!(s.job_count(), 0);
}

#[test]
fn start_is_idempotent() {
    let mut s = Scheduler::new();
    assert!(!s.is_running());
    s.start();
    assert!(s.is_running());
    s.start();
    assert!(s.is_running());
    let now = dt(2026, 3, 10, 10, 0, 30);
    assert_eq!(s.add("0 * * * * * *", &now), Ok(0));
    assert_eq!(s.job_count(), 1);
}

#[test]
fn three_minutes_give_three_per_minute_fires_and_no_hourly_fire() {
    let mut s = Scheduler::new();
    let start = dt(2026, 3, 10, 10, 0, 30);
    assert_eq!(s.add("0 * * * * * *", &start), Ok(0));
    assert_eq!(s.add("0 0 * * * * *", &start), Ok(1));
    s.start();
    let (fired_a, fired_b) = run_window(&mut s, start, 180);
    assert_eq!(fired_a, 3);
    assert_eq!(fired_b, 0);
}

#[test]
fn a_failing_sibling_cannot_keep_a_job_from_firing() {
    let mut s = Scheduler::new();
    let start = dt(2026, 3, 10, 10, 0, 30);
    assert_eq!(s.add("* * * * * * *", &start), Ok(0));
    assert_eq!(s.add("0,30 * * * * * *", &start), Ok(1));
    s.start();
    let mut clock = start;
    let mut failures_a = 0;
    let mut fired_b = 0;
    for _ in 0..120 {
        clock = next_second(&clock);
        for id in s.tick(&clock) {
            if id == 0 {
                // The host treats every run of job 0 as a failed handler.
                failures_a += 1;
            } else {
                fired_b += 1;
            }
        }
    }
    assert_eq!(failures_a, 120);
    assert_eq!(fired_b, 4);
}

#[test]
fn an_outstanding_handler_does_not_delay_a_due_sibling() {
    let mut s = Scheduler::new();
    let start = dt(2026, 3, 10, 10, 0, 30);
    assert_eq!(s.add("15 * * * * * *", &start), Ok(0));
    assert_eq!(s.add("0 * * * * * *", &start), Ok(1));
    s.start();
    let mut clock = start;
    let mut outstanding_a = 0;
    let mut b_fire_ticks = Vec::new();
    for step in 1..=120usize {
        clock = next_second(&clock);
        for id in s.tick(&clock) {
            if id == 0 {
                // The host dispatches job 0 and it never completes; the
                // core is not waiting on it.
                outstanding_a += 1;
            } else {
                b_fire_ticks.push(step);
            }
        }
    }
    assert_eq!(outstanding_a, 2);
    // Job 1 fires exactly at its own due ticks: 30 s and 90 s into the window.
    assert_eq!(b_fire_ticks, vec![30, 90]);
}

#[test]
fn no_refire_within_the_same_second() {
    let mut s = Scheduler::new();
    let start = dt(2026, 3, 10, 10, 0, 30);
    assert_eq!(s.add("0 * * * * * *", &start), Ok(0));
    let due = dt(2026, 3, 10, 10, 1, 0);
    let first = s.tick(&due);
    assert_eq!(first, vec![0]);
    let second = s.tick(&due);
    assert!(second.is_empty());
    assert_eq!(s.next_fire_time(0), Some(dt(2026, 3, 10, 10, 2, 0)));
}

#[test]
fn jobs_added_after_start_are_scheduled() {
    let mut s = Scheduler::new();
    let start = dt(2026, 3, 10, 10, 0, 30);
    s.start();
    assert_eq!(s.add("0 * * * * * *", &start), Ok(0));
    let (fired_a, _) = run_window(&mut s, start, 60);
    assert_eq!(fired_a, 1);
}
