//! Computing the next fire instant of a schedule: the least instant strictly
//! after a given one whose second, minute, hour, date and weekday are all
//! admitted by the schedule, searching day by day up to the calendar horizon.

use vstd::prelude::*;
use crate::datetime::{
    DateTime, day_index, days_before_year, dt_key, lemma_day_index_in_year, lemma_day_index_inj,
    lemma_day_index_next, lemma_days_before_year_bound, lemma_days_before_year_mono, next_date,
    next_date_spec, valid_date, valid_dt, day_of_week, YEAR_MAX,
};
use crate::expr::{
    field_next_ge, lemma_admits_bounds, lemma_field_next_ge, lemma_least_admitted, CronExpr,
};

verus! {

/// More days than the whole calendar range holds, so a day-by-day search
/// bounded by it is cut short only by running past the last year.
pub const HORIZON_DAYS: u32 = 48000;

/// The earliest admitted time of day strictly after `h:mi:sec`, if any.
pub open spec fn spec_next_tod(e: CronExpr, h: int, mi: int, sec: int) -> Option<(u16, u16, u16)> {
    if e.hour.admits(h) && e.minute.admits(mi) && field_next_ge(e.second, sec + 1) is Some {
        Some((h as u16, mi as u16, field_next_ge(e.second, sec + 1)->Some_0))
    } else if e.hour.admits(h) && field_next_ge(e.minute, mi + 1) is Some {
        Some((h as u16, field_next_ge(e.minute, mi + 1)->Some_0, e.second.allowed@[0]))
    } else if field_next_ge(e.hour, h + 1) is Some {
        Some((field_next_ge(e.hour, h + 1)->Some_0, e.minute.allowed@[0], e.second.allowed@[0]))
    } else {
        None
    }
}

/// The first date at or after `(y, m, d)` whose date fields match, searching
/// at most `fuel` days and never past the last modelled year.
pub open spec fn spec_search(e: CronExpr, y: int, m: int, d: int, fuel: nat) -> Option<(int, int, int)>
    decreases fuel
{
    if fuel == 0 || y > YEAR_MAX {
        None
    } else if e.date_matches(y, m, d) {
        Some((y, m, d))
    } else {
        let nd = next_date_spec(y, m, d);
        spec_search(e, nd.0, nd.1, nd.2, (fuel - 1) as nat)
    }
}

/// The least instant strictly after `now` that the schedule matches, or
/// `None` if there is none up to the end of the calendar range.
pub open spec fn spec_next_fire(e: CronExpr, now: DateTime) -> Option<DateTime> {
    if e.date_matches(now.year as int, now.month as int, now.day as int)
        && spec_next_tod(e, now.hour as int, now.minute as int, now.second as int) is Some {
        let tod = spec_next_tod(e, now.hour as int, now.minute as int, now.second as int)->Some_0;
        Some(DateTime {
            year: now.year,
            month: now.month,
            day: now.day,
            hour: tod.0 as u8,
            minute: tod.1 as u8,
            second: tod.2 as u8,
        })
    } else {
        let nd = next_date_spec(now.year as int, now.month as int, now.day as int);
        match spec_search(e, nd.0, nd.1, nd.2, HORIZON_DAYS as nat) {
            Some(rd) => Some(DateTime {
                year: rd.0 as u16,
                month: rd.1 as u8,
                day: rd.2 as u8,
                hour: e.hour.allowed@[0] as u8,
                minute: e.minute.allowed@[0] as u8,
                second: e.second.allowed@[0] as u8,
            }),
            None => None,
        }
    }
}

/// All four date fields match the given date.
fn date_matches_x(e: &CronExpr, y: u16, m: u8, d: u8) -> (r: bool)
    requires
        e.wf(),
        valid_date(y as int, m as int, d as int),
    ensures
        r == e.date_matches(y as int, m as int, d as int),
{
    let w = day_of_week(y, m, d);
    e.year.contains(y) && e.month.contains(m as u16) && e.dom.contains(d as u16)
        && e.dow.contains(w as u16)
}

/// The earliest admitted time of day strictly after `h:mi:sec`.
fn next_tod(e: &CronExpr, h: u8, mi: u8, sec: u8) -> (r: Option<(u16, u16, u16)>)
    requires
        e.wf(),
    ensures
        r == spec_next_tod(*e, h as int, mi as int, sec as int),
{
    if e.hour.contains(h as u16) && e.minute.contains(mi as u16) {
        if let Some(x) = e.second.next_at_or_after(sec as u16 + 1) {
            return Some((h as u16, mi as u16, x));
        }
    }
    if e.hour.contains(h as u16) {
        if let Some(x) = e.minute.next_at_or_after(mi as u16 + 1) {
            return Some((h as u16, x, e.second.least()));
        }
    }
    if let Some(x) = e.hour.next_at_or_after(h as u16 + 1) {
        return Some((x, e.minute.least(), e.second.least()));
    }
    None
}

/// Compute the next fire instant of `e` strictly after `now`.
#[verifier::loop_isolation(false)]
pub fn next_fire(e: &CronExpr, now: &DateTime) -> (r: Option<DateTime>)
    requires
        e.wf(),
        valid_dt(*now),
    ensures
        r == spec_next_fire(*e, *now),
{
    if date_matches_x(e, now.year, now.month, now.day) {
        if let Some(tod) = next_tod(e, now.hour, now.minute, now.second) {
            return Some(DateTime {
                year: now.year,
                month: now.month,
                day: now.day,
                hour: tod.0 as u8,
                minute: tod.1 as u8,
                second: tod.2 as u8,
            });
        }
    }
    let nd = next_date(now.year, now.month, now.day);
    let mut y = nd.0;
    let mut m = nd.1;
    let mut d = nd.2;
    let mut fuel: u32 = HORIZON_DAYS;
    loop
        invariant
            valid_date(y as int, m as int, d as int) || (y == YEAR_MAX + 1 && m == 1 && d == 1),
            spec_search(*e, nd.0 as int, nd.1 as int, nd.2 as int, HORIZON_DAYS as nat)
                == spec_search(*e, y as int, m as int, d as int, fuel as nat),
        decreases fuel,
    {
        if fuel == 0 || y > YEAR_MAX {
            return None;
        }
        if date_matches_x(e, y, m, d) {
            return Some(DateTime {
                year: y,
                month: m,
                day: d,
                hour: (e.hour.least() as u8),
                minute: (e.minute.least() as u8),
                second: (e.second.least() as u8),
            });
        }
        let nx = next_date(y, m, d);
        y = nx.0;
        m = nx.1;
        d = nx.2;
        fuel = fuel - 1;
    }
}

/// A date the search returns is valid, matches the date fields, and lies at
/// or after the date the search started from.
proof fn lemma_search_sound(e: CronExpr, y: int, m: int, d: int, fuel: nat)
    requires
        e.wf(),
        valid_date(y, m, d) || (y == YEAR_MAX + 1 && m == 1 && d == 1),
        spec_search(e, y, m, d, fuel) is Some,
    ensures
        ({
            let rd = spec_search(e, y, m, d, fuel)->Some_0;
            &&& valid_date(rd.0, rd.1, rd.2)
            &&& e.date_matches(rd.0, rd.1, rd.2)
            &&& day_index(rd.0, rd.1, rd.2) >= day_index(y, m, d)
        }),
    decreases fuel,
{
    if !(fuel == 0 || y > YEAR_MAX) && !e.date_matches(y, m, d) {
        let nd = next_date_spec(y, m, d);
        lemma_day_index_next(y, m, d);
        lemma_search_sound(e, nd.0, nd.1, nd.2, (fuel - 1) as nat);
    }
}

/// Whatever the computation returns is a valid instant that the schedule
/// matches and that lies strictly after `now`: the first fire time computed
/// at registration, and every recomputed one, obeys every field constraint
/// and moves the schedule strictly forward.
pub proof fn lemma_next_fire_sound(e: CronExpr, now: DateTime)
    requires
        e.wf(),
        valid_dt(now),
        spec_next_fire(e, now) is Some,
    ensures
        ({
            let r = spec_next_fire(e, now)->Some_0;
            &&& valid_dt(r)
            &&& e.fire_matches(r)
            &&& dt_key(r) > dt_key(now)
        }),
{
    let h = now.hour as int;
    let mi = now.minute as int;
    let sec = now.second as int;
    lemma_field_next_ge(e.second, 0, 59, sec + 1);
    lemma_field_next_ge(e.minute, 0, 59, mi + 1);
    lemma_field_next_ge(e.hour, 0, 23, h + 1);
    assert(e.second.admits(e.second.allowed@[0] as int));
    assert(e.minute.admits(e.minute.allowed@[0] as int));
    assert(e.hour.admits(e.hour.allowed@[0] as int));
    if e.date_matches(now.year as int, now.month as int, now.day as int)
        && spec_next_tod(e, h, mi, sec) is Some {
        let tod = spec_next_tod(e, h, mi, sec)->Some_0;
        let r = spec_next_fire(e, now)->Some_0;
        if e.hour.admits(h) && e.minute.admits(mi) && field_next_ge(e.second, sec + 1) is Some {
            let x = field_next_ge(e.second, sec + 1)->Some_0;
            lemma_admits_bounds(e.second, 0, 59, x as int);
        } else if e.hour.admits(h) && field_next_ge(e.minute, mi + 1) is Some {
            let x = field_next_ge(e.minute, mi + 1)->Some_0;
            lemma_admits_bounds(e.minute, 0, 59, x as int);
            lemma_admits_bounds(e.second, 0, 59, e.second.allowed@[0] as int);
        } else {
            let x = field_next_ge(e.hour, h + 1)->Some_0;
            lemma_admits_bounds(e.hour, 0, 23, x as int);
            lemma_admits_bounds(e.minute, 0, 59, e.minute.allowed@[0] as int);
            lemma_admits_bounds(e.second, 0, 59, e.second.allowed@[0] as int);
        }
    } else {
        let nd = next_date_spec(now.year as int, now.month as int, now.day as int);
        lemma_day_index_next(now.year as int, now.month as int, now.day as int);
        lemma_search_sound(e, nd.0, nd.1, nd.2, HORIZON_DAYS as nat);
        let rd = spec_search(e, nd.0, nd.1, nd.2, HORIZON_DAYS as nat)->Some_0;
        lemma_admits_bounds(e.hour, 0, 23, e.hour.allowed@[0] as int);
        lemma_admits_bounds(e.minute, 0, 59, e.minute.allowed@[0] as int);
        lemma_admits_bounds(e.second, 0, 59, e.second.allowed@[0] as int);
        let r = spec_next_fire(e, now)->Some_0;
        assert(day_index(r.year as int, r.month as int, r.day as int) > day_index(
            now.year as int,
            now.month as int,
            now.day as int,
        ));
    }
}

/// The time-of-day search never skips an admitted time: if `th:tm:ts` is an
/// admitted time of day strictly after `h:mi:sec`, the search succeeds and
/// returns a time of day no later than `th:tm:ts`.
proof fn lemma_next_tod_min(e: CronExpr, h: int, mi: int, sec: int, th: int, tm: int, ts: int)
    requires
        e.wf(),
        0 <= h <= 23,
        0 <= mi <= 59,
        0 <= sec <= 59,
        0 <= th <= 23,
        0 <= tm <= 59,
        0 <= ts <= 59,
        e.hour.admits(th),
        e.minute.admits(tm),
        e.second.admits(ts),
        th * 3600 + tm * 60 + ts > h * 3600 + mi * 60 + sec,
    ensures
        spec_next_tod(e, h, mi, sec) is Some,
        ({
            let r = spec_next_tod(e, h, mi, sec)->Some_0;
            (r.0 as int) * 3600 + (r.1 as int) * 60 + (r.2 as int) <= th * 3600 + tm * 60 + ts
        }),
{
    lemma_field_next_ge(e.second, 0, 59, sec + 1);
    lemma_field_next_ge(e.minute, 0, 59, mi + 1);
    lemma_field_next_ge(e.hour, 0, 23, h + 1);
    if field_next_ge(e.second, sec + 1) is Some {
        lemma_admits_bounds(e.second, 0, 59, field_next_ge(e.second, sec + 1)->Some_0 as int);
    }
    if field_next_ge(e.minute, mi + 1) is Some {
        lemma_admits_bounds(e.minute, 0, 59, field_next_ge(e.minute, mi + 1)->Some_0 as int);
    }
    if field_next_ge(e.hour, h + 1) is Some {
        lemma_admits_bounds(e.hour, 0, 23, field_next_ge(e.hour, h + 1)->Some_0 as int);
    }
    assert(e.second.admits(e.second.allowed@[0] as int));
    lemma_admits_bounds(e.second, 0, 59, e.second.allowed@[0] as int);
    assert(e.minute.admits(e.minute.allowed@[0] as int));
    lemma_admits_bounds(e.minute, 0, 59, e.minute.allowed@[0] as int);
    lemma_least_admitted(e.second, 0, 59, ts);
    lemma_least_admitted(e.minute, 0, 59, tm);
    if th == h && tm == mi {
        assert(ts >= sec + 1);
        assert(field_next_ge(e.second, sec + 1) is Some);
        assert(field_next_ge(e.second, sec + 1)->Some_0 <= ts);
    } else if th == h {
        assert(tm > mi);
        if e.minute.admits(mi) && field_next_ge(e.second, sec + 1) is Some {
        } else {
            assert(tm >= mi + 1);
            assert(field_next_ge(e.minute, mi + 1) is Some);
            assert(field_next_ge(e.minute, mi + 1)->Some_0 <= tm);
        }
    } else {
        assert(th > h);
        if e.hour.admits(h) && e.minute.admits(mi) && field_next_ge(e.second, sec + 1) is Some {
        } else if e.hour.admits(h) && field_next_ge(e.minute, mi + 1) is Some {
        } else {
            assert(th >= h + 1);
            assert(field_next_ge(e.hour, h + 1) is Some);
            assert(field_next_ge(e.hour, h + 1)->Some_0 <= th);
        }
    }
}

/// The day search never skips a matching date: if `(ty, tm2, td)` is a valid
/// matching date no earlier than the start and within the fuel, the search
/// succeeds and stops at or before it.
proof fn lemma_search_min(e: CronExpr, y: int, m: int, d: int, fuel: nat, ty: int, tm2: int, td: int)
    requires
        e.wf(),
        valid_date(y, m, d) || (y == YEAR_MAX + 1 && m == 1 && d == 1),
        valid_date(ty, tm2, td),
        e.date_matches(ty, tm2, td),
        day_index(ty, tm2, td) >= day_index(y, m, d),
        fuel > day_index(ty, tm2, td) - day_index(y, m, d),
    ensures
        spec_search(e, y, m, d, fuel) is Some,
        ({
            let rd = spec_search(e, y, m, d, fuel)->Some_0;
            day_index(rd.0, rd.1, rd.2) <= day_index(ty, tm2, td)
        }),
    decreases fuel,
{
    if y > YEAR_MAX {
        lemma_day_index_in_year(ty, tm2, td);
        lemma_days_before_year_mono(ty + 1, YEAR_MAX as int + 1);
        assert(false);
    } else if e.date_matches(y, m, d) {
    } else {
        if day_index(ty, tm2, td) == day_index(y, m, d) {
            lemma_day_index_inj(y, m, d, ty, tm2, td);
            assert(false);
        }
        let nd = next_date_spec(y, m, d);
        lemma_day_index_next(y, m, d);
        assert(valid_date(nd.0, nd.1, nd.2) || (nd.0 == YEAR_MAX + 1 && nd.1 == 1 && nd.2 == 1));
        lemma_search_min(e, nd.0, nd.1, nd.2, (fuel - 1) as nat, ty, tm2, td);
    }
}

/// The computation never skips a fire instant, and so returns the least one:
/// if any valid instant strictly after `now` matches the schedule, the
/// computation succeeds and its result is at or before that instant.
/// Together with the soundness of the result this makes the computed value
/// the minimal matching instant strictly after `now`.
pub proof fn lemma_next_fire_minimal(e: CronExpr, now: DateTime, t: DateTime)
    requires
        e.wf(),
        valid_dt(now),
        valid_dt(t),
        e.fire_matches(t),
        dt_key(t) > dt_key(now),
    ensures
        spec_next_fire(e, now) is Some,
        dt_key(spec_next_fire(e, now)->Some_0) <= dt_key(t),
{
    let din = day_index(now.year as int, now.month as int, now.day as int);
    let dit = day_index(t.year as int, t.month as int, t.day as int);
    lemma_day_index_in_year(now.year as int, now.month as int, now.day as int);
    lemma_day_index_in_year(t.year as int, t.month as int, t.day as int);
    assert(dit >= din);
    if dit == din {
        lemma_day_index_inj(
            t.year as int,
            t.month as int,
            t.day as int,
            now.year as int,
            now.month as int,
            now.day as int,
        );
        assert(e.date_matches(now.year as int, now.month as int, now.day as int));
        lemma_next_tod_min(
            e,
            now.hour as int,
            now.minute as int,
            now.second as int,
            t.hour as int,
            t.minute as int,
            t.second as int,
        );
    } else {
        if e.date_matches(now.year as int, now.month as int, now.day as int)
            && spec_next_tod(e, now.hour as int, now.minute as int, now.second as int) is Some {
            lemma_next_fire_sound(e, now);
        } else {
            let nd = next_date_spec(now.year as int, now.month as int, now.day as int);
            lemma_day_index_next(now.year as int, now.month as int, now.day as int);
            lemma_days_before_year_mono(t.year as int + 1, YEAR_MAX as int + 1);
            lemma_days_before_year_bound(YEAR_MAX as int + 1);
            assert(dit < days_before_year(YEAR_MAX as int + 1));
            lemma_days_before_year_bound(now.year as int);
            assert(valid_date(nd.0, nd.1, nd.2) || (nd.0 == YEAR_MAX + 1 && nd.1 == 1 && nd.2
                == 1)) by {
                let y = now.year as int;
                let m = now.month as int;
                let d = now.day as int;
                if d < crate::datetime::days_in_month(y, m) {
                } else if m < 12 {
                    assert(crate::datetime::days_in_month(y, m + 1) >= 28);
                }
            }
            lemma_search_min(
                e,
                nd.0,
                nd.1,
                nd.2,
                HORIZON_DAYS as nat,
                t.year as int,
                t.month as int,
                t.day as int,
            );
            lemma_search_sound(e, nd.0, nd.1, nd.2, HORIZON_DAYS as nat);
            let rd = spec_search(e, nd.0, nd.1, nd.2, HORIZON_DAYS as nat)->Some_0;
            lemma_admits_bounds(e.hour, 0, 23, e.hour.allowed@[0] as int);
            lemma_admits_bounds(e.minute, 0, 59, e.minute.allowed@[0] as int);
            lemma_admits_bounds(e.second, 0, 59, e.second.allowed@[0] as int);
            lemma_least_admitted(e.hour, 0, 23, t.hour as int);
            lemma_least_admitted(e.minute, 0, 59, t.minute as int);
            lemma_least_admitted(e.second, 0, 59, t.second as int);
            let dir = day_index(rd.0, rd.1, rd.2);
            assert(dir <= dit);
            let r = spec_next_fire(e, now)->Some_0;
            assert(day_index(r.year as int, r.month as int, r.day as int) == dir);
        }
    }
}

/// Recomputing the next fire instant from one fixed instant is
/// deterministic: the same schedule and the same clock reading always give
/// the same result.
pub proof fn lemma_next_fire_deterministic(e: CronExpr, now: DateTime, r1: Option<DateTime>, r2: Option<DateTime>)
    requires
        r1 == spec_next_fire(e, now),
        r2 == spec_next_fire(e, now),
    ensures
        r1 == r2,
{
}

} // verus!
