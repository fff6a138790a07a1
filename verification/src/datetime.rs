//! Gregorian calendar instants at seconds resolution, and the arithmetic the
//! scheduler needs on them: day counting from the epoch, day-of-week,
//! successor dates and a total order on instants.

use vstd::prelude::*;

verus! {

/// One calendar instant: a Gregorian date plus a time of day.
#[derive(Clone, Copy, PartialEq, Eq, Structural, Debug)]
pub struct DateTime {
    pub year: u16,
    pub month: u8,
    pub day: u8,
    pub hour: u8,
    pub minute: u8,
    pub second: u8,
}

/// First year the calendar model covers (the epoch year).
pub const YEAR_MIN: u16 = 1970;

/// Last year the calendar model covers; schedules find no fire instant past it.
pub const YEAR_MAX: u16 = 2099;

pub open spec fn leap_year(y: int) -> bool {
    y % 4 == 0 && (y % 100 != 0 || y % 400 == 0)
}

pub open spec fn days_in_month(y: int, m: int) -> int {
    if m == 2 {
        if leap_year(y) {
            29
        } else {
            28
        }
    } else if m == 4 || m == 6 || m == 9 || m == 11 {
        30
    } else {
        31
    }
}

pub open spec fn valid_date(y: int, m: int, d: int) -> bool {
    &&& YEAR_MIN <= y <= YEAR_MAX
    &&& 1 <= m <= 12
    &&& 1 <= d <= days_in_month(y, m)
}

pub open spec fn valid_dt(t: DateTime) -> bool {
    &&& valid_date(t.year as int, t.month as int, t.day as int)
    &&& t.hour <= 23
    &&& t.minute <= 59
    &&& t.second <= 59
}

/// Days in year `y` that precede the first of month `m`.
pub open spec fn days_before_month(y: int, m: int) -> int
    decreases m when 1 <= m
{
    if m <= 1 {
        0
    } else {
        days_before_month(y, m - 1) + days_in_month(y, m - 1)
    }
}

/// Days that precede January 1st of year `y`, counted from the epoch.
pub open spec fn days_before_year(y: int) -> int
    decreases y - YEAR_MIN when YEAR_MIN <= y
{
    if y <= YEAR_MIN {
        0
    } else {
        days_before_year(y - 1) + if leap_year(y - 1) {
            366int
        } else {
            365int
        }
    }
}

/// Days since the epoch date (which itself has index 0).
pub open spec fn day_index(y: int, m: int, d: int) -> int {
    days_before_year(y) + days_before_month(y, m) + (d - 1)
}

/// Day of week, 0 = Sunday through 6 = Saturday; the epoch date was a Thursday.
pub open spec fn dow_of(y: int, m: int, d: int) -> int {
    (day_index(y, m, d) + 4) % 7
}

/// Total order on instants: seconds since the epoch instant.
pub open spec fn dt_key(t: DateTime) -> int {
    ((day_index(t.year as int, t.month as int, t.day as int) * 24 + t.hour as int) * 60
        + t.minute as int) * 60 + t.second as int
}

pub fn is_leap_year(y: u16) -> (r: bool)
    ensures
        r == leap_year(y as int),
{
    y % 4 == 0 && (y % 100 != 0 || y % 400 == 0)
}

pub fn month_days(y: u16, m: u8) -> (r: u8)
    requires
        1 <= m <= 12,
    ensures
        r as int == days_in_month(y as int, m as int),
{
    if m == 2 {
        if is_leap_year(y) {
            29
        } else {
            28
        }
    } else if m == 4 || m == 6 || m == 9 || m == 11 {
        30
    } else {
        31
    }
}

pub proof fn lemma_days_before_year_bound(y: int)
    requires
        YEAR_MIN <= y <= YEAR_MAX + 1,
    ensures
        0 <= days_before_year(y) <= 366 * (y - YEAR_MIN),
    decreases y - YEAR_MIN,
{
    if y > YEAR_MIN {
        lemma_days_before_year_bound(y - 1);
    }
}

proof fn lemma_days_before_month_bound(y: int, m: int)
    requires
        1 <= m <= 13,
    ensures
        0 <= days_before_month(y, m) <= 31 * (m - 1),
    decreases m,
{
    if m > 1 {
        lemma_days_before_month_bound(y, m - 1);
    }
}

/// Days since the epoch date, executably.
pub fn epoch_days(y: u16, m: u8, d: u8) -> (r: u32)
    requires
        valid_date(y as int, m as int, d as int),
    ensures
        r as int == day_index(y as int, m as int, d as int),
        r <= 47604,
{
    proof {
        lemma_days_before_year_bound(y as int);
        lemma_days_before_month_bound(y as int, m as int);
    }
    let mut acc: u32 = 0;
    let mut i: u16 = YEAR_MIN;
    while i < y
        invariant
            YEAR_MIN <= i <= y,
            y <= YEAR_MAX,
            acc as int == days_before_year(i as int),
            acc <= 366 * ((i - YEAR_MIN) as int),
        decreases y - i,
    {
        acc = acc + if is_leap_year(i) {
            366
        } else {
            365
        };
        i = i + 1;
        proof {
            lemma_days_before_year_bound(i as int);
        }
    }
    let mut j: u8 = 1;
    while j < m
        invariant
            1 <= j <= m,
            m <= 12,
            acc as int == days_before_year(y as int) + days_before_month(y as int, j as int),
            acc <= 366 * ((y - YEAR_MIN) as int) + 31 * ((j - 1) as int),
        decreases m - j,
    {
        acc = acc + month_days(y, j) as u32;
        j = j + 1;
        proof {
            lemma_days_before_month_bound(y as int, j as int);
        }
    }
    acc + (d - 1) as u32
}

/// Day of week, 0 = Sunday through 6 = Saturday.
pub fn day_of_week(y: u16, m: u8, d: u8) -> (r: u8)
    requires
        valid_date(y as int, m as int, d as int),
    ensures
        r as int == dow_of(y as int, m as int, d as int),
        r <= 6,
{
    ((epoch_days(y, m, d) + 4) % 7) as u8
}

/// The calendar date one day after the given one.
pub open spec fn next_date_spec(y: int, m: int, d: int) -> (int, int, int) {
    if d < days_in_month(y, m) {
        (y, m, d + 1)
    } else if m < 12 {
        (y, m + 1, 1)
    } else {
        (y + 1, 1, 1)
    }
}

/// One whole year's days, as the sum of its months.
pub proof fn lemma_days_in_year(y: int)
    ensures
        days_before_month(y, 13) == if leap_year(y) {
            366int
        } else {
            365int
        },
{
    assert(days_before_month(y, 1) == 0);
    assert(days_before_month(y, 2) == days_before_month(y, 1) + days_in_month(y, 1));
    assert(days_before_month(y, 3) == days_before_month(y, 2) + days_in_month(y, 2));
    assert(days_before_month(y, 4) == days_before_month(y, 3) + days_in_month(y, 3));
    assert(days_before_month(y, 5) == days_before_month(y, 4) + days_in_month(y, 4));
    assert(days_before_month(y, 6) == days_before_month(y, 5) + days_in_month(y, 5));
    assert(days_before_month(y, 7) == days_before_month(y, 6) + days_in_month(y, 6));
    assert(days_before_month(y, 8) == days_before_month(y, 7) + days_in_month(y, 7));
    assert(days_before_month(y, 9) == days_before_month(y, 8) + days_in_month(y, 8));
    assert(days_before_month(y, 10) == days_before_month(y, 9) + days_in_month(y, 9));
    assert(days_before_month(y, 11) == days_before_month(y, 10) + days_in_month(y, 10));
    assert(days_before_month(y, 12) == days_before_month(y, 11) + days_in_month(y, 11));
    assert(days_before_month(y, 13) == days_before_month(y, 12) + days_in_month(y, 12));
}

/// Moving to the next calendar date raises the day index by exactly one.
pub proof fn lemma_day_index_next(y: int, m: int, d: int)
    requires
        valid_date(y, m, d),
    ensures
        ({
            let nd = next_date_spec(y, m, d);
            day_index(nd.0, nd.1, nd.2) == day_index(y, m, d) + 1
        }),
{
    if d < days_in_month(y, m) {
    } else if m < 12 {
        assert(days_before_month(y, m + 1) == days_before_month(y, m) + days_in_month(y, m));
    } else {
        lemma_days_in_year(y);
        assert(days_before_month(y, 13) == days_before_month(y, 12) + days_in_month(y, 12));
        assert(days_before_year(y + 1) == days_before_year(y) + if leap_year(y) {
            366int
        } else {
            365int
        });
        assert(days_before_month(y + 1, 1) == 0);
    }
}

pub fn next_date(y: u16, m: u8, d: u8) -> (r: (u16, u8, u8))
    requires
        valid_date(y as int, m as int, d as int),
    ensures
        (r.0 as int, r.1 as int, r.2 as int) == next_date_spec(y as int, m as int, d as int),
        valid_date(r.0 as int, r.1 as int, r.2 as int) || (r.0 == YEAR_MAX + 1 && r.1 == 1 && r.2
            == 1),
{
    if d < month_days(y, m) {
        (y, m, d + 1)
    } else if m < 12 {
        (y, m + 1, 1)
    } else {
        (y + 1, 1, 1)
    }
}

/// Seconds since the epoch instant, executably.
pub fn key_of(t: &DateTime) -> (r: u64)
    requires
        valid_dt(*t),
    ensures
        r as int == dt_key(*t),
{
    let di = epoch_days(t.year, t.month, t.day) as u64;
    ((di * 24 + t.hour as u64) * 60 + t.minute as u64) * 60 + t.second as u64
}

/// Later months never mean fewer preceding days.
pub proof fn lemma_days_before_month_mono(y: int, a: int, b: int)
    requires
        1 <= a <= b <= 13,
    ensures
        days_before_month(y, a) <= days_before_month(y, b),
    decreases b - a,
{
    if a < b {
        lemma_days_before_month_mono(y, a, b - 1);
    }
}

/// A valid date's day index falls inside its own year's day range.
pub proof fn lemma_day_index_in_year(y: int, m: int, d: int)
    requires
        valid_date(y, m, d),
    ensures
        days_before_year(y) <= day_index(y, m, d),
        day_index(y, m, d) < days_before_year(y + 1),
{
    lemma_days_before_month_mono(y, 1, m);
    assert(days_before_month(y, m + 1) == days_before_month(y, m) + days_in_month(y, m));
    lemma_days_before_month_mono(y, m + 1, 13);
    lemma_days_in_year(y);
    assert(days_before_year(y + 1) == days_before_year(y) + if leap_year(y) {
        366int
    } else {
        365int
    });
}

/// The day index respects the calendar order of valid dates.
pub proof fn lemma_day_index_lex(y1: int, m1: int, d1: int, y2: int, m2: int, d2: int)
    requires
        valid_date(y1, m1, d1),
        valid_date(y2, m2, d2),
        y1 < y2 || (y1 == y2 && m1 < m2) || (y1 == y2 && m1 == m2 && d1 < d2),
    ensures
        day_index(y1, m1, d1) < day_index(y2, m2, d2),
{
    if y1 < y2 {
        lemma_day_index_in_year(y1, m1, d1);
        lemma_day_index_in_year(y2, m2, d2);
        lemma_days_before_year_mono(y1 + 1, y2);
    } else if m1 < m2 {
        assert(days_before_month(y1, m1 + 1) == days_before_month(y1, m1) + days_in_month(
            y1,
            m1,
        ));
        lemma_days_before_month_mono(y1, m1 + 1, m2);
    }
}

/// No two distinct valid dates share a day index.
pub proof fn lemma_day_index_inj(y1: int, m1: int, d1: int, y2: int, m2: int, d2: int)
    requires
        valid_date(y1, m1, d1),
        valid_date(y2, m2, d2),
        day_index(y1, m1, d1) == day_index(y2, m2, d2),
    ensures
        y1 == y2 && m1 == m2 && d1 == d2,
{
    if y1 < y2 || (y1 == y2 && m1 < m2) || (y1 == y2 && m1 == m2 && d1 < d2) {
        lemma_day_index_lex(y1, m1, d1, y2, m2, d2);
    } else if y2 < y1 || (y1 == y2 && m2 < m1) || (y1 == y2 && m1 == m2 && d2 < d1) {
        lemma_day_index_lex(y2, m2, d2, y1, m1, d1);
    }
}

/// More years never mean fewer preceding days.
pub proof fn lemma_days_before_year_mono(a: int, b: int)
    requires
        YEAR_MIN <= a <= b,
    ensures
        days_before_year(a) <= days_before_year(b),
    decreases b - a,
{
    if a < b {
        lemma_days_before_year_mono(a, b - 1);
    }
}

/// The calendar instant a count of seconds after the epoch instant.
pub fn from_epoch_seconds(secs: u64) -> (r: DateTime)
    requires
        secs as int / 86400 < days_before_year(YEAR_MAX as int + 1),
    ensures
        valid_dt(r),
        dt_key(r) == secs as int,
{
    let days: u64 = secs / 86400;
    let rem: u32 = (secs % 86400) as u32;
    let hour: u32 = rem / 3600;
    let minute: u32 = (rem % 3600) / 60;
    let second: u32 = rem % 60;
    let mut y: u16 = YEAR_MIN;
    let mut acc: u64 = 0;
    proof {
        lemma_days_before_year_bound(YEAR_MAX as int + 1);
    }
    let mut step: u64 = if is_leap_year(y) {
        366
    } else {
        365
    };
    while acc + step <= days
        invariant
            YEAR_MIN <= y,
            y <= YEAR_MAX,
            acc as int == days_before_year(y as int),
            acc <= days,
            step == if leap_year(y as int) {
                366u64
            } else {
                365u64
            },
            days < days_before_year(YEAR_MAX as int + 1),
            days_before_year(YEAR_MAX as int + 1) <= 366 * (YEAR_MAX + 1 - YEAR_MIN),
        decreases days - acc,
    {
        acc = acc + step;
        y = y + 1;
        proof {
            if y as int > YEAR_MAX as int {
                lemma_days_before_year_mono(YEAR_MAX as int + 1, y as int);
            }
        }
        step = if is_leap_year(y) {
            366
        } else {
            365
        };
    }
    let day_in_year: u32 = (days - acc) as u32;
    proof {
        assert(days_before_year(y as int + 1) == days_before_year(y as int) + if leap_year(
            y as int,
        ) {
            366int
        } else {
            365int
        });
        lemma_days_in_year(y as int);
        lemma_days_before_month_bound(y as int, 13);
    }
    let mut m: u8 = 1;
    let mut macc: u32 = 0;
    let mut mdim: u32 = month_days(y, m) as u32;
    while m < 12 && macc + mdim <= day_in_year
        invariant
            1 <= m <= 12,
            macc as int == days_before_month(y as int, m as int),
            mdim as int == days_in_month(y as int, m as int),
            macc <= day_in_year,
            day_in_year <= 365,
            mdim <= 31,
            (day_in_year as int) < days_before_month(y as int, 13),
        decreases 12 - m,
    {
        macc = macc + mdim;
        m = m + 1;
        mdim = month_days(y, m) as u32;
    }
    proof {
        if m < 12 {
        } else {
            assert(days_before_month(y as int, 13) == days_before_month(y as int, 12)
                + days_in_month(y as int, 12));
        }
    }
    let d: u8 = ((day_in_year - macc) as u8) + 1;
    DateTime {
        year: y,
        month: m,
        day: d,
        hour: hour as u8,
        minute: minute as u8,
        second: second as u8,
    }
}

/// The instant one second after the given one.
pub open spec fn next_second_spec(t: DateTime) -> DateTime {
    if t.second < 59 {
        DateTime { second: (t.second + 1) as u8, ..t }
    } else if t.minute < 59 {
        DateTime { minute: (t.minute + 1) as u8, second: 0, ..t }
    } else if t.hour < 23 {
        DateTime { hour: (t.hour + 1) as u8, minute: 0, second: 0, ..t }
    } else {
        let (y, m, d) = next_date_spec(t.year as int, t.month as int, t.day as int);
        DateTime { year: y as u16, month: m as u8, day: d as u8, hour: 0, minute: 0, second: 0 }
    }
}

pub fn next_second(t: &DateTime) -> (r: DateTime)
    requires
        valid_dt(*t),
    ensures
        r == next_second_spec(*t),
        r.year as int <= YEAR_MAX ==> valid_dt(r),
{
    if t.second < 59 {
        DateTime { second: t.second + 1, ..*t }
    } else if t.minute < 59 {
        DateTime { minute: t.minute + 1, second: 0, ..*t }
    } else if t.hour < 23 {
        DateTime { hour: t.hour + 1, minute: 0, second: 0, ..*t }
    } else {
        let (y, m, d) = next_date(t.year, t.month, t.day);
        DateTime { year: y, month: m, day: d, hour: 0, minute: 0, second: 0 }
    }
}

} // verus!
