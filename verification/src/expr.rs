//! Cron schedules as data: one sorted set of admitted values per field, and
//! what it means for an instant to match a schedule.

use vstd::prelude::*;
use crate::datetime::{DateTime, dow_of, YEAR_MIN, YEAR_MAX};

verus! {

/// One cron field: the values it admits, sorted strictly ascending.
#[derive(Debug)]
pub struct CronField {
    pub allowed: Vec<u16>,
}

impl CronField {
    /// Well-formed within the field's range: nonempty, sorted strictly
    /// ascending, every value between `lo` and `hi`.
    pub open spec fn wf(self, lo: int, hi: int) -> bool {
        &&& self.allowed@.len() > 0
        &&& forall|i: int|
            0 <= i < self.allowed@.len() ==> lo <= #[trigger] self.allowed@[i] <= hi
        &&& forall|i: int, j: int|
            0 <= i < j < self.allowed@.len() ==> #[trigger] self.allowed@[i] < #[trigger] self.allowed@[j]
    }

    /// The field admits the value `v`.
    pub open spec fn admits(self, v: int) -> bool {
        exists|i: int| 0 <= i < self.allowed@.len() && #[trigger] self.allowed@[i] == v
    }

    /// Membership test.
    pub fn contains(&self, v: u16) -> (r: bool)
        ensures
            r == self.admits(v as int),
    {
        let n = self.allowed.len();
        let mut i: usize = 0;
        while i < n
            invariant
                0 <= i <= n,
                n == self.allowed@.len(),
                forall|k: int| 0 <= k < i ==> #[trigger] self.allowed@[k] != v,
            decreases n - i,
        {
            if self.allowed[i] == v {
                return true;
            }
            i = i + 1;
        }
        false
    }

    /// The least admitted value, assuming well-formedness in some range.
    pub fn least(&self) -> (r: u16)
        requires
            self.allowed@.len() > 0,
        ensures
            self.admits(r as int),
            r == self.allowed@[0],
    {
        self.allowed[0]
    }

    /// The least admitted value at or above `v`, if any.
    pub fn next_at_or_after(&self, v: u16) -> (r: Option<u16>)
        ensures
            r == field_next_ge(*self, v as int),
    {
        let n = self.allowed.len();
        let mut i: usize = 0;
        while i < n
            invariant
                0 <= i <= n,
                n == self.allowed@.len(),
                next_ge_idx(self.allowed@, 0, v as int) == next_ge_idx(self.allowed@, i as int, v as int),
            decreases n - i,
        {
            if self.allowed[i] >= v {
                return Some(self.allowed[i]);
            }
            i = i + 1;
        }
        None
    }
}

/// The first element of `s` at index `i` or later that is at least `v`.
pub open spec fn next_ge_idx(s: Seq<u16>, i: int, v: int) -> Option<u16>
    decreases s.len() - i when 0 <= i <= s.len()
{
    if i >= s.len() {
        None
    } else if s[i] >= v {
        Some(s[i])
    } else {
        next_ge_idx(s, i + 1, v)
    }
}

/// The least value the field admits at or above `v`, if any.
pub open spec fn field_next_ge(f: CronField, v: int) -> Option<u16> {
    next_ge_idx(f.allowed@, 0, v)
}

proof fn lemma_next_ge_idx(s: Seq<u16>, i: int, v: int)
    requires
        0 <= i <= s.len(),
        forall|p: int, q: int| 0 <= p < q < s.len() ==> #[trigger] s[p] < #[trigger] s[q],
    ensures
        next_ge_idx(s, i, v) is Some ==> exists|p: int|
            i <= p < s.len() && #[trigger] s[p] == next_ge_idx(s, i, v)->Some_0,
        next_ge_idx(s, i, v) is Some ==> next_ge_idx(s, i, v)->Some_0 >= v,
        next_ge_idx(s, i, v) is Some ==> forall|p: int|
            i <= p < s.len() && #[trigger] s[p] >= v ==> s[p] >= next_ge_idx(s, i, v)->Some_0,
        next_ge_idx(s, i, v) is None ==> forall|p: int| i <= p < s.len() ==> #[trigger] s[p] < v,
    decreases s.len() - i,
{
    if i < s.len() && s[i] < v {
        lemma_next_ge_idx(s, i + 1, v);
    }
}

/// Every admitted value lies within the field's range.
pub proof fn lemma_admits_bounds(f: CronField, lo: int, hi: int, v: int)
    requires
        f.wf(lo, hi),
        f.admits(v),
    ensures
        lo <= v <= hi,
{
    let i = choose|i: int| 0 <= i < f.allowed@.len() && #[trigger] f.allowed@[i] == v;
    assert(lo <= f.allowed@[i] <= hi);
}

/// The field's first listed value is its least admitted value.
pub proof fn lemma_least_admitted(f: CronField, lo: int, hi: int, w: int)
    requires
        f.wf(lo, hi),
        f.admits(w),
    ensures
        f.allowed@[0] <= w,
{
    let i = choose|i: int| 0 <= i < f.allowed@.len() && #[trigger] f.allowed@[i] == w;
    if i > 0 {
        assert(f.allowed@[0] < f.allowed@[i]);
    }
}

/// What `field_next_ge` returns: an admitted value, the least one at or
/// above `v`; or a witness that no admitted value is at or above `v`.
pub proof fn lemma_field_next_ge(f: CronField, lo: int, hi: int, v: int)
    requires
        f.wf(lo, hi),
    ensures
        field_next_ge(f, v) is Some ==> f.admits(field_next_ge(f, v)->Some_0 as int),
        field_next_ge(f, v) is Some ==> field_next_ge(f, v)->Some_0 >= v,
        field_next_ge(f, v) is Some ==> forall|w: int|
            f.admits(w) && w >= v ==> w >= field_next_ge(f, v)->Some_0,
        field_next_ge(f, v) is None ==> forall|w: int| f.admits(w) ==> w < v,
{
    lemma_next_ge_idx(f.allowed@, 0, v);
    if field_next_ge(f, v) is Some {
        let x = field_next_ge(f, v)->Some_0;
        assert forall|w: int| f.admits(w) && w >= v implies w >= x by {
            let p = choose|p: int| 0 <= p < f.allowed@.len() && #[trigger] f.allowed@[p] == w;
            assert(f.allowed@[p] >= v);
        }
    } else {
        assert forall|w: int| f.admits(w) implies w < v by {
            let p = choose|p: int| 0 <= p < f.allowed@.len() && #[trigger] f.allowed@[p] == w;
            assert(f.allowed@[p] < v);
        }
    }
}

/// A parsed seven-field cron schedule.
#[derive(Debug)]
pub struct CronExpr {
    pub second: CronField,
    pub minute: CronField,
    pub hour: CronField,
    pub dom: CronField,
    pub month: CronField,
    pub dow: CronField,
    pub year: CronField,
}

impl CronExpr {
    pub open spec fn wf(self) -> bool {
        &&& self.second.wf(0, 59)
        &&& self.minute.wf(0, 59)
        &&& self.hour.wf(0, 23)
        &&& self.dom.wf(1, 31)
        &&& self.month.wf(1, 12)
        &&& self.dow.wf(0, 6)
        &&& self.year.wf(YEAR_MIN as int, YEAR_MAX as int)
    }

    /// The date fields all match the given calendar date.
    pub open spec fn date_matches(self, y: int, m: int, d: int) -> bool {
        &&& self.year.admits(y)
        &&& self.month.admits(m)
        &&& self.dom.admits(d)
        &&& self.dow.admits(dow_of(y, m, d))
    }

    /// The whole schedule matches the given instant: every field admits its
    /// component, the day of week included.
    pub open spec fn fire_matches(self, t: DateTime) -> bool {
        &&& self.date_matches(t.year as int, t.month as int, t.day as int)
        &&& self.hour.admits(t.hour as int)
        &&& self.minute.admits(t.minute as int)
        &&& self.second.admits(t.second as int)
    }
}

} // verus!
