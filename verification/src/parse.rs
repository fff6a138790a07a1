//! Parsing of seven-field cron expressions.
//!
//! The grammar is stated over the raw bytes of the expression: fields are
//! separated by single spaces, in the order second, minute, hour, day of
//! month, month, day of week, year. A field is a comma-separated list of
//! items; an item is `*`, a value, a range `a-b`, or a three-letter weekday
//! name in the day-of-week field, each optionally followed by a step `/n`.
//! The parser returns a schedule exactly when the bytes satisfy the grammar,
//! and the returned fields admit exactly the values the grammar admits.

use vstd::prelude::*;
use vstd::string::{StringSliceAdditionalSpecFns, StrSliceExecFns};
use crate::expr::{CronExpr, CronField};
use crate::datetime::{YEAR_MIN, YEAR_MAX};

verus! {

pub const SP: u8 = 32;
pub const STAR: u8 = 42;
pub const COMMA: u8 = 44;
pub const DASH: u8 = 45;
pub const SLASH: u8 = 47;

pub open spec fn is_digit(c: u8) -> bool {
    48 <= c <= 57
}

/// The first index in `[i, to)` holding `d`, or `to` if there is none.
pub open spec fn scan_to(s: Seq<u8>, i: int, to: int, d: u8) -> int
    decreases to - i when 0 <= i <= to <= s.len()
{
    if i >= to {
        to
    } else if s[i] == d {
        i
    } else {
        scan_to(s, i + 1, to, d)
    }
}

pub proof fn lemma_scan_to(s: Seq<u8>, i: int, to: int, d: u8)
    requires
        0 <= i <= to <= s.len(),
    ensures
        i <= scan_to(s, i, to, d) <= to,
        scan_to(s, i, to, d) < to ==> s[scan_to(s, i, to, d)] == d,
        forall|k: int| i <= k < scan_to(s, i, to, d) ==> s[k] != d,
    decreases to - i,
{
    if i < to && s[i] != d {
        lemma_scan_to(s, i + 1, to, d);
    }
}

/// A run of one to four digits.
pub open spec fn num_ok(s: Seq<u8>, i: int, j: int) -> bool {
    &&& 0 <= i < j <= s.len()
    &&& j - i <= 4
    &&& forall|k: int| i <= k < j ==> is_digit(#[trigger] s[k])
}

/// The decimal value of the digits in `[i, j)`.
pub open spec fn num_val(s: Seq<u8>, i: int, j: int) -> int
    decreases j - i when i <= j
{
    if j <= i {
        0
    } else {
        num_val(s, i, j - 1) * 10 + (s[j - 1] - 48)
    }
}

/// Case-insensitive three-letter weekday name starting at `i`:
/// 0 = sun through 6 = sat, or -1 if it is none of them.
pub open spec fn name_val(s: Seq<u8>, i: int) -> int {
    let a = s[i] | 32;
    let b = s[i + 1] | 32;
    let c = s[i + 2] | 32;
    if a == 115 && b == 117 && c == 110 {
        0
    } else if a == 109 && b == 111 && c == 110 {
        1
    } else if a == 116 && b == 117 && c == 101 {
        2
    } else if a == 119 && b == 101 && c == 100 {
        3
    } else if a == 116 && b == 104 && c == 117 {
        4
    } else if a == 102 && b == 114 && c == 105 {
        5
    } else if a == 115 && b == 97 && c == 116 {
        6
    } else {
        -1
    }
}

/// The step of the item `[i, j)`: the number after its `/`, or 1.
pub open spec fn item_step(s: Seq<u8>, i: int, j: int) -> int {
    let k = scan_to(s, i, j, SLASH);
    if k < j {
        num_val(s, k + 1, j)
    } else {
        1
    }
}

/// The base of the item `[i, j)` (the part before any `/`) is well formed.
/// `k` is the index of the `/`, or `j`.
pub open spec fn item_base_ok(s: Seq<u8>, i: int, k: int, j: int, lo: int, hi: int, names: bool) -> bool {
    if k == i + 1 && s[i] == STAR {
        true
    } else if num_ok(s, i, k) {
        lo <= num_val(s, i, k) <= hi
    } else if names && k == i + 3 && i + 3 <= s.len() && name_val(s, i) >= 0 {
        true
    } else {
        let m = scan_to(s, i, k, DASH);
        &&& m < k
        &&& num_ok(s, i, m)
        &&& num_ok(s, m + 1, k)
        &&& lo <= num_val(s, i, m)
        &&& num_val(s, i, m) <= num_val(s, m + 1, k)
        &&& num_val(s, m + 1, k) <= hi
    }
}

/// The inclusive span of values the item `[i, j)` covers.
pub open spec fn item_span(s: Seq<u8>, i: int, j: int, lo: int, hi: int, names: bool) -> (int, int) {
    let k = scan_to(s, i, j, SLASH);
    let stepped = k < j;
    if k == i + 1 && s[i] == STAR {
        (lo, hi)
    } else if num_ok(s, i, k) {
        let a = num_val(s, i, k);
        if stepped {
            (a, hi)
        } else {
            (a, a)
        }
    } else if names && k == i + 3 && i + 3 <= s.len() && name_val(s, i) >= 0 {
        let a = name_val(s, i);
        if stepped {
            (a, hi)
        } else {
            (a, a)
        }
    } else {
        let m = scan_to(s, i, k, DASH);
        (num_val(s, i, m), num_val(s, m + 1, k))
    }
}

/// The item `[i, j)` is well formed for a field ranging over `[lo, hi]`.
pub open spec fn item_ok(s: Seq<u8>, i: int, j: int, lo: int, hi: int, names: bool) -> bool {
    let k = scan_to(s, i, j, SLASH);
    &&& (k < j ==> num_ok(s, k + 1, j) && num_val(s, k + 1, j) >= 1)
    &&& item_base_ok(s, i, k, j, lo, hi, names)
}

/// The item `[i, j)` admits the value `v`.
pub open spec fn item_admits(s: Seq<u8>, i: int, j: int, lo: int, hi: int, names: bool, v: int) -> bool {
    let span = item_span(s, i, j, lo, hi, names);
    &&& span.0 <= v <= span.1
    &&& (v - span.0) % item_step(s, i, j) == 0
}

/// Every item of the comma-separated list `[i, to)` is well formed.
pub open spec fn field_ok_from(s: Seq<u8>, i: int, to: int, lo: int, hi: int, names: bool) -> bool
    decreases to - i when 0 <= i <= to <= s.len() via field_ok_from_dec
{
    let j = scan_to(s, i, to, COMMA);
    &&& item_ok(s, i, j, lo, hi, names)
    &&& (j < to ==> field_ok_from(s, j + 1, to, lo, hi, names))
}

#[via_fn]
proof fn field_ok_from_dec(s: Seq<u8>, i: int, to: int, lo: int, hi: int, names: bool) {
    lemma_scan_to(s, i, to, COMMA);
}

/// Some item of the comma-separated list `[i, to)` admits `v`.
pub open spec fn field_admits_from(s: Seq<u8>, i: int, to: int, lo: int, hi: int, names: bool, v: int) -> bool
    decreases to - i when 0 <= i <= to <= s.len() via field_admits_from_dec
{
    let j = scan_to(s, i, to, COMMA);
    ||| item_admits(s, i, j, lo, hi, names, v)
    ||| (j < to && field_admits_from(s, j + 1, to, lo, hi, names, v))
}

#[via_fn]
proof fn field_admits_from_dec(s: Seq<u8>, i: int, to: int, lo: int, hi: int, names: bool, v: int) {
    lemma_scan_to(s, i, to, COMMA);
}

/// The whole field `[from, to)` is well formed and admits at least one value.
pub open spec fn field_ok(s: Seq<u8>, from: int, to: int, lo: int, hi: int, names: bool) -> bool {
    &&& 0 <= from <= to <= s.len()
    &&& field_ok_from(s, from, to, lo, hi, names)
    &&& exists|v: int| lo <= v <= hi && field_admits_from(s, from, to, lo, hi, names, v)
}

/// Start of field `k` (0-based), counting space separators.
pub open spec fn fstart(s: Seq<u8>, k: int) -> int
    decreases k, 0int when 0 <= k
{
    if k <= 0 {
        0
    } else {
        fend(s, k - 1) + 1
    }
}

/// End of field `k`: the next space, or the end of the bytes.
pub open spec fn fend(s: Seq<u8>, k: int) -> int
    decreases k, 1int when 0 <= k
{
    scan_to(s, fstart(s, k), s.len() as int, SP)
}

/// The bytes form a well-formed seven-field cron expression.
pub open spec fn expr_ok(s: Seq<u8>) -> bool {
    &&& fend(s, 0) < s.len()
    &&& fend(s, 1) < s.len()
    &&& fend(s, 2) < s.len()
    &&& fend(s, 3) < s.len()
    &&& fend(s, 4) < s.len()
    &&& fend(s, 5) < s.len()
    &&& fend(s, 6) == s.len()
    &&& field_ok(s, fstart(s, 0), fend(s, 0), 0, 59, false)
    &&& field_ok(s, fstart(s, 1), fend(s, 1), 0, 59, false)
    &&& field_ok(s, fstart(s, 2), fend(s, 2), 0, 23, false)
    &&& field_ok(s, fstart(s, 3), fend(s, 3), 1, 31, false)
    &&& field_ok(s, fstart(s, 4), fend(s, 4), 1, 12, false)
    &&& field_ok(s, fstart(s, 5), fend(s, 5), 0, 6, true)
    &&& field_ok(s, fstart(s, 6), fend(s, 6), YEAR_MIN as int, YEAR_MAX as int, false)
}

/// The schedule `e` is the meaning of the expression bytes `s`: each of its
/// fields admits exactly the values the corresponding field of `s` admits.
pub open spec fn expr_from(e: CronExpr, s: Seq<u8>) -> bool {
    &&& e.wf()
    &&& forall|v: int| e.second.admits(v) <==> (0 <= v <= 59 && field_admits_from(s, fstart(s, 0), fend(s, 0), 0, 59, false, v))
    &&& forall|v: int| e.minute.admits(v) <==> (0 <= v <= 59 && field_admits_from(s, fstart(s, 1), fend(s, 1), 0, 59, false, v))
    &&& forall|v: int| e.hour.admits(v) <==> (0 <= v <= 23 && field_admits_from(s, fstart(s, 2), fend(s, 2), 0, 23, false, v))
    &&& forall|v: int| e.dom.admits(v) <==> (1 <= v <= 31 && field_admits_from(s, fstart(s, 3), fend(s, 3), 1, 31, false, v))
    &&& forall|v: int| e.month.admits(v) <==> (1 <= v <= 12 && field_admits_from(s, fstart(s, 4), fend(s, 4), 1, 12, false, v))
    &&& forall|v: int| e.dow.admits(v) <==> (0 <= v <= 6 && field_admits_from(s, fstart(s, 5), fend(s, 5), 0, 6, true, v))
    &&& forall|v: int| e.year.admits(v) <==> (YEAR_MIN <= v <= YEAR_MAX && field_admits_from(s, fstart(s, 6), fend(s, 6), YEAR_MIN as int, YEAR_MAX as int, false, v))
}

#[verifier::loop_isolation(false)]
fn scan_byte(s: &Vec<u8>, i: usize, to: usize, d: u8) -> (r: usize)
    requires
        i <= to <= s@.len(),
    ensures
        r as int == scan_to(s@, i as int, to as int, d),
        i <= r <= to,
    {
    let mut k = i;
    while k < to
        invariant
            i <= k <= to <= s@.len(),
            scan_to(s@, i as int, to as int, d) == scan_to(s@, k as int, to as int, d),
        decreases to - k,
    {
        if s[k] == d {
            return k;
        }
        k = k + 1;
    }
    k
}

#[verifier::loop_isolation(false)]
fn parse_num(s: &Vec<u8>, i: usize, j: usize) -> (r: Option<u16>)
    requires
        i <= j <= s@.len(),
    ensures
        r is Some <==> num_ok(s@, i as int, j as int),
        r is Some ==> r->Some_0 as int == num_val(s@, i as int, j as int) && r->Some_0 <= 9999,
{
    if i == j || j - i > 4 {
        return None;
    }
    let mut acc: u16 = 0;
    let mut k = i;
    while k < j
        invariant
            i <= k <= j,
            forall|t: int| i <= t < k ==> is_digit(#[trigger] s@[t]),
            acc as int == num_val(s@, i as int, k as int),
            k - i == 0 ==> acc == 0,
            k - i == 1 ==> acc <= 9,
            k - i == 2 ==> acc <= 99,
            k - i == 3 ==> acc <= 999,
            k - i == 4 ==> acc <= 9999,
        decreases j - k,
    {
        let c = s[k];
        if c < 48 || c > 57 {
            assert(!is_digit(s@[k as int]));
            return None;
        }
        acc = acc * 10 + (c - 48) as u16;
        k = k + 1;
    }
    Some(acc)
}

fn parse_name(s: &Vec<u8>, i: usize, k: usize) -> (r: Option<u16>)
    requires
        i <= k <= s@.len(),
    ensures
        r is Some <==> (k == i + 3 && name_val(s@, i as int) >= 0),
        r is Some ==> r->Some_0 as int == name_val(s@, i as int) && r->Some_0 <= 6,
{
    if k - i != 3 {
        return None;
    }
    let a = s[i] | 32;
    let b = s[i + 1] | 32;
    let c = s[i + 2] | 32;
    if a == 115 && b == 117 && c == 110 {
        Some(0)
    } else if a == 109 && b == 111 && c == 110 {
        Some(1)
    } else if a == 116 && b == 117 && c == 101 {
        Some(2)
    } else if a == 119 && b == 101 && c == 100 {
        Some(3)
    } else if a == 116 && b == 104 && c == 117 {
        Some(4)
    } else if a == 102 && b == 114 && c == 105 {
        Some(5)
    } else if a == 115 && b == 97 && c == 116 {
        Some(6)
    } else {
        None
    }
}

#[verifier::loop_isolation(false)]
fn parse_item(s: &Vec<u8>, i: usize, j: usize, lo: u16, hi: u16, names: bool, mask: &mut Vec<bool>) -> (ok: bool)
    requires
        i <= j <= s@.len(),
        lo <= hi,
        hi <= 2100,
        old(mask)@.len() == hi - lo + 1,
        names ==> lo == 0 && hi == 6,
    ensures
        ok == item_ok(s@, i as int, j as int, lo as int, hi as int, names),
        final(mask)@.len() == old(mask)@.len(),
        ok ==> forall|v: int|
            lo <= v <= hi ==> #[trigger] final(mask)@[v - lo] == (old(mask)@[v - lo]
                || item_admits(s@, i as int, j as int, lo as int, hi as int, names, v)),
        !ok ==> final(mask)@ == old(mask)@,
{
    let k = scan_byte(s, i, j, SLASH);
    let stepped = k < j;
    let mut step: u16 = 1;
    if stepped {
        match parse_num(s, k + 1, j) {
            Some(st) => {
                if st == 0 {
                    return false;
                }
                step = st;
            },
            None => {
                return false;
            },
        }
    }
    assert(step as int == item_step(s@, i as int, j as int));
    // Determine the admitted span [a, b].
    let a: u16;
    let b: u16;
    if k - i == 1 && s[i] == STAR {
        a = lo;
        b = hi;
    } else {
        match parse_num(s, i, k) {
            Some(n) => {
                if n < lo || hi < n {
                    return false;
                }
                a = n;
                b = if stepped {
                    hi
                } else {
                    n
                };
            },
            None => {
                let mut named = false;
                let mut nv: u16 = 0;
                if names {
                    match parse_name(s, i, k) {
                        Some(n) => {
                            named = true;
                            nv = n;
                        },
                        None => {
                        },
                    }
                }
                if named {
                    a = nv;
                    b = if stepped {
                        hi
                    } else {
                        nv
                    };
                } else {
                    let m = scan_byte(s, i, k, DASH);
                    if m == k {
                        return false;
                    }
                    let x = match parse_num(s, i, m) {
                        Some(x) => x,
                        None => {
                            return false;
                        },
                    };
                    let y = match parse_num(s, m + 1, k) {
                        Some(y) => y,
                        None => {
                            return false;
                        },
                    };
                    if x < lo || y < x || hi < y {
                        return false;
                    }
                    a = x;
                    b = y;
                }
            },
        }
    }
    assert(item_ok(s@, i as int, j as int, lo as int, hi as int, names));
    assert(item_span(s@, i as int, j as int, lo as int, hi as int, names) == (a as int, b as int));
    // Mark every admitted value.
    let mut v = lo;
    while v <= hi
        invariant
            lo <= v,
            v <= hi + 1,
            hi <= 2100,
            a <= b,
            step >= 1,
            mask@.len() == hi - lo + 1,
            step as int == item_step(s@, i as int, j as int),
            item_span(s@, i as int, j as int, lo as int, hi as int, names) == (a as int, b as int),
            forall|w: int|
                lo <= w < v ==> #[trigger] mask@[w - lo] == (old(mask)@[w - lo]
                    || item_admits(s@, i as int, j as int, lo as int, hi as int, names, w)),
            forall|w: int| v <= w <= hi ==> #[trigger] mask@[w - lo] == old(mask)@[w - lo],
        decreases hi + 1 - v,
    {
        if v >= a && v <= b && (v - a) % step == 0 {
            let idx = (v - lo) as usize;
            mask[idx] = true;
        }
        v = v + 1;
    }
    true
}

#[verifier::loop_isolation(false)]
fn parse_field(s: &Vec<u8>, from: usize, to: usize, lo: u16, hi: u16, names: bool) -> (r: Option<CronField>)
    requires
        from <= to <= s@.len(),
        lo <= hi,
        hi <= 2100,
        names ==> lo == 0 && hi == 6,
    ensures
        r is Some <==> field_ok(s@, from as int, to as int, lo as int, hi as int, names),
        r is Some ==> r->Some_0.wf(lo as int, hi as int),
        r is Some ==> forall|v: int|
            r->Some_0.admits(v) <==> (lo <= v <= hi && field_admits_from(s@, from as int, to as int, lo as int, hi as int, names, v)),
{
    let span: usize = (hi - lo) as usize + 1;
    let mut mask: Vec<bool> = Vec::new();
    let mut z: usize = 0;
    while z < span
        invariant
            z <= span,
            mask@.len() == z,
            forall|q: int| 0 <= q < z ==> !(#[trigger] mask@[q]),
        decreases span - z,
    {
        mask.push(false);
        z = z + 1;
    }
    let mut i = from;
    loop
        invariant
            from <= i <= to,
            mask@.len() == hi - lo + 1,
            field_ok_from(s@, from as int, to as int, lo as int, hi as int, names)
                == field_ok_from(s@, i as int, to as int, lo as int, hi as int, names),
            forall|v: int|
                lo <= v <= hi ==> (field_admits_from(s@, from as int, to as int, lo as int, hi as int, names, v)
                    == (#[trigger] mask@[v - lo]
                        || field_admits_from(s@, i as int, to as int, lo as int, hi as int, names, v))),
        decreases to - i,
    {
        let j = scan_byte(s, i, to, COMMA);
        proof {
            lemma_scan_to(s@, i as int, to as int, COMMA);
        }
        let ghost m_in = mask@;
        let ok = parse_item(s, i, j, lo, hi, names, &mut mask);
        proof {
            // One unfolding of the two recursive field predicates at `i`.
            assert(field_ok_from(s@, i as int, to as int, lo as int, hi as int, names)
                == (item_ok(s@, i as int, j as int, lo as int, hi as int, names)
                    && (j < to ==> field_ok_from(s@, j as int + 1, to as int, lo as int, hi as int, names))));
            assert forall|v: int| lo <= v <= hi implies
                field_admits_from(s@, i as int, to as int, lo as int, hi as int, names, v)
                    == (item_admits(s@, i as int, j as int, lo as int, hi as int, names, v)
                        || (j < to && field_admits_from(s@, j as int + 1, to as int, lo as int, hi as int, names, v))) by {
                assert(scan_to(s@, i as int, to as int, COMMA) == j);
            }
        }
        if !ok {
            assert(!field_ok_from(s@, from as int, to as int, lo as int, hi as int, names));
            return None;
        }
        if j == to {
            // Last item handled: the mask now decides the whole field.
            assert forall|v: int|
                lo <= v <= hi implies (field_admits_from(s@, from as int, to as int, lo as int, hi as int, names, v)
                    == #[trigger] mask@[v - lo]) by {
                assert(field_admits_from(s@, from as int, to as int, lo as int, hi as int, names, v)
                    == (m_in[v - lo] || field_admits_from(s@, i as int, to as int, lo as int, hi as int, names, v)));
                assert(mask@[v - lo] == (m_in[v - lo] || item_admits(s@, i as int, j as int, lo as int, hi as int, names, v)));
            }
            assert(field_ok_from(s@, from as int, to as int, lo as int, hi as int, names));
            // Collect the admitted values in ascending order.
            let mut allowed: Vec<u16> = Vec::new();
            let mut v = lo;
            while v <= hi
                invariant
                    lo <= v,
                    v <= hi + 1,
                    mask@.len() == hi - lo + 1,
                    forall|p: int, q: int|
                        0 <= p < q < allowed@.len() ==> #[trigger] allowed@[p] < #[trigger] allowed@[q],
                    forall|p: int| 0 <= p < allowed@.len() ==> lo <= #[trigger] allowed@[p] < v,
                    forall|p: int| 0 <= p < allowed@.len() ==> mask@[#[trigger] allowed@[p] - lo],
                    forall|w: int|
                        lo <= w < v && #[trigger] mask@[w - lo] ==> exists|p: int|
                            0 <= p < allowed@.len() && allowed@[p] == w,
                decreases hi + 1 - v,
            {
                if mask[(v - lo) as usize] {
                    let ghost before = allowed@;
                    allowed.push(v);
                    proof {
                        assert forall|w: int|
                            lo <= w < v + 1 && #[trigger] mask@[w - lo] implies exists|p: int|
                                0 <= p < allowed@.len() && allowed@[p] == w by {
                            if w == v {
                                assert(allowed@[allowed@.len() - 1] == v);
                            } else {
                                let p0 = choose|p0: int| 0 <= p0 < before.len() && before[p0] == w;
                                assert(allowed@[p0] == w);
                            }
                        }
                    }
                }
                v = v + 1;
            }
            if allowed.len() == 0 {
                // No value was marked, so the field admits nothing.
                assert forall|w: int|
                    lo <= w <= hi implies !field_admits_from(s@, from as int, to as int, lo as int, hi as int, names, w) by {
                    assert(!mask@[w - lo]);
                }
                return None;
            }
            let ghost aseq = allowed@;
            let f = CronField { allowed };
            assert(f.allowed@ == aseq);
            assert(f.wf(lo as int, hi as int));
            assert forall|v2: int|
                f.admits(v2) <==> (lo <= v2 <= hi && field_admits_from(s@, from as int, to as int, lo as int, hi as int, names, v2)) by {
                if f.admits(v2) {
                    let p = choose|p: int| 0 <= p < f.allowed@.len() && f.allowed@[p] == v2;
                    assert(lo <= aseq[p] <= hi);
                    assert(mask@[v2 - lo]);
                }
                if lo <= v2 <= hi && field_admits_from(s@, from as int, to as int, lo as int, hi as int, names, v2) {
                    assert(mask@[v2 - lo]);
                    let p = choose|p: int| 0 <= p < aseq.len() && aseq[p] == v2;
                    assert(f.allowed@[p] == v2);
                    assert(f.admits(v2));
                }
            }
            assert(field_ok(s@, from as int, to as int, lo as int, hi as int, names)) by {
                assert(lo <= f.allowed@[0] <= hi && field_admits_from(s@, from as int, to as int, lo as int, hi as int, names, f.allowed@[0] as int));
            }
            return Some(f);
        }
        let ghost i_prev = i as int;
        i = j + 1;
        proof {
            assert forall|v: int|
                lo <= v <= hi implies (field_admits_from(s@, from as int, to as int, lo as int, hi as int, names, v)
                    == (#[trigger] mask@[v - lo]
                        || field_admits_from(s@, i as int, to as int, lo as int, hi as int, names, v))) by {
                assert(field_admits_from(s@, from as int, to as int, lo as int, hi as int, names, v)
                    == (m_in[v - lo] || field_admits_from(s@, i_prev, to as int, lo as int, hi as int, names, v)));
                assert(field_admits_from(s@, i_prev, to as int, lo as int, hi as int, names, v)
                    == (item_admits(s@, i_prev, j as int, lo as int, hi as int, names, v)
                        || (j < to && field_admits_from(s@, i as int, to as int, lo as int, hi as int, names, v))));
                assert(mask@[v - lo] == (m_in[v - lo] || item_admits(s@, i_prev, j as int, lo as int, hi as int, names, v)));
            }
        }
    }
}

/// Parse a seven-field cron expression.
///
/// Returns a schedule exactly when the bytes of `s` satisfy the grammar;
/// the schedule's fields then admit exactly the values the expression names.
pub fn parse_expr(s: &str) -> (r: Option<CronExpr>)
    ensures
        r is Some <==> expr_ok(s.spec_bytes()),
        r is Some ==> expr_from(r->Some_0, s.spec_bytes()),
{
    let b: Vec<u8> = s.as_bytes_vec();
    let ghost bs = s.spec_bytes();
    let n = b.len();
    let e0 = scan_byte(&b, 0, n, SP);
    proof {
        assert(fstart(bs, 0) == 0);
        assert(fend(bs, 0) == e0 as int);
    }
    if e0 == n {
        return None;
    }
    let e1 = scan_byte(&b, e0 + 1, n, SP);
    proof {
        assert(fstart(bs, 1) == e0 as int + 1);
        assert(fend(bs, 1) == e1 as int);
    }
    if e1 == n {
        return None;
    }
    let e2 = scan_byte(&b, e1 + 1, n, SP);
    proof {
        assert(fstart(bs, 2) == e1 as int + 1);
        assert(fend(bs, 2) == e2 as int);
    }
    if e2 == n {
        return None;
    }
    let e3 = scan_byte(&b, e2 + 1, n, SP);
    proof {
        assert(fstart(bs, 3) == e2 as int + 1);
        assert(fend(bs, 3) == e3 as int);
    }
    if e3 == n {
        return None;
    }
    let e4 = scan_byte(&b, e3 + 1, n, SP);
    proof {
        assert(fstart(bs, 4) == e3 as int + 1);
        assert(fend(bs, 4) == e4 as int);
    }
    if e4 == n {
        return None;
    }
    let e5 = scan_byte(&b, e4 + 1, n, SP);
    proof {
        assert(fstart(bs, 5) == e4 as int + 1);
        assert(fend(bs, 5) == e5 as int);
    }
    if e5 == n {
        return None;
    }
    let e6 = scan_byte(&b, e5 + 1, n, SP);
    proof {
        assert(fstart(bs, 6) == e5 as int + 1);
        assert(fend(bs, 6) == e6 as int);
    }
    if e6 < n {
        return None;
    }
    let second = match parse_field(&b, 0, e0, 0, 59, false) {
        Some(f) => f,
        None => {
            return None;
        },
    };
    let minute = match parse_field(&b, e0 + 1, e1, 0, 59, false) {
        Some(f) => f,
        None => {
            return None;
        },
    };
    let hour = match parse_field(&b, e1 + 1, e2, 0, 23, false) {
        Some(f) => f,
        None => {
            return None;
        },
    };
    let dom = match parse_field(&b, e2 + 1, e3, 1, 31, false) {
        Some(f) => f,
        None => {
            return None;
        },
    };
    let month = match parse_field(&b, e3 + 1, e4, 1, 12, false) {
        Some(f) => f,
        None => {
            return None;
        },
    };
    let dow = match parse_field(&b, e4 + 1, e5, 0, 6, true) {
        Some(f) => f,
        None => {
            return None;
        },
    };
    let year = match parse_field(&b, e5 + 1, e6, YEAR_MIN, YEAR_MAX, false) {
        Some(f) => f,
        None => {
            return None;
        },
    };
    Some(CronExpr { second, minute, hour, dom, month, dow, year })
}

} // verus!
