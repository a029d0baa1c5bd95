//! Calendar dates for the run history: the proleptic Gregorian date of a
//! day number counted from 1970-01-01.
use vstd::prelude::*;

use crate::text::{digits, push_digits};

verus! {

pub open spec fn leap(y: int) -> bool {
    (y % 4 == 0 && y % 100 != 0) || y % 400 == 0
}

pub open spec fn year_days(y: int) -> int {
    if leap(y) { 366 } else { 365 }
}

/// Days in month `m` (1 to 12) of year `y`.
pub open spec fn month_days(y: int, m: int) -> int {
    if m == 2 {
        if leap(y) { 29 } else { 28 }
    } else if m == 4 || m == 6 || m == 9 || m == 11 {
        30
    } else {
        31
    }
}

/// Month and day of month of day `d` (counted from 0) of year `y`,
/// searching from month `m`.
pub open spec fn month_of(y: int, m: int, d: int) -> (int, int)
    decreases 12 - m,
{
    if m < 12 && d >= month_days(y, m) {
        month_of(y, m + 1, d - month_days(y, m))
    } else {
        (m, d + 1)
    }
}

/// The date `d` days after the first of January of year `y`, as
/// (year, month, day of month).
pub open spec fn date_after(y: int, d: nat) -> (int, int, int)
    decreases d,
{
    if d >= year_days(y) {
        date_after(y + 1, (d - year_days(y)) as nat)
    } else {
        let (m, dd) = month_of(y, 1, d as int);
        (y, m, dd)
    }
}

/// Days in the `k` years from `y` on.
pub open spec fn years_days(y: int, k: nat) -> int
    decreases k,
{
    if k == 0 {
        0
    } else {
        years_days(y, (k - 1) as nat) + year_days(y + k - 1)
    }
}

proof fn lemma_years_days_nonneg(y: int, k: nat)
    ensures
        years_days(y, k) >= 365 * k,
    decreases k,
{
    if k > 0 {
        lemma_years_days_nonneg(y, (k - 1) as nat);
    }
}

/// Skipping `k` whole years.
proof fn lemma_skip_years(y: int, d: nat, k: nat)
    requires
        d >= years_days(y, k),
    ensures
        date_after(y, d) == date_after(y + k, (d - years_days(y, k)) as nat),
    decreases k,
{
    if k > 0 {
        lemma_years_days_nonneg(y, (k - 1) as nat);
        lemma_skip_years(y, d, (k - 1) as nat);
        let y1 = y + k - 1;
        let d1 = (d - years_days(y, (k - 1) as nat)) as nat;
        assert(d1 >= year_days(y1));
        assert(date_after(y1, d1) == date_after(y1 + 1, (d1 - year_days(y1)) as nat));
    }
}

/// The leap rule repeats every 400 years.
proof fn lemma_leap_period(y: int, e: int)
    ensures
        leap(y + 400 * e) == leap(y),
{
    vstd::arithmetic::div_mod::lemma_mod_multiples_vanish(100 * e, y, 4);
    vstd::arithmetic::div_mod::lemma_mod_multiples_vanish(4 * e, y, 100);
    vstd::arithmetic::div_mod::lemma_mod_multiples_vanish(e, y, 400);
    assert(4 * (100 * e) + y == y + 400 * e);
    assert(100 * (4 * e) + y == y + 400 * e);
    assert(400 * e + y == y + 400 * e);
}

proof fn lemma_years_days_period(y: int, e: int, k: nat)
    ensures
        years_days(y + 400 * e, k) == years_days(y, k),
    decreases k,
{
    if k > 0 {
        lemma_years_days_period(y, e, (k - 1) as nat);
        lemma_leap_period(y + k - 1, e);
        assert(y + 400 * e + k - 1 == (y + k - 1) + 400 * e);
    }
}

/// Leap years from year 1 to year `y`.
pub open spec fn leaps_through(y: int) -> int {
    y / 4 - y / 100 + y / 400
}

proof fn lemma_leap_step(y: int)
    requires
        y >= 1,
    ensures
        leaps_through(y) - leaps_through(y - 1) == if leap(y) { 1int } else { 0int },
{
    assert(y / 4 - (y - 1) / 4 == if y % 4 == 0 { 1int } else { 0int });
    assert(y / 100 - (y - 1) / 100 == if y % 100 == 0 { 1int } else { 0int });
    assert(y / 400 - (y - 1) / 400 == if y % 400 == 0 { 1int } else { 0int });
    assert(y % 400 == 0 ==> y % 100 == 0 && y % 4 == 0);
    assert(y % 100 == 0 ==> y % 4 == 0);
}

proof fn lemma_years_days_formula(a: int, k: nat)
    requires
        a >= 1,
    ensures
        years_days(a, k) == 365 * k + leaps_through(a + k - 1) - leaps_through(a - 1),
    decreases k,
{
    if k > 0 {
        lemma_years_days_formula(a, (k - 1) as nat);
        lemma_leap_step(a + k - 1);
    }
}

/// Four hundred years from 1970 hold 146097 days.
proof fn lemma_era_1970()
    ensures
        years_days(1970, 400) == 146097,
{
    lemma_years_days_formula(1970, 400);
    assert(leaps_through(2369) == 574);
    assert(leaps_through(1969) == 477);
}

/// Four hundred years from any 1970 + 400 e hold 146097 days.
proof fn lemma_era(e: int)
    ensures
        years_days(1970 + 400 * e, 400) == 146097,
{
    lemma_era_1970();
    lemma_years_days_period(1970, e, 400);
}

/// The date of day `day`, counted from 1970-01-01 (day 0).
pub open spec fn civil_date(day: nat) -> (int, int, int) {
    date_after(1970, day)
}

/// `n` in decimal with zeros in front up to `w` digits.
pub open spec fn zero_padded(n: nat, w: int) -> Seq<char> {
    let s = digits(n);
    if s.len() >= w { s } else { Seq::new((w - s.len()) as nat, |i: int| '0') + s }
}

/// YYYY-MM-DD for a date.
pub open spec fn date_text(d: (int, int, int)) -> Seq<char> {
    zero_padded(d.0 as nat, 4) + "-"@ + zero_padded(d.1 as nat, 2) + "-"@ + zero_padded(d.2 as nat, 2)
}

proof fn lemma_month_bounds(y: int, m: int, d: int)
    requires
        1 <= m <= 12,
        0 <= d,
        d < 366,
    ensures
        1 <= month_of(y, m, d).0 <= 12,
        1 <= month_of(y, m, d).1 <= 366,
    decreases 12 - m,
{
    if m < 12 && d >= month_days(y, m) {
        lemma_month_bounds(y, m + 1, d - month_days(y, m));
    }
}

proof fn lemma_digits_len(n: nat)
    ensures
        n < 10 ==> digits(n).len() == 1,
        10 <= n < 100 ==> digits(n).len() == 2,
        100 <= n < 1000 ==> digits(n).len() == 3,
        n >= 1000 ==> digits(n).len() >= 4,
    decreases n,
{
    if n >= 10 {
        lemma_digits_len(n / 10);
    }
}

/// Appends `n` with zeros in front up to `w` digits (`w` is 2 or 4).
fn push_padded(s: &mut String, n: u64, w: usize)
    requires
        w == 2 || w == 4,
    ensures
        final(s)@ == old(s)@ + zero_padded(n as nat, w as int),
{
    proof {
        lemma_digits_len(n as nat);
        reveal_strlit("0");
        reveal_strlit("00");
        reveal_strlit("000");
    }
    let ghost len = digits(n as nat).len();
    if w == 4 && n < 10 {
        s.append("000");
    } else if (w == 4 && n < 100) || (w == 2 && n < 10) {
        s.append(if w == 4 { "00" } else { "0" });
    } else if w == 4 && n < 1000 {
        s.append("0");
    }
    let ghost pads = s@;
    push_digits(s, n);
    assert(final(s)@ =~= old(s)@ + zero_padded(n as nat, w as int));
}

/// Skipping `e` whole 400-year eras from 1970.
proof fn lemma_skip_eras(day: nat, e: nat)
    requires
        day >= 146097 * e,
    ensures
        date_after(1970, day) == date_after((1970 + 400 * e) as int, (day - 146097 * e) as nat),
    decreases e,
{
    if e > 0 {
        assert(day >= 146097 * (e - 1));
        lemma_skip_eras(day, (e - 1) as nat);
        let y = 1970 + 400 * (e - 1);
        let d = (day - 146097 * (e - 1)) as nat;
        lemma_era(e - 1);
        assert(d >= 146097);
        lemma_skip_years(y, d, 400);
        assert(y + 400 == 1970 + 400 * e);
        assert(d - 146097 == day - 146097 * e);
    }
}

fn year_len(y: u64) -> (n: u64)
    ensures
        n == year_days(y as int),
{
    if y % 4 == 0 && (y % 100 != 0 || y % 400 == 0) { 366 } else { 365 }
}

/// The year of day `day` and the day within it.
fn year_of_day(day: u64) -> (r: (u64, u64))
    requires
        day <= i64::MAX - 719_468,
    ensures
        date_after(1970, day as nat) == date_after(r.0 as int, r.1 as nat),
        r.1 < year_days(r.0 as int),
        1970 <= r.0 <= 1970 + 400 * 63_137_970_000_001,
{
    let eras: u64 = day / 146097;
    let d0: u64 = day % 146097;
    assert(146097 * eras + d0 == day);
    assert(eras <= 63_137_970_000_000);
    let base: u64 = 1970 + 400 * eras;
    proof {
        lemma_skip_eras(day as nat, eras as nat);
    }
    let mut d: u64 = d0;
    let mut y: u64 = base;
    while d >= year_len(y)
        invariant
            base <= y,
            base == 1970 + 400 * eras,
            eras <= 63_137_970_000_000,
            d0 < 146097,
            365 * (y - base) + d <= d0,
            date_after(1970, day as nat) == date_after(y as int, d as nat),
        decreases d,
    {
        let n = year_len(y);
        d = d - n;
        y = y + 1;
    }
    (y, d)
}

/// The month and day of month of day `d` (from 0) of year `y`.
fn month_of_day(y: u64, d: u64) -> (r: (u64, u64))
    requires
        d < year_days(y as int),
    ensures
        month_of(y as int, 1, d as int) == (r.0 as int, r.1 as int),
        1 <= r.0 <= 12,
        1 <= r.1 <= 366,
{
    let leap_year = y % 4 == 0 && (y % 100 != 0 || y % 400 == 0);
    let mut m: u64 = 1;
    let mut left: u64 = d;
    loop
        invariant
            1 <= m <= 12,
            left < 366,
            leap_year == leap(y as int),
            month_of(y as int, 1, d as int) == month_of(y as int, m as int, left as int),
        ensures
            1 <= m <= 12,
            left < 366,
            month_of(y as int, 1, d as int) == (m as int, left + 1),
        decreases 12 - m,
    {
        let md: u64 = if m == 2 {
            if leap_year { 29 } else { 28 }
        } else if m == 4 || m == 6 || m == 9 || m == 11 {
            30
        } else {
            31
        };
        assert(md == month_days(y as int, m as int));
        if m < 12 && left >= md {
            left = left - md;
            m = m + 1;
        } else {
            break;
        }
    }
    proof {
        lemma_month_bounds(y as int, m as int, left as int);
    }
    (m, left + 1)
}

/// The calendar date of day `day` since 1970-01-01, as YYYY-MM-DD.
pub fn date_of_day(day: u64) -> (s: String)
    requires
        day <= i64::MAX - 719_468,
    ensures
        s@ == date_text(civil_date(day as nat)),
{
    let (y, d) = year_of_day(day);
    let (m, dd) = month_of_day(y, d);
    let mut s = String::new();
    push_padded(&mut s, y, 4);
    proof { reveal_strlit("-"); }
    s.append("-");
    push_padded(&mut s, m, 2);
    s.append("-");
    push_padded(&mut s, dd, 2);
    assert(civil_date(day as nat) == (y as int, m as int, dd as int));
    assert(s@ =~= date_text(civil_date(day as nat)));
    s
}

} // verus!
