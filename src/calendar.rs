use vstd::prelude::*;
use vstd::string::*;
use crate::base::{digits_in_base, from_decimal, parse_base, parse_u32, string_from_chars};
use crate::distinct::{split_at_char, split_on};

verus! {

/// A leap year: divisible by 4, and not by 100 unless also by 400.
pub open spec fn leap(y: int) -> bool {
    y % 4 == 0 && (y % 100 != 0 || y % 400 == 0)
}

/// The length of month `m` (1 to 12).
pub open spec fn month_days(m: int, is_leap: bool) -> int {
    if m == 2 {
        if is_leap { 29 } else { 28 }
    } else if m == 4 || m == 6 || m == 9 || m == 11 {
        30
    } else {
        31
    }
}

/// The days of the months before month `m`.
pub open spec fn days_before(m: int, is_leap: bool) -> int
    decreases m,
{
    if m <= 1 {
        0
    } else {
        days_before(m - 1, is_leap) + month_days(m - 1, is_leap)
    }
}

/// The place of a day in its year, by the month lengths of a common year.
pub open spec fn day_of_year_common(m: int, d: int) -> int {
    days_before(m, false) + d
}

/// The place of a day in year `y`.
pub open spec fn day_of_year(y: int, m: int, d: int) -> int {
    days_before(m, leap(y)) + d
}

/// The days of the years from 2025 up to, not including, `y`; none for `y` up to 2025.
pub open spec fn days_of_years(y: int) -> int
    decreases y - 2025,
{
    if y <= 2025 {
        0
    } else {
        days_of_years(y - 1) + (if leap(y - 1) { 366int } else { 365int })
    }
}

/// Days counted from the start of 2025: day 1 is 1 January 2025.
pub open spec fn total_days(y: int, m: int, d: int) -> int {
    days_of_years(y) + day_of_year(y, m, d)
}

/// The weekday, 0 for Sunday to 6 for Saturday.
pub open spec fn weekday(y: int, m: int, d: int) -> int {
    (total_days(y, m, d) + 2) % 7
}

/// New Year's Day, the Spring Festival break of 2025 (28 January to 4 February), the
/// first five days of May, and 1 October.
pub open spec fn holiday(y: int, m: int, d: int) -> bool {
    (m == 1 && d == 1) || (y == 2025 && ((m == 1 && d >= 28) || (m == 2 && d <= 4))) || (m
        == 5 && d <= 5) || (m == 10 && d == 1)
}

/// A day that is neither a holiday nor on a weekend.
pub open spec fn trading(y: int, m: int, d: int) -> bool {
    !holiday(y, m, d) && weekday(y, m, d) != 0 && weekday(y, m, d) != 6
}

/// The day after `(y, m, d)`, by the month lengths of a common year.
pub open spec fn next_date(y: int, m: int, d: int) -> (int, int, int) {
    if d + 1 > month_days(m, false) {
        if m + 1 > 12 {
            (y + 1, 1, 1)
        } else {
            (y, m + 1, 1)
        }
    } else {
        (y, m, d + 1)
    }
}

/// The date `k` days after `(y, m, d)`, stepping with `next_date`.
pub open spec fn date_after(y: int, m: int, d: int, k: nat) -> (int, int, int)
    decreases k,
{
    if k == 0 {
        (y, m, d)
    } else {
        let p = date_after(y, m, d, (k - 1) as nat);
        next_date(p.0, p.1, p.2)
    }
}

/// A year from 0 to 9999, a month from 1 to 12 and a day from 1 to 31.
pub open spec fn in_range(y: int, m: int, d: int) -> bool {
    0 <= y <= 9999 && 1 <= m <= 12 && 1 <= d <= 31
}

/// How many days ahead the search for a trading day looks.
pub const SEARCH_DAYS: u32 = 30;

/// The first trading day among the days `k + 1` to `SEARCH_DAYS` after `(y, m, d)`.
pub open spec fn trading_search(y: int, m: int, d: int, k: nat) -> Option<(int, int, int)>
    decreases SEARCH_DAYS - k,
{
    if k >= SEARCH_DAYS {
        None
    } else {
        let p = date_after(y, m, d, k + 1);
        if trading(p.0, p.1, p.2) {
            Some(p)
        } else {
            trading_search(y, m, d, k + 1)
        }
    }
}

/// The first trading day after `(y, m, d)`, if one comes within `SEARCH_DAYS` days.
pub open spec fn first_trading(y: int, m: int, d: int) -> Option<(int, int, int)> {
    trading_search(y, m, d, 0)
}

/// Whether `year` is a leap year.
pub fn is_leap_year(year: i32) -> (r: bool)
    requires
        year >= 0,
    ensures
        r == leap(year as int),
{
    year % 4 == 0 && (year % 100 != 0 || year % 400 == 0)
}

proof fn lemma_days_before_bound(m: int, is_leap: bool)
    requires
        1 <= m <= 13,
    ensures
        0 <= days_before(m, is_leap) <= 31 * (m - 1),
    decreases m,
{
    if m > 1 {
        lemma_days_before_bound(m - 1, is_leap);
    }
}

/// The place of day `day` of month `month` in a year with the given month lengths.
fn day_of_year_by(months: [u32; 12], month: u32, day: u32, is_leap: bool) -> (r: u32)
    requires
        1 <= month <= 12,
        1 <= day <= 31,
        forall|k: int| 0 <= k < 12 ==> months@[k] == month_days(k + 1, is_leap),
    ensures
        r == days_before(month as int, is_leap) + day,
{
    let mut days: u32 = day;
    let mut m: usize = 0;
    while m < (month - 1) as usize
        invariant
            1 <= month <= 12,
            1 <= day <= 31,
            m <= month - 1,
            forall|k: int| 0 <= k < 12 ==> months@[k] == month_days(k + 1, is_leap),
            days == days_before(m + 1, is_leap) + day,
        decreases month - 1 - m,
    {
        proof {
            lemma_days_before_bound(m + 1, is_leap);
        }
        days = days + months[m];
        m = m + 1;
    }
    days
}

/// The place of a day in 2025, by the month lengths of a common year.
pub fn day_of_year_2025(month: u32, day: u32) -> (r: u32)
    requires
        1 <= month <= 12,
        1 <= day <= 31,
    ensures
        r == day_of_year_common(month as int, day as int),
{
    let months: [u32; 12] = [31, 28, 31, 30, 31, 30, 31, 31, 30, 31, 30, 31];
    day_of_year_by(months, month, day, false)
}

/// The place of a day in year `year`.
pub fn day_of_year_in_year(year: i32, month: u32, day: u32) -> (r: u32)
    requires
        year >= 0,
        1 <= month <= 12,
        1 <= day <= 31,
    ensures
        r == day_of_year(year as int, month as int, day as int),
{
    let lp = is_leap_year(year);
    let months_days: [u32; 12] = if lp {
        [31, 29, 31, 30, 31, 30, 31, 31, 30, 31, 30, 31]
    } else {
        [31, 28, 31, 30, 31, 30, 31, 31, 30, 31, 30, 31]
    };
    day_of_year_by(months_days, month, day, lp)
}

proof fn lemma_days_of_years_bound(y: int)
    ensures
        0 <= days_of_years(y),
        y >= 2025 ==> days_of_years(y) <= 366 * (y - 2025),
    decreases y - 2025,
{
    if y > 2025 {
        lemma_days_of_years_bound(y - 1);
    }
}

/// Days counted from the start of 2025 (day 1 is 1 January 2025); a date before 2025
/// counts from the start of its own year.
pub fn total_days_2025_base(year: i32, month: u32, day: u32) -> (r: i32)
    requires
        in_range(year as int, month as int, day as int),
    ensures
        r == total_days(year as int, month as int, day as int),
{
    let mut total: i32 = 0;
    let mut y: i32 = 2025;
    while y < year
        invariant
            2025 <= y,
            y <= year || year < 2025,
            year < 2025 ==> y == 2025,
            year <= 9999,
            total == days_of_years(y as int),
        decreases year - y,
    {
        proof {
            lemma_days_of_years_bound(y as int);
        }
        total = total + if is_leap_year(y) { 366 } else { 365 };
        y = y + 1;
    }
    proof {
        if year < 2025 {
            assert(days_of_years(year as int) == 0);
        }
        lemma_days_of_years_bound(year as int);
        lemma_days_before_bound(month as int, leap(year as int));
        assert(total == days_of_years(year as int));
    }
    total = total + day_of_year_in_year(year, month, day) as i32;
    total
}

/// The weekday, 0 for Sunday to 6 for Saturday.
pub fn compute_weekday(year: i32, month: u32, day: u32) -> (r: u32)
    requires
        in_range(year as int, month as int, day as int),
    ensures
        r == weekday(year as int, month as int, day as int),
{
    let total = total_days_2025_base(year, month, day);
    proof {
        lemma_days_of_years_bound(year as int);
        lemma_days_before_bound(month as int, leap(year as int));
    }
    (total as u32 + 2) % 7
}

/// Whether the day is a trading day: no holiday and no weekend.
pub fn is_trading_day(year: i32, month: u32, day: u32) -> (r: bool)
    requires
        in_range(year as int, month as int, day as int),
    ensures
        r == trading(year as int, month as int, day as int),
{
    let is_holiday = (month == 1 && day == 1) || (year == 2025 && ((month == 1 && day >= 28) || (
    month == 2 && day <= 4))) || (month == 5 && day <= 5) || (month == 10 && day == 1);
    if is_holiday {
        return false;
    }
    let weekday = compute_weekday(year, month, day);
    !(weekday == 0 || weekday == 6)
}

/// The day after the given one, by the month lengths of a common year.
pub fn next_day(year: i32, month: u32, day: u32) -> (r: (i32, u32, u32))
    requires
        in_range(year as int, month as int, day as int),
        year < 9999 || !(month == 12 && day == 31),
    ensures
        (r.0 as int, r.1 as int, r.2 as int) == next_date(year as int, month as int, day as int),
        in_range(r.0 as int, r.1 as int, r.2 as int),
{
    let months_days: [u32; 12] = [31, 28, 31, 30, 31, 30, 31, 31, 30, 31, 30, 31];
    let (mut new_year, mut new_month, mut new_day) = (year, month, day + 1);
    assert(months_days[(new_month - 1) as int] == month_days(month as int, false));
    if new_day > months_days[(new_month - 1) as usize] {
        new_day = 1;
        new_month = new_month + 1;
        if new_month > 12 {
            new_month = 1;
            new_year = new_year + 1;
        }
    }
    (new_year, new_month, new_day)
}

/// The first trading day after the given one, looking `SEARCH_DAYS` days ahead.
pub fn next_trading_day(start_year: i32, start_month: u32, start_day: u32) -> (r: Option<
    (i32, u32, u32),
>)
    requires
        in_range(start_year as int, start_month as int, start_day as int),
        start_year < 9999,
    ensures
        r is None <==> first_trading(start_year as int, start_month as int, start_day as int) is None,
        r is Some ==> in_range((r->0).0 as int, (r->0).1 as int, (r->0).2 as int),
        r is Some ==> ((r->0).0 as int, (r->0).1 as int, (r->0).2 as int) == first_trading(
            start_year as int,
            start_month as int,
            start_day as int,
        )->0,
{
    let ghost sy = start_year as int;
    let ghost sm = start_month as int;
    let ghost sd = start_day as int;
    let (mut y, mut m, mut d) = (start_year, start_month, start_day);
    let mut k: u32 = 0;
    while k < SEARCH_DAYS
        invariant
            k <= SEARCH_DAYS,
            sy == start_year,
            sm == start_month,
            sd == start_day,
            (y as int, m as int, d as int) == date_after(sy, sm, sd, k as nat),
            in_range(y as int, m as int, d as int),
            sy < 9999,
            y == sy || (y == sy + 1 && m == 1 && d <= k),
            first_trading(sy, sm, sd) == trading_search(sy, sm, sd, k as nat),
        decreases SEARCH_DAYS - k,
    {
        let nd = next_day(y, m, d);
        let ghost k_old = k as nat;
        y = nd.0;
        m = nd.1;
        d = nd.2;
        k = k + 1;
        assert((y as int, m as int, d as int) == date_after(sy, sm, sd, k_old + 1));
        if is_trading_day(y, m, d) {
            assert(trading_search(sy, sm, sd, k_old) == Some((y as int, m as int, d as int)));
            assert(first_trading(sy, sm, sd) == Some((y as int, m as int, d as int)));
            return Some((y, m, d));
        }
        assert(trading_search(sy, sm, sd, k_old) == trading_search(sy, sm, sd, k_old + 1));
    }
    None
}

/// Reads `year-month-day` the way `str::split` and `str::parse` read it: the text
/// before the first `-` is the year, up to `i32::MAX`, then the month and the day, each a
/// `u32`; anything after a third `-` is not read.
pub open spec fn parse_date_spec(s: Seq<char>) -> Option<(int, int, int)> {
    let parts = split_on(s, '-');
    if parts.len() < 3 {
        None
    } else {
        match (parse_u32(parts[0]), parse_u32(parts[1]), parse_u32(parts[2])) {
            (Some(y), Some(m), Some(d)) => if y <= i32::MAX {
                Some((y as int, m as int, d as int))
            } else {
                None
            },
            _ => None,
        }
    }
}

/// The week of the year: 1 for the first five days, then counting from Monday 6 January.
pub open spec fn week_number(doy: int) -> int {
    if doy <= 5 {
        1
    } else {
        ((doy - 6) / 7 % 52 + 2) % 52
    }
}

/// The weekday in 2025, 1 for Monday to 7 for Sunday.
pub open spec fn weekday_number(doy: int) -> int {
    let w = (3 + doy - 1) % 7;
    if w == 0 {
        7
    } else {
        w
    }
}

/// The days until the Spring Festival: 29 January 2025, else 17 February 2026.
pub open spec fn days_to_festival(doy: int) -> int {
    if doy <= 29 {
        29 - doy
    } else {
        365 - doy + 31 + 17
    }
}

/// An integer in decimal, with a `-` before a negative one.
pub open spec fn int_text(x: int) -> Seq<char> {
    if x < 0 {
        seq!['-'] + digits_in_base((-x) as nat, 10)
    } else {
        digits_in_base(x as nat, 10)
    }
}

/// The six numbers that `time_info` reports for the day `(y, m, d)`, whose next trading
/// day is `t`.
pub open spec fn info_fields(y: int, m: int, d: int, t: (int, int, int)) -> Seq<int> {
    let doy = day_of_year_common(m, d);
    seq![
        week_number(doy),
        weekday_number(doy),
        doy,
        365 - doy,
        days_to_festival(doy),
        total_days(t.0, t.1, t.2) - total_days(y, m, d) - 1,
    ]
}

/// The numbers `f`, in decimal, joined by commas.
pub open spec fn join_fields(f: Seq<int>) -> Seq<char>
    decreases f.len(),
{
    if f.len() <= 1 {
        if f.len() == 0 { Seq::empty() } else { int_text(f[0]) }
    } else {
        join_fields(f.drop_last()) + seq![','] + int_text(f.last())
    }
}

/// What `time_info` returns: the report on the date that `s` names, where it names one
/// in range before the year 9999 and a trading day follows within `SEARCH_DAYS` days.
pub open spec fn time_info_spec(s: Seq<char>) -> Option<Seq<char>> {
    match parse_date_spec(s) {
        Some((y, m, d)) => if in_range(y, m, d) && y < 9999 {
            match first_trading(y, m, d) {
                Some(t) => Some(join_fields(info_fields(y, m, d, t))),
                None => None,
            }
        } else {
            None
        },
        None => None,
    }
}

/// Reads `year-month-day`.
pub fn parse_date(s: &str) -> (r: Option<(i32, u32, u32)>)
    ensures
        r is None <==> parse_date_spec(s@) is None,
        r is Some ==> ((r->0).0 as int, (r->0).1 as int, (r->0).2 as int) == parse_date_spec(s@)->0,
{
    let parts = split_at_char(s, '-');
    let ghost ps = split_on(s@, '-');
    if parts.len() < 3 {
        return None;
    }
    assert(parts@[0]@ == ps[0] && parts@[1]@ == ps[1] && parts@[2]@ == ps[2]);
    let t0 = string_from_chars(&parts[0]);
    let t1 = string_from_chars(&parts[1]);
    let t2 = string_from_chars(&parts[2]);
    let y = parse_base(t0.as_str());
    let m = parse_base(t1.as_str());
    let d = parse_base(t2.as_str());
    match (y, m, d) {
        (Some(y), Some(m), Some(d)) => if y <= i32::MAX as u32 {
            Some((y as i32, m, d))
        } else {
            None
        },
        _ => None,
    }
}

proof fn lemma_day_of_year_common_bound(m: int, d: int)
    requires
        1 <= m <= 12,
        1 <= d <= 31,
    ensures
        1 <= day_of_year_common(m, d) <= 365,
{
    assert(days_before(1, false) == 0);
    assert(days_before(2, false) == 31);
    assert(days_before(3, false) == 59);
    assert(days_before(4, false) == 90);
    assert(days_before(5, false) == 120);
    assert(days_before(6, false) == 151);
    assert(days_before(7, false) == 181);
    assert(days_before(8, false) == 212);
    assert(days_before(9, false) == 243);
    assert(days_before(10, false) == 273);
    assert(days_before(11, false) == 304);
    assert(days_before(12, false) == 334);
}

proof fn lemma_total_days_bound(y: int, m: int, d: int)
    requires
        in_range(y, m, d),
    ensures
        1 <= total_days(y, m, d) <= 366 * 7976,
{
    lemma_days_of_years_bound(y);
    lemma_days_before_bound(m, leap(y));
}

/// An integer in decimal.
fn int_to_text(x: i32) -> (r: String)
    ensures
        r@ == int_text(x as int),
{
    if x < 0 {
        let digits = from_decimal((-(x as i64)) as u64, 10);
        proof {
            reveal_strlit("-");
        }
        let sign = String::from_str("-");
        sign.concat(digits.as_str())
    } else {
        from_decimal(x as u64, 10)
    }
}

/// `acc`, a comma, and `x` in decimal.
fn push_field(acc: String, x: i32) -> (r: String)
    ensures
        r@ == acc@ + seq![','] + int_text(x as int),
{
    proof {
        reveal_strlit(",");
    }
    let with_comma = acc.concat(",");
    let t = int_to_text(x);
    with_comma.concat(t.as_str())
}

/// The report on the date `time` (`year-month-day`): week of the year, weekday, day of
/// the year, days left in the year, days to the Spring Festival, and the days between
/// it and the next trading day, joined by commas; `None` where `time` names no date in
/// range before the year 9999 or no trading day follows within `SEARCH_DAYS` days.
pub fn time_info(time: &str) -> (r: Option<String>)
    ensures
        r is None <==> time_info_spec(time@) is None,
        r is Some ==> (r->0)@ == time_info_spec(time@)->0,
{
    let (year, month, day) = match parse_date(time) {
        Some(p) => p,
        None => {
            return None;
        },
    };
    if !(0 <= year && year < 9999 && 1 <= month && month <= 12 && 1 <= day && day <= 31) {
        return None;
    }
    let (next_year, next_month, next_day) = match next_trading_day(year, month, day) {
        Some(t) => t,
        None => {
            return None;
        },
    };
    proof {
        lemma_day_of_year_common_bound(month as int, day as int);
        lemma_total_days_bound(year as int, month as int, day as int);
        lemma_total_days_bound(next_year as int, next_month as int, next_day as int);
    }
    let day_of_year = day_of_year_2025(month, day);
    let week_num: u32 = if day_of_year <= 5 {
        1
    } else {
        ((day_of_year - 6) / 7 % 52 + 2) % 52
    };
    let mut weekday = (3 + day_of_year - 1) % 7;
    let remaining_days = 365 - day_of_year;
    let days_to_spring = if day_of_year <= 29 {
        29 - day_of_year
    } else {
        let days_left_2025 = 365 - day_of_year;
        let days_in_2026 = 31 + 17;
        days_left_2025 + days_in_2026
    };
    let current_total = total_days_2025_base(year, month, day);
    let next_total = total_days_2025_base(next_year, next_month, next_day);
    let days_to_next_trading = next_total - current_total - 1;
    if weekday == 0 {
        weekday = 7;
    }
    let ghost f = info_fields(year as int, month as int, day as int, (next_year as int, next_month as int, next_day as int));
    let s1 = int_to_text(week_num as i32);
    let s2 = push_field(s1, weekday as i32);
    let s3 = push_field(s2, day_of_year as i32);
    let s4 = push_field(s3, remaining_days as i32);
    let s5 = push_field(s4, days_to_spring as i32);
    let s6 = push_field(s5, days_to_next_trading);
    proof {
        assert(f.len() == 6);
        assert(f.drop_last().drop_last().drop_last().drop_last().drop_last() =~= seq![f[0]]);
        assert(f.drop_last().drop_last().drop_last().drop_last() =~= seq![f[0], f[1]]);
        assert(f.drop_last().drop_last().drop_last() =~= seq![f[0], f[1], f[2]]);
        assert(f.drop_last().drop_last() =~= seq![f[0], f[1], f[2], f[3]]);
        assert(f.drop_last() =~= seq![f[0], f[1], f[2], f[3], f[4]]);
        assert(join_fields(seq![f[0]]) == int_text(f[0]));
        assert(join_fields(seq![f[0], f[1]]) == s2@);
        assert(join_fields(seq![f[0], f[1], f[2]]) == s3@);
        assert(join_fields(seq![f[0], f[1], f[2], f[3]]) == s4@);
        assert(join_fields(seq![f[0], f[1], f[2], f[3], f[4]]) == s5@);
        assert(join_fields(f) == s6@);
    }
    Some(s6)
}

} // verus!
