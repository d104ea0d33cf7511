//! Dates: the days of the civil calendar, counted from 1970-01-01.

use crate::text::{digits, padded_decimal, zero_padded};
use vstd::prelude::*;

verus! {

broadcast use vstd::string::group_string_axioms;

pub open spec fn is_leap(y: int) -> bool {
    y % 4 == 0 && (y % 100 != 0 || y % 400 == 0)
}

/// How many days a month has.
pub open spec fn month_days(y: int, m: int) -> int {
    if m == 2 {
        if is_leap(y) {
            29
        } else {
            28
        }
    } else if m == 4 || m == 6 || m == 9 || m == 11 {
        30
    } else {
        31
    }
}

/// How many days of a year without a leap day come before a month.
pub open spec fn days_before_month(m: int) -> int {
    if m == 1 {
        0
    } else if m == 2 {
        31
    } else if m == 3 {
        59
    } else if m == 4 {
        90
    } else if m == 5 {
        120
    } else if m == 6 {
        151
    } else if m == 7 {
        181
    } else if m == 8 {
        212
    } else if m == 9 {
        243
    } else if m == 10 {
        273
    } else if m == 11 {
        304
    } else {
        334
    }
}

/// How many leap years there are up to the end of a year.
pub open spec fn leaps_through(y: int) -> int {
    y / 4 - y / 100 + y / 400
}

pub open spec fn is_date(y: int, m: int, d: int) -> bool {
    1 <= m <= 12 && 1 <= d <= month_days(y, m)
}

/// The number of a day: 1970-01-01 is day 0.
pub open spec fn day_number(y: int, m: int, d: int) -> int {
    let leap_days = if m > 2 {
        leaps_through(y)
    } else {
        leaps_through(y - 1)
    };
    365 * (y - 1970) + leap_days - leaps_through(1969) + days_before_month(m) + d - 1
}

/// The day of a 400-year cycle that starts on the first of March, as a century, a
/// four-year cycle and a year of it.
proof fn cycle_parts(doe: int, c: int, q: int, yy: int, doy: int)
    requires
        0 <= doe < 146097,
        c == if doe / 36524 > 3 {
            3
        } else {
            doe / 36524
        },
        q == (doe - 36524 * c) / 1461,
        yy == if (doe - 36524 * c - 1461 * q) / 365 > 3 {
            3
        } else {
            (doe - 36524 * c - 1461 * q) / 365
        },
        doy == doe - 36524 * c - 1461 * q - 365 * yy,
    ensures
        0 <= c <= 3,
        0 <= q <= 24,
        0 <= yy <= 3,
        0 <= doy <= 365,
        doy == 365 ==> yy == 3 && (q < 24 || c == 3),
{
    let r = doe - 36524 * c;
    assert(0 <= r <= 36524);
    assert(r == 36524 ==> c == 3);
    let s = r - 1461 * q;
    assert(0 <= s < 1461);
    assert(q <= 24);
    assert(q == 24 && c < 3 ==> s < 1460);
}

/// The leap years up to a year that is given by its parts.
proof fn leaps_by_parts(era: int, c: int, q: int, yy: int)
    requires
        0 <= c <= 3,
        0 <= q <= 24,
        0 <= yy <= 3,
    ensures
        leaps_through(400 * era + 100 * c + 4 * q + yy) == 97 * era + 24 * c + q,
{
    let y = 400 * era + 100 * c + 4 * q + yy;
    vstd::arithmetic::div_mod::lemma_fundamental_div_mod_converse(
        y,
        4,
        100 * era + 25 * c + q,
        yy,
    );
    vstd::arithmetic::div_mod::lemma_fundamental_div_mod_converse(
        y,
        100,
        4 * era + c,
        4 * q + yy,
    );
    vstd::arithmetic::div_mod::lemma_fundamental_div_mod_converse(
        y,
        400,
        era,
        100 * c + 4 * q + yy,
    );
}

/// The year after a whole four-year cycle is a leap year, but at the end of most
/// centuries.
proof fn leap_after_cycle(era: int, c: int, q: int)
    requires
        0 <= c <= 3,
        0 <= q <= 24,
        q < 24 || c == 3,
    ensures
        is_leap(400 * era + 100 * c + 4 * q + 4),
{
    let y = 400 * era + 100 * c + 4 * q + 4;
    vstd::arithmetic::div_mod::lemma_fundamental_div_mod_converse(
        y,
        4,
        100 * era + 25 * c + q + 1,
        0,
    );
    if q < 24 {
        vstd::arithmetic::div_mod::lemma_fundamental_div_mod_converse(
            y,
            100,
            4 * era + c,
            4 * q + 4,
        );
    } else {
        vstd::arithmetic::div_mod::lemma_fundamental_div_mod_converse(y, 400, era + 1, 0);
    }
}

/// The month and the day of a day of a year that starts on the first of March.
proof fn month_of_day(doy: int, mp: int, d: int, m: int)
    requires
        0 <= doy <= 365,
        mp == (5 * doy + 2) / 153,
        d == doy - (153 * mp + 2) / 5 + 1,
        m == if mp < 10 {
            mp + 3
        } else {
            mp - 9
        },
    ensures
        0 <= mp <= 11,
        1 <= m <= 12,
        d >= 1,
        m != 2 ==> d <= month_days(1, m),
        m == 2 ==> d <= 29,
        m == 2 && d == 29 ==> doy == 365,
        doy == 365 ==> m == 2 && d == 29,
        m > 2 ==> days_before_month(m) + d - 1 == doy + 59,
        m <= 2 ==> days_before_month(m) + d - 1 == doy - 306,
{
    assert(0 <= mp <= 11);
    let start = (153 * mp + 2) / 5;
    if mp == 0 {
        assert(start == 0);
    } else if mp == 1 {
        assert(start == 31);
    } else if mp == 2 {
        assert(start == 61);
    } else if mp == 3 {
        assert(start == 92);
    } else if mp == 4 {
        assert(start == 122);
    } else if mp == 5 {
        assert(start == 153);
    } else if mp == 6 {
        assert(start == 184);
    } else if mp == 7 {
        assert(start == 214);
    } else if mp == 8 {
        assert(start == 245);
    } else if mp == 9 {
        assert(start == 275);
    } else if mp == 10 {
        assert(start == 306);
    } else {
        assert(mp == 11);
        assert(start == 337);
    }
}

/// Puts the parts of a cycle together again.
proof fn cycle_is_date(
    z: int,
    era: int,
    c: int,
    q: int,
    yy: int,
    doy: int,
    d: int,
    m: int,
    y: int,
)
    requires
        0 <= c <= 3,
        0 <= q <= 24,
        0 <= yy <= 3,
        0 <= doy <= 365,
        doy == 365 ==> yy == 3 && (q < 24 || c == 3),
        z == 146097 * era + 36524 * c + 1461 * q + 365 * yy + doy - 719468,
        m == if (5 * doy + 2) / 153 < 10 {
            (5 * doy + 2) / 153 + 3
        } else {
            (5 * doy + 2) / 153 - 9
        },
        d == doy - (153 * ((5 * doy + 2) / 153) + 2) / 5 + 1,
        y == 400 * era + 100 * c + 4 * q + yy + if m <= 2 {
            1int
        } else {
            0int
        },
    ensures
        is_date(y, m, d),
        day_number(y, m, d) == z,
        1 <= m <= 12,
        1 <= d <= 31,
{
    month_of_day(doy, (5 * doy + 2) / 153, d, m);
    leaps_by_parts(era, c, q, yy);
    leaps_by_parts(4, 3, 17, 1);
    if doy == 365 {
        leap_after_cycle(era, c, q);
    }
    date_from_parts(y, m, d);
    let y0 = 400 * era + 100 * c + 4 * q + yy;
    let l = leaps_through(y0);
    assert(leaps_through(1969) == 477);
    assert(m > 2 ==> y == y0);
    assert(m <= 2 ==> y - 1 == y0);
    number_from_parts(y, m, d, l);
}

proof fn date_from_parts(y: int, m: int, d: int)
    requires
        1 <= m <= 12,
        d >= 1,
        m != 2 ==> d <= month_days(1, m),
        m == 2 ==> d <= 28 || (d == 29 && is_leap(y)),
    ensures
        is_date(y, m, d),
        d <= 31,
{
}

proof fn number_from_parts(y: int, m: int, d: int, l: int)
    requires
        m > 2 ==> l == leaps_through(y),
        m <= 2 ==> l == leaps_through(y - 1),
    ensures
        day_number(y, m, d) == 365 * (y - 1970) + l - leaps_through(1969) + days_before_month(m) + d
            - 1,
{
}

/// The date of the day that is so many days after 1970-01-01, or before it.
pub fn civil_from_days(z: i64) -> (r: (i64, u32, u32))
    requires
        z <= i64::MAX - 719468,
    ensures
        is_date(r.0 as int, r.1 as int, r.2 as int),
        day_number(r.0 as int, r.1 as int, r.2 as int) == z,
        z >= 0 ==> r.0 >= 1970,
{
    let zz: i64 = z + 719468;
    let era: i64 = if zz >= 0 {
        zz / 146097
    } else {
        (zz - 146096) / 146097
    };
    let doe: i64 = zz - era * 146097;
    proof {
        assert(0 <= doe < 146097);
    }
    let c: i64 = if doe / 36524 > 3 {
        3
    } else {
        doe / 36524
    };
    let in_century: i64 = doe - 36524 * c;
    let q: i64 = in_century / 1461;
    let in_cycle: i64 = in_century - 1461 * q;
    let yy: i64 = if in_cycle / 365 > 3 {
        3
    } else {
        in_cycle / 365
    };
    let doy: i64 = in_cycle - 365 * yy;
    proof {
        cycle_parts(doe as int, c as int, q as int, yy as int, doy as int);
    }
    let mp: i64 = (5 * doy + 2) / 153;
    let d: i64 = doy - (153 * mp + 2) / 5 + 1;
    let m: i64 = if mp < 10 {
        mp + 3
    } else {
        mp - 9
    };
    let y: i64 = 400 * era + 100 * c + 4 * q + yy + if m <= 2 {
        1
    } else {
        0
    };
    proof {
        cycle_is_date(
            z as int,
            era as int,
            c as int,
            q as int,
            yy as int,
            doy as int,
            d as int,
            m as int,
            y as int,
        );
    }
    (y, m as u32, d as u32)
}

/// The day on which a year begins.
pub open spec fn year_start(y: int) -> int {
    365 * (y - 1970) + leaps_through(y - 1) - leaps_through(1969)
}

/// The day of its year on which a month begins.
pub open spec fn month_start(y: int, m: int) -> int {
    days_before_month(m) + if m > 2 && is_leap(y) {
        1int
    } else {
        0int
    }
}

proof fn quotient_step(y: int, k: int)
    requires
        k == 4 || k == 100 || k == 400,
    ensures
        y / k - (y - 1) / k == if y % k == 0 {
            1int
        } else {
            0int
        },
{
    vstd::arithmetic::div_mod::lemma_fundamental_div_mod(y, k);
    let a = y / k;
    let r = y % k;
    if k == 4 {
        if r == 0 {
            vstd::arithmetic::div_mod::lemma_fundamental_div_mod_converse(y - 1, 4, a - 1, 3);
        } else {
            vstd::arithmetic::div_mod::lemma_fundamental_div_mod_converse(y - 1, 4, a, r - 1);
        }
    } else if k == 100 {
        if r == 0 {
            vstd::arithmetic::div_mod::lemma_fundamental_div_mod_converse(y - 1, 100, a - 1, 99);
        } else {
            vstd::arithmetic::div_mod::lemma_fundamental_div_mod_converse(y - 1, 100, a, r - 1);
        }
    } else {
        if r == 0 {
            vstd::arithmetic::div_mod::lemma_fundamental_div_mod_converse(y - 1, 400, a - 1, 399);
        } else {
            vstd::arithmetic::div_mod::lemma_fundamental_div_mod_converse(y - 1, 400, a, r - 1);
        }
    }
}

proof fn leap_step(y: int)
    ensures
        leaps_through(y) - leaps_through(y - 1) == if is_leap(y) {
            1int
        } else {
            0int
        },
{
    quotient_step(y, 4);
    quotient_step(y, 100);
    quotient_step(y, 400);
    if y % 400 == 0 {
        let a = y / 400;
        vstd::arithmetic::div_mod::lemma_fundamental_div_mod(y, 400);
        vstd::arithmetic::div_mod::lemma_fundamental_div_mod_converse(y, 100, 4 * a, 0);
        vstd::arithmetic::div_mod::lemma_fundamental_div_mod_converse(y, 4, 100 * a, 0);
    } else if y % 100 == 0 {
        let a = y / 100;
        vstd::arithmetic::div_mod::lemma_fundamental_div_mod(y, 100);
        vstd::arithmetic::div_mod::lemma_fundamental_div_mod_converse(y, 4, 25 * a, 0);
    }
}

/// The number of a day is that of the first of its year, and the days since.
proof fn number_by_year(y: int, m: int, d: int)
    requires
        is_date(y, m, d),
    ensures
        day_number(y, m, d) == year_start(y) + month_start(y, m) + d - 1,
        year_start(y) <= day_number(y, m, d) < year_start(y + 1),
{
    leap_step(y);
    let l = leaps_through(y - 1);
    let k = leaps_through(y);
    assert(year_start(y + 1) == 365 * (y + 1 - 1970) + k - leaps_through(1969));
    month_fits(y, m);
}

proof fn month_fits(y: int, m: int)
    requires
        1 <= m <= 12,
    ensures
        0 <= month_start(y, m),
        month_start(y, m) + month_days(y, m) <= 365 + if is_leap(y) {
            1int
        } else {
            0int
        },
        m < 12 ==> month_start(y, m) + month_days(y, m) == month_start(y, m + 1),
{
}

proof fn months_in_order(y: int, m: int, m2: int)
    requires
        1 <= m < m2 <= 12,
    ensures
        month_start(y, m) + month_days(y, m) <= month_start(y, m2),
    decreases m2 - m,
{
    month_fits(y, m);
    if m + 1 < m2 {
        months_in_order(y, m, m2 - 1);
        month_fits(y, m2 - 1);
        assert(month_days(y, m2 - 1) >= 0);
    }
}

proof fn years_in_order(y: int, y2: int)
    requires
        y < y2,
    ensures
        year_start(y + 1) <= year_start(y2),
    decreases y2 - y,
{
    if y + 1 < y2 {
        years_in_order(y, y2 - 1);
        leap_step(y2 - 1);
        let l = leaps_through(y2 - 2);
        let k = leaps_through(y2 - 1);
        assert(year_start(y2 - 1) == 365 * (y2 - 1 - 1970) + l - leaps_through(1969));
        assert(year_start(y2) == 365 * (y2 - 1970) + k - leaps_through(1969));
    }
}

/// A date has one number: different dates are different days.
pub proof fn dates_and_days_agree(y: int, m: int, d: int, y2: int, m2: int, d2: int)
    requires
        is_date(y, m, d),
        is_date(y2, m2, d2),
        day_number(y, m, d) == day_number(y2, m2, d2),
    ensures
        y == y2 && m == m2 && d == d2,
{
    number_by_year(y, m, d);
    number_by_year(y2, m2, d2);
    let a = year_start(y);
    let b = year_start(y2);
    let n = day_number(y, m, d);
    if y < y2 {
        years_in_order(y, y2);
    } else if y2 < y {
        years_in_order(y2, y);
    }
    assert(y == y2);
    days_of_year_differ(y, m, d, m2, d2);
}

proof fn days_of_year_differ(y: int, m: int, d: int, m2: int, d2: int)
    requires
        is_date(y, m, d),
        is_date(y, m2, d2),
        month_start(y, m) + d == month_start(y, m2) + d2,
    ensures
        m == m2 && d == d2,
{
    if m < m2 {
        months_in_order(y, m, m2);
    } else if m2 < m {
        months_in_order(y, m2, m);
    }
}

/// A moment as date and time of day, in UTC.
pub struct UtcParts {
    pub year: i64,
    pub month: u32,
    pub day: u32,
    pub hour: i64,
    pub minute: i64,
    pub second: i64,
}

/// The parts are those of the moment that is so many seconds after 1970-01-01.
pub open spec fn are_parts_of(p: UtcParts, secs: int) -> bool {
    &&& is_date(p.year as int, p.month as int, p.day as int)
    &&& 0 <= p.hour < 24
    &&& 0 <= p.minute < 60
    &&& 0 <= p.second < 60
    &&& p.year >= 1970
    &&& secs == 86400 * day_number(p.year as int, p.month as int, p.day as int) + 3600 * p.hour + 60
        * p.minute + p.second
}

/// The parts of the moment that is so many seconds after 1970-01-01: there is one
/// date and time that fits.
pub open spec fn parts_of(secs: int) -> UtcParts {
    choose|p: UtcParts| are_parts_of(p, secs)
}

/// The parts of the moment that is so many seconds after 1970-01-01.
pub fn utc_parts(secs: u64) -> (r: UtcParts)
    requires
        secs <= i64::MAX,
    ensures
        are_parts_of(r, secs as int),
        r == parts_of(secs as int),
{
    let days: u64 = secs / 86400;
    let in_day: u64 = secs % 86400;
    let (year, month, day): (i64, u32, u32) = civil_from_days(days as i64);
    let r: UtcParts = UtcParts {
        year,
        month,
        day,
        hour: (in_day / 3600) as i64,
        minute: (in_day % 3600 / 60) as i64,
        second: (in_day % 60) as i64,
    };
    proof {
        time_of_day(in_day as int);
        assert(secs == 86400 * days + in_day);
        assert(days == day_number(year as int, month as int, day as int));
        assert(are_parts_of(r, secs as int));
        moments_have_one_form(r, parts_of(secs as int), secs as int);
    }
    r
}

proof fn time_of_day(t: int)
    requires
        0 <= t < 86400,
    ensures
        t == 3600 * (t / 3600) + 60 * (t % 3600 / 60) + t % 60,
        0 <= t / 3600 < 24,
        0 <= t % 3600 / 60 < 60,
        0 <= t % 60 < 60,
{
}

pub open spec fn two(n: int) -> Seq<char> {
    zero_padded(digits(n as nat), 2)
}

/// A moment as `2026-07-23T03:11:37Z`.
pub open spec fn date_text(p: UtcParts) -> Seq<char> {
    zero_padded(digits(p.year as nat), 4) + "-"@ + two(p.month as int) + "-"@ + two(p.day as int)
        + "T"@ + two(p.hour as int) + ":"@ + two(p.minute as int) + ":"@ + two(p.second as int)
        + "Z"@
}

fn push_two(s: &mut String, n: u64)
    ensures
        final(s)@ == old(s)@ + two(n as int),
{
    let t: String = padded_decimal(n, 2);
    s.append(t.as_str());
}

/// The moment that is so many seconds after 1970-01-01, as iTunes writes it.
pub fn itunes_date(secs: u64) -> (r: String)
    requires
        secs <= i64::MAX,
    ensures
        r@ == date_text(parts_of(secs as int)),
{
    let p: UtcParts = utc_parts(secs);
    let mut s: String = padded_decimal(p.year as u64, 4);
    s.append("-");
    push_two(&mut s, p.month as u64);
    s.append("-");
    push_two(&mut s, p.day as u64);
    s.append("T");
    push_two(&mut s, p.hour as u64);
    s.append(":");
    push_two(&mut s, p.minute as u64);
    s.append(":");
    push_two(&mut s, p.second as u64);
    s.append("Z");
    s
}

/// A moment as `20260723-031137`.
pub open spec fn compact_text(p: UtcParts) -> Seq<char> {
    zero_padded(digits(p.year as nat), 4) + two(p.month as int) + two(p.day as int) + "-"@ + two(
        p.hour as int,
    ) + two(p.minute as int) + two(p.second as int)
}

/// The moment that is so many seconds after 1970-01-01, as it goes into the name
/// of a file.
pub fn compact_timestamp(secs: u64) -> (r: String)
    requires
        secs <= i64::MAX,
    ensures
        r@ == compact_text(parts_of(secs as int)),
{
    let p: UtcParts = utc_parts(secs);
    let mut s: String = padded_decimal(p.year as u64, 4);
    push_two(&mut s, p.month as u64);
    push_two(&mut s, p.day as u64);
    s.append("-");
    push_two(&mut s, p.hour as u64);
    push_two(&mut s, p.minute as u64);
    push_two(&mut s, p.second as u64);
    s
}

/// A moment has one form: its parts are the only ones.
pub proof fn moments_have_one_form(p: UtcParts, q: UtcParts, secs: int)
    requires
        are_parts_of(p, secs),
        are_parts_of(q, secs),
    ensures
        p == q,
{
    let a = day_number(p.year as int, p.month as int, p.day as int);
    let b = day_number(q.year as int, q.month as int, q.day as int);
    one_time_of_day(
        a,
        b,
        p.hour as int,
        p.minute as int,
        p.second as int,
        q.hour as int,
        q.minute as int,
        q.second as int,
    );
    dates_and_days_agree(
        p.year as int,
        p.month as int,
        p.day as int,
        q.year as int,
        q.month as int,
        q.day as int,
    );
}

proof fn one_time_of_day(a: int, b: int, h: int, m: int, s: int, h2: int, m2: int, s2: int)
    requires
        0 <= h < 24,
        0 <= m < 60,
        0 <= s < 60,
        0 <= h2 < 24,
        0 <= m2 < 60,
        0 <= s2 < 60,
        86400 * a + 3600 * h + 60 * m + s == 86400 * b + 3600 * h2 + 60 * m2 + s2,
    ensures
        a == b && h == h2 && m == m2 && s == s2,
{
    let u = 60 * m + s;
    let u2 = 60 * m2 + s2;
    one_split(86400, a, 3600 * h + u, b, 3600 * h2 + u2);
    one_split(3600, h, u, h2, u2);
    one_split(60, m, s, m2, s2);
}

proof fn one_split(k: int, a: int, r: int, b: int, t: int)
    requires
        k == 86400 || k == 3600 || k == 60,
        0 <= r < k,
        0 <= t < k,
        k * a + r == k * b + t,
    ensures
        a == b && r == t,
{
    vstd::arithmetic::div_mod::lemma_fundamental_div_mod_converse(k * a + r, k, a, r);
    vstd::arithmetic::div_mod::lemma_fundamental_div_mod_converse(k * a + r, k, b, t);
}

} // verus!
