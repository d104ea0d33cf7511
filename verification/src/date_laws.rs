//! Dates as numbers and as words.

use crate::dates::{
    are_parts_of, compact_text, date_text, day_number, is_date, is_leap, leaps_through, month_days,
    two, UtcParts,
};
use crate::text::{decimals_are_read_back, digits, digits_value, zero_padded};
use vstd::prelude::*;

verus! {

// ---------------------------------------------------------------------------
// Days
// ---------------------------------------------------------------------------

proof fn leap_days_by_year(y: int)
    ensures
        leaps_through(y) == leaps_through(y - 1) + if is_leap(y) {
            1int
        } else {
            0int
        },
{
    quotient_by_one(y, 4);
    quotient_by_one(y, 100);
    quotient_by_one(y, 400);
    if y % 400 == 0 {
        assert(y == 400 * (y / 400));
        assert(y % 100 == 0) by (nonlinear_arith)
            requires
                y == 400 * (y / 400),
        {
            assert(y == 100 * (4 * (y / 400)));
            vstd::arithmetic::div_mod::lemma_mod_multiples_basic(4 * (y / 400), 100);
        }
    }
    if y % 100 == 0 {
        assert(y == 100 * (y / 100));
        assert(y % 4 == 0) by (nonlinear_arith)
            requires
                y == 100 * (y / 100),
        {
            assert(y == 4 * (25 * (y / 100)));
            vstd::arithmetic::div_mod::lemma_mod_multiples_basic(25 * (y / 100), 4);
        }
    }
}

proof fn quotient_by_one(y: int, k: int)
    requires
        k == 4 || k == 100 || k == 400,
    ensures
        y / k == (y - 1) / k + if y % k == 0 {
            1int
        } else {
            0int
        },
{
}

/// Days are counted one by one, from the first of January 1970 on: the day after a day
/// has the next number, through months, years and leap years.
pub proof fn days_follow_each_other(y: int, m: int, d: int)
    requires
        is_date(y, m, d),
    ensures
        day_number(1970, 1, 1) == 0,
        d < month_days(y, m) ==> day_number(y, m, d + 1) == day_number(y, m, d) + 1,
        d == month_days(y, m) && m < 12 ==> day_number(y, m + 1, 1) == day_number(y, m, d) + 1,
        d == month_days(y, m) && m == 12 ==> day_number(y + 1, 1, 1) == day_number(y, m, d) + 1,
{
    leap_days_by_year(y);
}

// ---------------------------------------------------------------------------
// Texts
// ---------------------------------------------------------------------------

proof fn a_zero_in_front_is_nothing(s: Seq<char>)
    ensures
        digits_value(seq!['0'] + s) == digits_value(s),
    decreases s.len(),
{
    let z = seq!['0'];
    let t = z + s;
    if s.len() == 0 {
        assert(t =~= z);
        assert(z.drop_last() =~= Seq::empty());
        assert(digits_value(Seq::<char>::empty()) == 0);
        assert(z.last() == '0');
    } else {
        a_zero_in_front_is_nothing(s.drop_last());
        assert(t.drop_last() =~= z + s.drop_last());
        assert(t.last() == s.last());
    }
}

pub(crate) proof fn padding_keeps_the_number(s: Seq<char>, width: nat)
    ensures
        digits_value(zero_padded(s, width)) == digits_value(s),
        s.len() <= width ==> zero_padded(s, width).len() == width,
    decreases width - s.len(),
{
    if s.len() < width {
        a_zero_in_front_is_nothing(s);
        padding_keeps_the_number(seq!['0'] + s, width);
    }
}

proof fn how_long(n: nat)
    ensures
        n < 10 ==> digits(n).len() == 1,
        n < 100 ==> digits(n).len() <= 2,
        n < 1000 ==> digits(n).len() <= 3,
        n < 10000 ==> digits(n).len() <= 4,
{
    reveal_with_fuel(digits, 4);
}

proof fn padded(n: nat, width: nat)
    requires
        (width == 2 && n < 100) || (width == 4 && n < 10000),
    ensures
        zero_padded(digits(n), width).len() == width,
        digits_value(zero_padded(digits(n), width)) == n,
{
    how_long(n);
    decimals_are_read_back(n);
    padding_keeps_the_number(digits(n), width);
}

/// Whoever reads a written date finds the year, the month, the day, the hour, the minute
/// and the second of the moment, each at its own place.
pub proof fn a_written_date_is_read_back(p: UtcParts, secs: int)
    requires
        are_parts_of(p, secs),
        p.year <= 9999,
    ensures
        ({
            let s = date_text(p);
            &&& s.len() == 20
            &&& digits_value(s.subrange(0, 4)) == p.year
            &&& s[4] == '-'
            &&& digits_value(s.subrange(5, 7)) == p.month
            &&& s[7] == '-'
            &&& digits_value(s.subrange(8, 10)) == p.day
            &&& s[10] == 'T'
            &&& digits_value(s.subrange(11, 13)) == p.hour
            &&& s[13] == ':'
            &&& digits_value(s.subrange(14, 16)) == p.minute
            &&& s[16] == ':'
            &&& digits_value(s.subrange(17, 19)) == p.second
            &&& s[19] == 'Z'
        }),
{
    reveal_strlit("-");
    reveal_strlit("T");
    reveal_strlit(":");
    reveal_strlit("Z");
    padded(p.year as nat, 4);
    padded(p.month as nat, 2);
    padded(p.day as nat, 2);
    padded(p.hour as nat, 2);
    padded(p.minute as nat, 2);
    padded(p.second as nat, 2);
    let s = date_text(p);
    assert(s.subrange(0, 4) =~= zero_padded(digits(p.year as nat), 4));
    assert(s.subrange(5, 7) =~= two(p.month as int));
    assert(s.subrange(8, 10) =~= two(p.day as int));
    assert(s.subrange(11, 13) =~= two(p.hour as int));
    assert(s.subrange(14, 16) =~= two(p.minute as int));
    assert(s.subrange(17, 19) =~= two(p.second as int));
}

/// Whoever reads a moment in its short form finds the same parts in the same order.
pub proof fn a_short_moment_is_read_back(p: UtcParts, secs: int)
    requires
        are_parts_of(p, secs),
        p.year <= 9999,
    ensures
        ({
            let s = compact_text(p);
            &&& s.len() == 15
            &&& digits_value(s.subrange(0, 4)) == p.year
            &&& digits_value(s.subrange(4, 6)) == p.month
            &&& digits_value(s.subrange(6, 8)) == p.day
            &&& s[8] == '-'
            &&& digits_value(s.subrange(9, 11)) == p.hour
            &&& digits_value(s.subrange(11, 13)) == p.minute
            &&& digits_value(s.subrange(13, 15)) == p.second
        }),
{
    reveal_strlit("-");
    padded(p.year as nat, 4);
    padded(p.month as nat, 2);
    padded(p.day as nat, 2);
    padded(p.hour as nat, 2);
    padded(p.minute as nat, 2);
    padded(p.second as nat, 2);
    let s = compact_text(p);
    assert(s.subrange(0, 4) =~= zero_padded(digits(p.year as nat), 4));
    assert(s.subrange(4, 6) =~= two(p.month as int));
    assert(s.subrange(6, 8) =~= two(p.day as int));
    assert(s.subrange(9, 11) =~= two(p.hour as int));
    assert(s.subrange(11, 13) =~= two(p.minute as int));
    assert(s.subrange(13, 15) =~= two(p.second as int));
}

} // verus!
