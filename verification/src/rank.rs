//! Fractional ranks: texts whose order is the order of the things they rank.
//!
//! A rank reads as the digits of a fraction in base 62, over `0-9A-Za-z`, whose
//! characters stand in their own byte order. Between two ranks there is always
//! another one, so moving something touches its own rank and no other.

use crate::text::{before, chars_of, text_of};
use vstd::prelude::*;

verus! {

broadcast use vstd::string::group_string_axioms;

/// The digit of value `v`.
pub open spec fn digit(v: int) -> char {
    if v < 10 {
        (48 + v) as char
    } else if v < 36 {
        (55 + v) as char
    } else {
        (61 + v) as char
    }
}

/// The value of a digit. A character that is no digit counts as the nearest
/// digit below it, or as zero.
pub open spec fn value(c: char) -> int {
    if '0' > c {
        0
    } else if c <= '9' {
        c as int - 48
    } else if 'A' > c {
        9
    } else if c <= 'Z' {
        c as int - 55
    } else if 'a' > c {
        35
    } else if c <= 'z' {
        c as int - 61
    } else {
        61
    }
}

pub open spec fn is_digit(c: char) -> bool {
    ('0' <= c && c <= '9') || ('A' <= c && c <= 'Z') || ('a' <= c && c <= 'z')
}

/// A fraction in lowest form: digits only, the last of them not zero.
pub open spec fn is_fraction(s: Seq<char>) -> bool {
    &&& forall|i: int| 0 <= i < s.len() ==> is_digit(#[trigger] s[i])
    &&& s.len() > 0 ==> s.last() != '0'
}

/// A rank: a fraction greater than zero.
pub open spec fn is_rank(s: Seq<char>) -> bool {
    s.len() > 0 && is_fraction(s)
}

/// The first digit's value, zero where there is no digit left.
pub open spec fn head(s: Seq<char>) -> int {
    if s.len() > 0 {
        value(s[0])
    } else {
        0
    }
}

/// What follows the first digit.
pub open spec fn rest(s: Seq<char>) -> Seq<char> {
    if s.len() > 0 {
        s.drop_first()
    } else {
        s
    }
}

/// A rank past `a`: half way from its first digit to the end, or deeper where no
/// digit is left above it.
pub open spec fn past(a: Seq<char>) -> Seq<char>
    decreases a.len(),
{
    if head(a) < 61 {
        seq![digit((head(a) + 62) / 2)]
    } else {
        seq![digit(61)] + past(rest(a))
    }
}

/// A rank between `a` and `b`, as short as half way allows.
pub open spec fn midpoint(a: Seq<char>, b: Seq<char>) -> Seq<char>
    decreases b.len(),
{
    if b.len() == 0 {
        past(a)
    } else if head(a) == head(b) {
        seq![digit(head(b))] + midpoint(rest(a), rest(b))
    } else if head(b) - head(a) > 1 {
        seq![digit((head(a) + head(b)) / 2)]
    } else if head(b) - head(a) == 1 && b.len() > 1 {
        seq![digit(head(b))]
    } else {
        seq![digit(head(a))] + past(rest(a))
    }
}

/// The rank that goes between two neighbours, either of which may be missing.
pub open spec fn rank_between(prev: Option<Seq<char>>, next: Option<Seq<char>>) -> Seq<char> {
    let a = match prev {
        Some(p) => p,
        None => Seq::empty(),
    };
    match next {
        Some(n) => midpoint(a, n),
        None => past(a),
    }
}

proof fn digits_in_order(v: int, w: int)
    requires
        0 <= v < w < 62,
    ensures
        digit(v) < digit(w),
{
}

proof fn digit_value(v: int)
    requires
        0 <= v < 62,
    ensures
        value(digit(v)) == v,
        is_digit(digit(v)),
        v > 0 ==> digit(v) != '0',
{
}

proof fn value_digit(c: char)
    requires
        is_digit(c),
    ensures
        digit(value(c)) == c,
        0 <= value(c) < 62,
{
}

proof fn value_bound(c: char)
    ensures
        0 <= value(c) <= 61,
{
}

proof fn rest_is_fraction(a: Seq<char>)
    requires
        is_fraction(a),
    ensures
        is_fraction(rest(a)),
{
    if a.len() > 0 {
        let t = a.drop_first();
        assert forall|i: int| 0 <= i < t.len() implies is_digit(#[trigger] t[i]) by {
            assert(t[i] == a[i + 1]);
        }
        if t.len() > 0 {
            assert(t.last() == a.last());
        }
    }
}

/// `past` gives a rank, and one that comes after any fraction it is asked for.
pub proof fn past_comes_after(a: Seq<char>)
    ensures
        is_rank(past(a)),
        is_fraction(a) ==> before(a, past(a)),
    decreases a.len(),
{
    let h = head(a);
    if a.len() > 0 {
        value_bound(a[0]);
    }
    if h < 61 {
        let m = (h + 62) / 2;
        assert(h < m < 62);
        digit_value(m);
        digits_in_order(h, m);
        assert(past(a).last() == digit(m));
        if is_fraction(a) && a.len() > 0 {
            value_digit(a[0]);
        }
    } else {
        let q = past(rest(a));
        past_comes_after(rest(a));
        digit_value(61);
        let r = seq![digit(61)] + q;
        assert(r.last() == q.last());
        assert forall|i: int| 0 <= i < r.len() implies is_digit(#[trigger] r[i]) by {
            if i > 0 {
                assert(r[i] == q[i - 1]);
            }
        }
        if is_fraction(a) {
            rest_is_fraction(a);
            value_digit(a[0]);
            assert(r.drop_first() =~= q);
            assert(a[0] == r[0]);
        }
    }
}

/// `midpoint` gives a rank; between two fractions in order it gives one that lies
/// strictly between them.
pub proof fn midpoint_lies_between(a: Seq<char>, b: Seq<char>)
    ensures
        is_rank(midpoint(a, b)),
        is_fraction(a) && is_fraction(b) && before(a, b) ==> before(a, midpoint(a, b)) && before(
            midpoint(a, b),
            b,
        ),
    decreases b.len(),
{
    let r = midpoint(a, b);
    if a.len() > 0 {
        value_bound(a[0]);
    }
    if b.len() > 0 {
        value_bound(b[0]);
    }
    if b.len() == 0 {
        past_comes_after(a);
    } else if head(a) == head(b) {
        let q = midpoint(rest(a), rest(b));
        midpoint_lies_between(rest(a), rest(b));
        digit_value(head(b));
        assert(r.last() == q.last());
        assert forall|i: int| 0 <= i < r.len() implies is_digit(#[trigger] r[i]) by {
            if i > 0 {
                assert(r[i] == q[i - 1]);
            }
        }
        assert(r.drop_first() =~= q);
        if is_fraction(a) && is_fraction(b) && before(a, b) {
            rest_is_fraction(a);
            rest_is_fraction(b);
            value_digit(b[0]);
            if a.len() > 0 {
                value_digit(a[0]);
                assert(a[0] == b[0]);
            } else {
                assert(b[0] == '0');
                assert(b.len() > 1) by {
                    if b.len() == 1 {
                        assert(b.last() == b[0]);
                    }
                }
                assert(before(rest(a), rest(b)));
            }
            assert(before(r, b));
        }
    } else if head(b) - head(a) > 1 {
        let m = (head(a) + head(b)) / 2;
        digit_value(m);
        assert(r.last() == digit(m));
        if is_fraction(a) && is_fraction(b) {
            value_digit(b[0]);
            digits_in_order(head(a), m);
            digits_in_order(m, head(b));
            if a.len() > 0 {
                value_digit(a[0]);
            }
        }
    } else if head(b) - head(a) == 1 && b.len() > 1 {
        digit_value(head(b));
        assert(r.last() == digit(head(b)));
        if is_fraction(a) && is_fraction(b) {
            value_digit(b[0]);
            digits_in_order(head(a), head(b));
            if a.len() > 0 {
                value_digit(a[0]);
            }
            assert(r.drop_first() =~= Seq::empty());
            assert(before(r.drop_first(), b.drop_first()));
            assert(before(r, b));
            assert(before(a, r));
        }
    } else {
        let q = past(rest(a));
        past_comes_after(rest(a));
        digit_value(head(a));
        assert(r.last() == q.last());
        assert forall|i: int| 0 <= i < r.len() implies is_digit(#[trigger] r[i]) by {
            if i > 0 {
                assert(r[i] == q[i - 1]);
            }
        }
        if is_fraction(a) && is_fraction(b) && before(a, b) {
            rest_is_fraction(a);
            value_digit(b[0]);
            assert(r.drop_first() =~= q);
            if a.len() > 0 {
                value_digit(a[0]);
                if head(b) < head(a) {
                    digits_in_order(head(b), head(a));
                    assert(false);
                }
            }
            digits_in_order(head(a), head(b));
        }
    }
}

fn digit_of(v: u8) -> (c: char)
    requires
        v < 62,
    ensures
        c == digit(v as int),
{
    if v < 10 {
        (48 + v) as char
    } else if v < 36 {
        (55 + v) as char
    } else {
        (61 + v) as char
    }
}

fn value_of(c: char) -> (v: u8)
    ensures
        v == value(c),
        v < 62,
{
    if '0' > c {
        0
    } else if c <= '9' {
        (c as u32 - 48) as u8
    } else if 'A' > c {
        9
    } else if c <= 'Z' {
        (c as u32 - 55) as u8
    } else if 'a' > c {
        35
    } else if c <= 'z' {
        (c as u32 - 61) as u8
    } else {
        61
    }
}

fn head_at(s: &Vec<char>, i: usize) -> (v: u8)
    requires
        i <= s@.len(),
    ensures
        v == head(s@.skip(i as int)),
        v < 62,
{
    if i < s.len() {
        value_of(s[i])
    } else {
        0
    }
}

fn push_past(a: &Vec<char>, from: usize, out: &mut Vec<char>)
    requires
        from <= a@.len(),
    ensures
        final(out)@ == old(out)@ + past(a@.skip(from as int)),
{
    let mut i: usize = from;
    let n: usize = a.len();
    let ghost start = out@;
    proof {
        assert(start + past(a@.skip(from as int)) =~= out@ + past(a@.skip(i as int)));
    }
    loop
        invariant
            from <= i <= n,
            n == a@.len(),
            start == old(out)@,
            start + past(a@.skip(from as int)) == out@ + past(a@.skip(i as int)),
        decreases a@.len() - i,
    {
        let h: u8 = head_at(a, i);
        if h < 61 {
            let m: u8 = (h + 62) / 2;
            out.push(digit_of(m));
            proof {
                assert(start + past(a@.skip(from as int)) =~= out@);
            }
            return;
        }
        let ghost so_far = out@;
        out.push(digit_of(61));
        proof {
            let r = a@.skip(i as int);
            assert(r.len() > 0);
            assert(rest(r) =~= a@.skip(i + 1));
            assert(so_far + (seq![digit(61)] + past(rest(r))) =~= out@ + past(a@.skip(i + 1)));
        }
        i += 1;
    }
}

/// The rank that goes between `prev` and `next`. Where both are fractions and in
/// order, it lies strictly between them; where `next` is missing, strictly after
/// `prev`.
pub fn between(prev: Option<&str>, next: Option<&str>) -> (r: String)
    ensures
        r@ == rank_between(
            match prev {
                Some(p) => Some(p@),
                None => None,
            },
            match next {
                Some(n) => Some(n@),
                None => None,
            },
        ),
        is_rank(r@),
        prev is Some && next is None && is_fraction(prev->0@) ==> before(prev->0@, r@),
        prev is None && next is Some && is_rank(next->0@) ==> before(r@, next->0@),
        prev is Some && next is Some && is_fraction(prev->0@) && is_fraction(next->0@) && before(
            prev->0@,
            next->0@,
        ) ==> before(prev->0@, r@) && before(r@, next->0@),
{
    let a: Vec<char> = match prev {
        Some(p) => chars_of(p),
        None => Vec::new(),
    };
    let mut out: Vec<char> = Vec::new();
    match next {
        None => {
            push_past(&a, 0, &mut out);
            proof {
                assert(a@.skip(0) =~= a@);
                assert(out@ =~= past(a@));
                past_comes_after(a@);
            }
        },
        Some(n) => {
            let b: Vec<char> = chars_of(n);
            push_midpoint(&a, &b, &mut out);
            proof {
                assert(out@ =~= midpoint(a@, b@));
                midpoint_lies_between(a@, b@);
                if a@.len() == 0 && b@.len() > 0 {
                    assert(before(a@, b@));
                }
            }
        },
    }
    let len: usize = out.len();
    let r: String = text_of(&out, 0, len);
    proof {
        assert(out@.subrange(0, len as int) =~= out@);
        if prev is None {
            assert(a@ =~= Seq::empty());
        }
    }
    r
}

fn push_midpoint(a: &Vec<char>, b: &Vec<char>, out: &mut Vec<char>)
    ensures
        final(out)@ == old(out)@ + midpoint(a@, b@),
{
    let ghost start = out@;
    let ghost whole = start + midpoint(a@, b@);
    let mut i: usize = 0;
    let mut j: usize = 0;
    proof {
        assert(a@.skip(0) =~= a@);
        assert(b@.skip(0) =~= b@);
    }
    while j < b.len()
        invariant
            i <= a@.len(),
            j <= b@.len(),
            whole == out@ + midpoint(a@.skip(i as int), b@.skip(j as int)),
            whole == old(out)@ + midpoint(a@, b@),
        decreases b@.len() - j,
    {
        let x: u8 = head_at(a, i);
        let y: u8 = head_at(b, j);
        let ghost ra = a@.skip(i as int);
        let ghost rb = b@.skip(j as int);
        proof {
            assert(rest(rb) =~= b@.skip(j + 1));
            if i < a@.len() {
                assert(rest(ra) =~= a@.skip(i + 1));
            } else {
                assert(rest(ra) =~= ra);
            }
        }
        let ghost so_far = out@;
        if x == y {
            out.push(digit_of(y));
            proof {
                assert(so_far + (seq![digit(y as int)] + midpoint(rest(ra), rest(rb))) =~= out@
                    + midpoint(rest(ra), rest(rb)));
            }
            if i < a.len() {
                i += 1;
            }
            j += 1;
        } else if y > x && y - x > 1 {
            out.push(digit_of((x + y) / 2));
            proof {
                assert(whole =~= out@);
            }
            return;
        } else if y > x && b.len() - j > 1 {
            out.push(digit_of(y));
            proof {
                assert(whole =~= out@);
            }
            return;
        } else {
            out.push(digit_of(x));
            if i < a.len() {
                i += 1;
            }
            push_past(a, i, out);
            proof {
                assert(whole =~= so_far + (seq![digit(x as int)] + past(rest(ra))));
                assert(out@ =~= whole);
            }
            return;
        }
    }
    push_past(a, i, out);
}

/// The rank for position `index` among siblings whose ranks are given in order;
/// an index past the end means the end.
pub open spec fn rank_for(siblings: Seq<Seq<char>>, index: int) -> Seq<char> {
    let i = if index > siblings.len() {
        siblings.len() as int
    } else {
        index
    };
    rank_between(
        if i > 0 {
            Some(siblings[i - 1])
        } else {
            None
        },
        if i < siblings.len() {
            Some(siblings[i])
        } else {
            None
        },
    )
}

/// The rank that puts something at position `index` among `siblings`.
pub fn rank_at(siblings: &Vec<String>, index: usize) -> (r: String)
    ensures
        r@ == rank_for(crate::seqs::views(siblings@), index as int),
        is_rank(r@),
{
    let i: usize = if index > siblings.len() {
        siblings.len()
    } else {
        index
    };
    let prev: Option<&str> = if i > 0 {
        Some(siblings[i - 1].as_str())
    } else {
        None
    };
    let next: Option<&str> = if i < siblings.len() {
        Some(siblings[i].as_str())
    } else {
        None
    };
    between(prev, next)
}

/// `n` ranks, each after the one before it.
pub open spec fn ranks_in_row(n: nat) -> Seq<Seq<char>>
    decreases n,
{
    if n == 0 {
        Seq::empty()
    } else {
        let earlier = ranks_in_row((n - 1) as nat);
        earlier.push(
            rank_between(
                if n > 1 {
                    Some(earlier.last())
                } else {
                    None
                },
                None,
            ),
        )
    }
}

/// `n` ranks for things that are already in order.
pub fn initial_ranks(n: usize) -> (r: Vec<String>)
    ensures
        crate::seqs::views(r@) == ranks_in_row(n as nat),
{
    let mut r: Vec<String> = Vec::new();
    proof {
        assert(crate::seqs::views(r@) =~= ranks_in_row(0));
    }
    for i in 0..n
        invariant
            r@.len() == i,
            crate::seqs::views(r@) == ranks_in_row(i as nat),
    {
        let prev: Option<&str> = if i > 0 {
            Some(r[i - 1].as_str())
        } else {
            None
        };
        let next: String = between(prev, None);
        proof {
            crate::seqs::views_push(r@, next);
            if i > 0 {
                assert(ranks_in_row(i as nat).last() == r@[i - 1]@);
            }
        }
        r.push(next);
    }
    r
}

/// The ranks handed out in a row are ranks, and each comes after every earlier
/// one.
pub proof fn ranks_in_row_ascend(n: nat)
    ensures
        ranks_in_row(n).len() == n,
        forall|i: int| 0 <= i < n ==> is_rank(#[trigger] ranks_in_row(n)[i]),
        forall|i: int, j: int|
            0 <= i < j < n ==> before(#[trigger] ranks_in_row(n)[i], #[trigger] ranks_in_row(n)[j]),
    decreases n,
{
    if n > 0 {
        let m = (n - 1) as nat;
        let earlier = ranks_in_row(m);
        ranks_in_row_ascend(m);
        let prev = if n > 1 {
            earlier.last()
        } else {
            Seq::empty()
        };
        past_comes_after(prev);
        assert(ranks_in_row(n) == earlier.push(past(prev)));
        assert forall|i: int, j: int| 0 <= i < j < n implies before(
            #[trigger] ranks_in_row(n)[i],
            #[trigger] ranks_in_row(n)[j],
        ) by {
            if j == n - 1 {
                assert(earlier.last() == earlier[n - 2]);
                if i < n - 2 {
                    assert(before(earlier[i], earlier[n - 2]));
                    crate::text::before_transitive(earlier[i], earlier[n - 2], past(prev));
                }
            }
        }
    }
}

} // verus!
