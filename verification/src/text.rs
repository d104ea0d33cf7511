//! Text: comparison, digits and searching, over the sequence of characters that
//! a string holds.

use vstd::prelude::*;

verus! {

broadcast use vstd::string::group_string_axioms;

/// `String::push`: the character goes to the end.
pub assume_specification[ String::push ](s: &mut String, c: char)
    ensures
        final(s)@ == old(s)@.push(c),
;

/// `==` on `str`: true when both hold the same characters.
#[verifier::external_body]
pub fn same(a: &str, b: &str) -> (r: bool)
    ensures
        r == (a@ == b@),
{
    a == b
}

/// What `str::to_lowercase` gives for a text: the Unicode lower-case form.
pub uninterp spec fn lowercase(s: Seq<char>) -> Seq<char>;

/// `str::to_lowercase`: the result is the Unicode lower-case form of the text,
/// which depends on the text alone.
#[verifier::external_body]
pub fn to_lower(s: &str) -> (r: String)
    ensures
        r@ == lowercase(s@),
{
    s.to_lowercase()
}

/// The characters of a text, one by one.
pub fn chars_of(s: &str) -> (r: Vec<char>)
    ensures
        r@ == s@,
{
    let mut r: Vec<char> = Vec::new();
    for c in it: s.chars()
        invariant
            it.seq() == s@,
            r@ == s@.take(it.index()),
    {
        r.push(c);
        proof {
            assert(s@.take(it.index() + 1) =~= s@.take(it.index()).push(c));
        }
    }
    proof {
        assert(s@.take(s@.len() as int) =~= s@);
    }
    r
}

/// The text made of the characters `from .. to` of `v`.
pub fn text_of(v: &Vec<char>, from: usize, to: usize) -> (r: String)
    requires
        from <= to <= v@.len(),
    ensures
        r@ == v@.subrange(from as int, to as int),
{
    let mut r: String = String::new();
    let mut i: usize = from;
    while i < to
        invariant
            from <= i <= to <= v@.len(),
            r@ == v@.subrange(from as int, i as int),
        decreases to - i,
    {
        r.push(v[i]);
        proof {
            assert(v@.subrange(from as int, i + 1) =~= v@.subrange(from as int, i as int).push(v@[i as int]));
        }
        i += 1;
    }
    r
}

/// Whether `a` comes before `b` in the order of their code points, which is also
/// the order of their UTF-8 bytes.
pub open spec fn before(a: Seq<char>, b: Seq<char>) -> bool
    decreases a.len(),
{
    if b.len() == 0 {
        false
    } else if a.len() == 0 {
        true
    } else if a[0] != b[0] {
        a[0] < b[0]
    } else {
        before(a.drop_first(), b.drop_first())
    }
}

pub(crate) proof fn before_irreflexive(a: Seq<char>)
    ensures
        !before(a, a),
    decreases a.len(),
{
    if a.len() > 0 {
        before_irreflexive(a.drop_first());
    }
}

pub(crate) proof fn before_asymmetric(a: Seq<char>, b: Seq<char>)
    ensures
        before(a, b) ==> !before(b, a),
    decreases a.len(),
{
    if a.len() > 0 && b.len() > 0 {
        before_asymmetric(a.drop_first(), b.drop_first());
    }
}

pub(crate) proof fn before_transitive(a: Seq<char>, b: Seq<char>, c: Seq<char>)
    requires
        before(a, b),
        before(b, c),
    ensures
        before(a, c),
    decreases a.len(),
{
    if a.len() > 0 && b.len() > 0 && c.len() > 0 && a[0] == b[0] && b[0] == c[0] {
        before_transitive(a.drop_first(), b.drop_first(), c.drop_first());
    }
}

pub(crate) proof fn before_total(a: Seq<char>, b: Seq<char>)
    ensures
        before(a, b) || before(b, a) || a == b,
    decreases a.len(),
{
    if a.len() == 0 {
        if b.len() == 0 {
            assert(a =~= b);
        }
    } else if b.len() > 0 && a[0] == b[0] {
        before_total(a.drop_first(), b.drop_first());
        if a.drop_first() == b.drop_first() {
            assert(a =~= seq![a[0]] + a.drop_first());
            assert(b =~= seq![b[0]] + b.drop_first());
        }
    }
}

/// Whether `a` comes before `b`.
pub fn is_before(a: &str, b: &str) -> (r: bool)
    ensures
        r == before(a@, b@),
{
    let x: Vec<char> = chars_of(a);
    let y: Vec<char> = chars_of(b);
    let mut i: usize = 0;
    proof {
        assert(a@.skip(0) =~= a@);
        assert(b@.skip(0) =~= b@);
    }
    while i < x.len() && i < y.len()
        invariant
            x@ == a@,
            y@ == b@,
            0 <= i <= x@.len(),
            i <= y@.len(),
            before(a@, b@) == before(a@.skip(i as int), b@.skip(i as int)),
        decreases x@.len() - i,
    {
        proof {
            assert(a@.skip(i as int).drop_first() =~= a@.skip(i + 1));
            assert(b@.skip(i as int).drop_first() =~= b@.skip(i + 1));
        }
        if x[i] != y[i] {
            return x[i] < y[i];
        }
        i += 1;
    }
    i < y.len()
}

/// The text `a` followed by `b`.
pub fn join(a: &str, b: &str) -> (r: String)
    ensures
        r@ == a@ + b@,
{
    let mut r: String = a.to_owned();
    r.append(b);
    r
}

/// The text `a` followed by `b` and `c`.
pub fn join3(a: &str, b: &str, c: &str) -> (r: String)
    ensures
        r@ == a@ + b@ + c@,
{
    let mut r: String = a.to_owned();
    r.append(b);
    r.append(c);
    r
}

/// The copy of an optional text.
pub fn copy_opt(s: &Option<String>) -> (r: Option<String>)
    ensures
        r == *s,
{
    match s {
        Some(t) => Some(t.clone()),
        None => None,
    }
}

/// The characters of an optional text.
pub open spec fn opt_view(s: Option<String>) -> Option<Seq<char>> {
    match s {
        Some(t) => Some(t@),
        None => None,
    }
}

/// Whether two optional texts are the same, absence being the same as absence.
pub fn same_opt(a: &Option<String>, b: &Option<String>) -> (r: bool)
    ensures
        r == (opt_view(*a) == opt_view(*b)),
{
    match (a, b) {
        (Some(x), Some(y)) => same(x.as_str(), y.as_str()),
        (None, None) => true,
        _ => false,
    }
}

/// The characters that Unicode calls white space.
pub open spec fn is_space(c: char) -> bool {
    ||| ('\u{9}' <= c && c <= '\u{d}')
    ||| c == ' '
    ||| c == '\u{85}'
    ||| c == '\u{a0}'
    ||| c == '\u{1680}'
    ||| ('\u{2000}' <= c && c <= '\u{200a}')
    ||| c == '\u{2028}'
    ||| c == '\u{2029}'
    ||| c == '\u{202f}'
    ||| c == '\u{205f}'
    ||| c == '\u{3000}'
}

fn space(c: char) -> (r: bool)
    ensures
        r == is_space(c),
{
    ('\u{9}' <= c && c <= '\u{d}') || c == ' ' || c == '\u{85}' || c == '\u{a0}' || c == '\u{1680}'
        || ('\u{2000}' <= c && c <= '\u{200a}') || c == '\u{2028}' || c == '\u{2029}' || c
        == '\u{202f}' || c == '\u{205f}' || c == '\u{3000}'
}

/// The text without the white space in front.
pub open spec fn trim_front(s: Seq<char>) -> Seq<char>
    decreases s.len(),
{
    if s.len() > 0 && is_space(s[0]) {
        trim_front(s.drop_first())
    } else {
        s
    }
}

/// The text without the white space at its end.
pub open spec fn trim_back(s: Seq<char>) -> Seq<char>
    decreases s.len(),
{
    if s.len() > 0 && is_space(s.last()) {
        trim_back(s.drop_last())
    } else {
        s
    }
}

/// The text without the white space at both ends.
pub open spec fn trimmed(s: Seq<char>) -> Seq<char> {
    trim_back(trim_front(s))
}

/// The text without the white space at both ends.
pub fn trim(s: &str) -> (r: String)
    ensures
        r@ == trimmed(s@),
{
    let v: Vec<char> = chars_of(s);
    let n: usize = v.len();
    let mut i: usize = 0;
    proof {
        assert(s@.skip(0) =~= s@);
    }
    while i < n && space(v[i])
        invariant
            v@ == s@,
            n == v@.len(),
            i <= n,
            trim_front(s@) == trim_front(s@.skip(i as int)),
        decreases n - i,
    {
        proof {
            assert(s@.skip(i as int).drop_first() =~= s@.skip(i + 1));
        }
        i += 1;
    }
    let mut j: usize = n;
    proof {
        assert(s@.skip(i as int) =~= s@.subrange(i as int, n as int));
        assert(trim_front(s@) == s@.skip(i as int));
    }
    while j > i && space(v[j - 1])
        invariant
            v@ == s@,
            n == v@.len(),
            i <= j <= n,
            trimmed(s@) == trim_back(s@.subrange(i as int, j as int)),
        decreases j,
    {
        proof {
            assert(s@.subrange(i as int, j as int).drop_last() =~= s@.subrange(i as int, j - 1));
        }
        j -= 1;
    }
    text_of(&v, i, j)
}

// ---------------------------------------------------------------------------
// Numbers
// ---------------------------------------------------------------------------

/// The decimal digit of value `v`.
pub open spec fn digit_char(v: nat) -> char {
    (48 + v) as char
}

/// A number in decimal, without leading zeros.
pub open spec fn digits(n: nat) -> Seq<char>
    decreases n,
{
    if n < 10 {
        seq![digit_char(n)]
    } else {
        digits(n / 10).push(digit_char(n % 10))
    }
}

pub open spec fn is_decimal(c: char) -> bool {
    '0' <= c && c <= '9'
}

pub open spec fn all_decimal(s: Seq<char>) -> bool {
    forall|i: int| 0 <= i < s.len() ==> is_decimal(#[trigger] s[i])
}

/// The number that some decimal digits stand for.
pub open spec fn digits_value(s: Seq<char>) -> nat
    decreases s.len(),
{
    if s.len() == 0 {
        0
    } else {
        (digits_value(s.drop_last()) * 10 + (s.last() as int - 48)) as nat
    }
}

/// A number written in decimal reads as itself.
pub proof fn decimals_are_read_back(n: nat)
    ensures
        digits_value(digits(n)) == n,
        all_decimal(digits(n)),
        digits(n).len() > 0,
    decreases n,
{
    if n < 10 {
        let s = seq![digit_char(n)];
        assert(s.drop_last() =~= Seq::empty());
        assert(digits_value(s.drop_last()) == 0);
        assert(s.last() == digit_char(n));
    } else {
        decimals_are_read_back(n / 10);
        let s = digits(n / 10).push(digit_char(n % 10));
        assert(s.drop_last() =~= digits(n / 10));
        assert(s.last() == digit_char(n % 10));
        assert(n == (n / 10) * 10 + n % 10);
    }
}

/// The number in decimal.
pub fn decimal(n: u64) -> (r: String)
    ensures
        r@ == digits(n as nat),
    decreases n,
{
    let last: char = (48 + (n % 10) as u8) as char;
    if n < 10 {
        let mut r: String = String::new();
        r.push(last);
        proof {
            assert(r@ =~= seq![digit_char(n as nat)]);
        }
        r
    } else {
        let mut r: String = decimal(n / 10);
        r.push(last);
        r
    }
}

/// A number in decimal, with a minus sign where it is below zero.
pub open spec fn signed_digits(n: int) -> Seq<char> {
    if n < 0 {
        seq!['-'] + digits((-n) as nat)
    } else {
        digits(n as nat)
    }
}

/// The number in decimal, with a minus sign where it is below zero.
pub fn signed_decimal(n: i64) -> (r: String)
    ensures
        r@ == signed_digits(n as int),
{
    if n < 0 {
        let size: u64 = if n == i64::MIN {
            9223372036854775808
        } else {
            (-n) as u64
        };
        let d: String = decimal(size);
        let mut r: String = String::new();
        r.push('-');
        r.append(d.as_str());
        proof {
            assert(r@ =~= seq!['-'] + digits((-n) as nat));
        }
        r
    } else {
        decimal(n as u64)
    }
}

/// As many zeros in front as the text lacks of `width` characters.
pub open spec fn zero_padded(s: Seq<char>, width: nat) -> Seq<char>
    decreases width - s.len(),
{
    if s.len() >= width {
        s
    } else {
        zero_padded(seq!['0'] + s, width)
    }
}

/// The number in decimal, with zeros in front up to `width` digits.
pub fn padded_decimal(n: u64, width: usize) -> (r: String)
    ensures
        r@ == zero_padded(digits(n as nat), width as nat),
{
    let mut r: String = decimal(n);
    let mut len: usize = r.as_str().unicode_len();
    while len < width
        invariant
            len == r@.len(),
            zero_padded(r@, width as nat) == zero_padded(digits(n as nat), width as nat),
        decreases width - len,
    {
        let mut t: String = String::new();
        t.push('0');
        t.append(r.as_str());
        proof {
            assert(t@ =~= seq!['0'] + r@);
        }
        r = t;
        len = len + 1;
    }
    r
}

/// The upper-case hexadecimal digit of value `v`.
pub open spec fn hex_char(v: nat) -> char {
    if v < 10 {
        (48 + v) as char
    } else {
        (55 + v) as char
    }
}

/// The lowest `width` hexadecimal digits of a number.
pub open spec fn hex_digits(n: nat, width: nat) -> Seq<char>
    decreases width,
{
    if width == 0 {
        Seq::empty()
    } else {
        hex_digits(n / 16, (width - 1) as nat).push(hex_char(n % 16))
    }
}

/// The lowest `width` hexadecimal digits of a number, upper case.
pub fn hex(n: u64, width: usize) -> (r: String)
    ensures
        r@ == hex_digits(n as nat, width as nat),
    decreases width,
{
    if width == 0 {
        let r: String = String::new();
        proof {
            assert(r@ =~= Seq::empty());
        }
        r
    } else {
        let mut r: String = hex(n / 16, width - 1);
        let v: u8 = (n % 16) as u8;
        let c: char = if v < 10 {
            (48 + v) as char
        } else {
            (55 + v) as char
        };
        r.push(c);
        r
    }
}

proof fn prefix_value_grows(s: Seq<char>, k: int)
    requires
        all_decimal(s),
        0 <= k <= s.len(),
    ensures
        digits_value(s.take(k)) <= digits_value(s),
    decreases s.len(),
{
    if k == s.len() {
        assert(s.take(k) =~= s);
    } else {
        let t = s.drop_last();
        assert(t.take(k) =~= s.take(k));
        assert forall|i: int| 0 <= i < t.len() implies is_decimal(#[trigger] t[i]) by {
            assert(t[i] == s[i]);
        }
        prefix_value_grows(t, k);
        assert(is_decimal(s[s.len() - 1]));
    }
}

/// The digits are a number no greater than `limit`.
pub open spec fn number_up_to(s: Seq<char>, limit: nat) -> Option<nat> {
    if s.len() > 0 && all_decimal(s) && digits_value(s) <= limit {
        Some(digits_value(s))
    } else {
        None
    }
}

fn number_from(v: &Vec<char>, from: usize, limit: u64) -> (r: Option<u64>)
    requires
        from <= v@.len(),
    ensures
        match r {
            Some(n) => number_up_to(v@.skip(from as int), limit as nat) == Some(n as nat),
            None => number_up_to(v@.skip(from as int), limit as nat) is None,
        },
{
    let ghost s = v@.skip(from as int);
    let n: usize = v.len();
    if from == n {
        return None;
    }
    let mut acc: u64 = 0;
    let mut i: usize = from;
    proof {
        assert(s.take(0) =~= Seq::empty());
    }
    while i < n
        invariant
            n == v@.len(),
            from <= i <= n,
            s == v@.skip(from as int),
            forall|j: int| 0 <= j < i - from ==> is_decimal(#[trigger] s[j]),
            acc == digits_value(s.take(i - from)),
            acc <= limit,
        decreases n - i,
    {
        let c: char = v[i];
        proof {
            assert(s[i - from] == c);
            assert(s.take(i - from + 1).drop_last() =~= s.take(i - from));
            assert(s.take(i - from + 1).last() == c);
        }
        if !('0' <= c && c <= '9') {
            proof {
                assert(!is_decimal(s[i - from]));
            }
            return None;
        }
        let d: u64 = (c as u32 - 48) as u64;
        if d > limit || acc > limit / 10 || acc * 10 > limit - d {
            proof {
                assert(digits_value(s.take(i - from + 1)) > limit);
                if all_decimal(s) {
                    prefix_value_grows(s, i - from + 1);
                }
            }
            return None;
        }
        acc = acc * 10 + d;
        i = i + 1;
    }
    proof {
        assert(s.take(n - from) =~= s);
    }
    Some(acc)
}

/// The number that a text stands for where it is a sign, or none, and digits.
pub open spec fn parsed_int(s: Seq<char>) -> Option<int> {
    let bare = if s.len() > 0 && (s[0] == '+' || s[0] == '-') {
        s.skip(1)
    } else {
        s
    };
    if bare.len() == 0 || !all_decimal(bare) {
        None
    } else if s[0] == '-' {
        Some(-digits_value(bare))
    } else {
        Some(digits_value(bare) as int)
    }
}

/// A number written in decimal reads as itself, whatever its sign.
pub proof fn signed_decimals_are_read_back(n: int)
    ensures
        parsed_int(signed_digits(n)) == Some(n),
{
    if n < 0 {
        decimals_are_read_back((-n) as nat);
        assert(signed_digits(n).skip(1) =~= digits((-n) as nat));
    } else {
        decimals_are_read_back(n as nat);
        assert(is_decimal(digits(n as nat)[0]));
    }
}

/// Reads a signed number: an optional sign and decimal digits, within 64 bits.
pub fn parse_i64(s: &str) -> (r: Option<i64>)
    ensures
        match parsed_int(s@) {
            Some(n) => if i64::MIN <= n <= i64::MAX {
                r == Some(n as i64)
            } else {
                r is None
            },
            None => r is None,
        },
{
    let v: Vec<char> = chars_of(s);
    if v.len() == 0 {
        return None;
    }
    proof {
        assert(v@.skip(0) =~= v@);
    }
    if v[0] == '-' {
        match number_from(&v, 1, 9223372036854775808) {
            Some(n) => if n == 9223372036854775808 {
                Some(i64::MIN)
            } else {
                Some(-(n as i64))
            },
            None => None,
        }
    } else {
        let from: usize = if v[0] == '+' {
            1
        } else {
            0
        };
        match number_from(&v, from, 9223372036854775807) {
            Some(n) => Some(n as i64),
            None => None,
        }
    }
}

/// The number that a text stands for where it is a plus sign, or none, and digits,
/// and is no greater than `limit`.
pub open spec fn parsed_nat(s: Seq<char>, limit: nat) -> Option<nat> {
    number_up_to(
        if s.len() > 0 && s[0] == '+' {
            s.skip(1)
        } else {
            s
        },
        limit,
    )
}

/// Reads a number no greater than `limit`: an optional plus sign and decimal digits.
pub fn parse_up_to(s: &str, limit: u64) -> (r: Option<u64>)
    ensures
        match r {
            Some(n) => parsed_nat(s@, limit as nat) == Some(n as nat),
            None => parsed_nat(s@, limit as nat) is None,
        },
{
    let v: Vec<char> = chars_of(s);
    proof {
        assert(v@.skip(0) =~= v@);
    }
    let from: usize = if v.len() > 0 && v[0] == '+' {
        1
    } else {
        0
    };
    number_from(&v, from, limit)
}

} // verus!
