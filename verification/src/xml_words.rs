//! What is written into the file can be read out of it again.

use crate::export_xml::{
    encoded_path, escaped, escaped_char, is_control, is_drive, is_unreserved, location_of,
    percent_byte, percent_encoded, playlist_persist, pow16, track_persist, with_trailing_sep,
    segments, with_slashes, after_controls,
};
use crate::text::{hex_char, hex_digits};
use vstd::prelude::*;
use vstd::utf8::encode_utf8;

verus! {

broadcast use vstd::string::group_string_axioms;

// ---------------------------------------------------------------------------
// Text
// ---------------------------------------------------------------------------

/// The text begins with that word.
pub open spec fn begins_with(s: Seq<char>, word: Seq<char>) -> bool {
    s.len() >= word.len() && s.take(word.len() as int) == word
}

/// A text as any reader of XML takes it.
pub open spec fn unescaped(s: Seq<char>) -> Seq<char>
    decreases s.len(),
{
    if s.len() == 0 {
        Seq::empty()
    } else if s.len() >= 5 && begins_with(s, seq!['&', 'a', 'm', 'p', ';']) {
        seq!['&'] + unescaped(s.skip(5))
    } else if s.len() >= 4 && begins_with(s, seq!['&', 'l', 't', ';']) {
        seq!['<'] + unescaped(s.skip(4))
    } else if s.len() >= 4 && begins_with(s, seq!['&', 'g', 't', ';']) {
        seq!['>'] + unescaped(s.skip(4))
    } else if s.len() >= 6 && begins_with(s, seq!['&', 'q', 'u', 'o', 't', ';']) {
        seq!['"'] + unescaped(s.skip(6))
    } else {
        seq![s[0]] + unescaped(s.skip(1))
    }
}

proof fn one_character_is_read(c: char, t: Seq<char>)
    ensures
        unescaped(escaped_char(c) + t) == seq![c] + unescaped(t),
{
    reveal_strlit("&amp;");
    reveal_strlit("&lt;");
    reveal_strlit("&gt;");
    reveal_strlit("&quot;");
    let e = escaped_char(c);
    let s = e + t;
    assert(s.skip(e.len() as int) =~= t);
    let amp = seq!['&', 'a', 'm', 'p', ';'];
    let lt = seq!['&', 'l', 't', ';'];
    let gt = seq!['&', 'g', 't', ';'];
    let quot = seq!['&', 'q', 'u', 'o', 't', ';'];
    if c == '&' {
        assert(s.take(5) =~= amp);
    } else if c == '<' {
        assert(s.take(4) =~= lt);
        assert(s[1] == 'l');
        if begins_with(s, amp) {
            assert(s.take(5)[1] == 'a');
        }
    } else if c == '>' {
        assert(s.take(4) =~= gt);
        assert(s[1] == 'g');
        if begins_with(s, amp) {
            assert(s.take(5)[1] == 'a');
        }
        if begins_with(s, lt) {
            assert(s.take(4)[1] == 'l');
        }
    } else if c == '"' {
        assert(s.take(6) =~= quot);
        assert(s[1] == 'q');
        if begins_with(s, amp) {
            assert(s.take(5)[1] == 'a');
        }
        if begins_with(s, lt) {
            assert(s.take(4)[1] == 'l');
        }
        if begins_with(s, gt) {
            assert(s.take(4)[1] == 'g');
        }
    } else {
        assert(s[0] == c);
        if begins_with(s, amp) {
            assert(s.take(5)[0] == '&');
        }
        if begins_with(s, lt) {
            assert(s.take(4)[0] == '&');
        }
        if begins_with(s, gt) {
            assert(s.take(4)[0] == '&');
        }
        if begins_with(s, quot) {
            assert(s.take(6)[0] == '&');
        }
    }
}

/// Whoever reads a written text gets the very text, if it has no control characters.
pub proof fn a_text_is_read_back(s: Seq<char>)
    requires
        forall|i: int| 0 <= i < s.len() ==> !is_control(#[trigger] s[i]),
    ensures
        unescaped(escaped(s)) == s,
    decreases s.len(),
{
    if s.len() == 0 {
        assert(s =~= Seq::empty());
    } else {
        let t = s.drop_first();
        assert forall|i: int| 0 <= i < t.len() implies !is_control(#[trigger] t[i]) by {
            assert(t[i] == s[i + 1]);
        }
        a_text_is_read_back(t);
        one_character_is_read(s[0], escaped(t));
        assert(!is_control(s[0]));
        assert(seq![s[0]] + t =~= s);
    }
}

/// A control character is read as a slash between spaces, together with those that
/// follow it at once.
pub proof fn control_characters_are_read_as_a_slash(run: Seq<char>, rest: Seq<char>)
    requires
        run.len() > 0,
        forall|i: int| 0 <= i < run.len() ==> is_control(#[trigger] run[i]),
        rest.len() > 0 ==> !is_control(rest[0]),
    ensures
        escaped(run + rest) == " / "@ + escaped(rest),
{
    let s = run + rest;
    assert(s.drop_first() =~= run.drop_first() + rest);
    let tail = run.drop_first();
    assert forall|i: int| 0 <= i < tail.len() implies is_control(#[trigger] tail[i]) by {
        assert(tail[i] == run[i + 1]);
    }
    a_run_is_skipped(tail, rest);
    assert(is_control(run[0]));
}

proof fn a_run_is_skipped(run: Seq<char>, rest: Seq<char>)
    requires
        forall|i: int| 0 <= i < run.len() ==> is_control(#[trigger] run[i]),
        rest.len() > 0 ==> !is_control(rest[0]),
    ensures
        after_controls(run + rest) == rest,
    decreases run.len(),
{
    let s = run + rest;
    if run.len() == 0 {
        assert(s =~= rest);
    } else {
        let tail = run.drop_first();
        assert(s.drop_first() =~= tail + rest);
        assert forall|i: int| 0 <= i < tail.len() implies is_control(#[trigger] tail[i]) by {
            assert(tail[i] == run[i + 1]);
        }
        a_run_is_skipped(tail, rest);
        assert(is_control(run[0]));
    }
}

// ---------------------------------------------------------------------------
// Locations
// ---------------------------------------------------------------------------

/// The value of a hexadecimal digit.
pub open spec fn hex_value(c: char) -> int {
    if '0' <= c <= '9' {
        c as int - 48
    } else if 'A' <= c <= 'F' {
        c as int - 55
    } else {
        c as int - 87
    }
}

/// The bytes that a part of a location stands for.
pub open spec fn percent_decoded(s: Seq<char>) -> Seq<int>
    decreases s.len(),
{
    if s.len() == 0 {
        Seq::empty()
    } else if s[0] == '%' && s.len() >= 3 {
        seq![hex_value(s[1]) * 16 + hex_value(s[2])] + percent_decoded(s.skip(3))
    } else {
        seq![s[0] as int] + percent_decoded(s.skip(1))
    }
}

proof fn hex_digit_is_read(n: nat)
    requires
        n < 16,
    ensures
        hex_value(hex_char(n)) == n,
{
}

proof fn one_byte_is_read(b: u8, t: Seq<char>)
    ensures
        percent_decoded(percent_byte(b) + t) == seq![b as int] + percent_decoded(t),
{
    reveal_strlit("%");
    let e = percent_byte(b);
    let s = e + t;
    assert(s.skip(e.len() as int) =~= t);
    if is_unreserved(b) {
        assert(s[0] == b as char);
        assert((b as char) as int == b as int);
    } else {
        let n = b as nat;
        reveal_with_fuel(hex_digits, 3);
        let one = hex_digits(n / 16, 1);
        assert(one =~= seq![hex_char((n / 16) % 16)]);
        assert(hex_digits(n, 2) =~= seq![hex_char((n / 16) % 16), hex_char(n % 16)]);
        hex_digit_is_read((n / 16) % 16);
        hex_digit_is_read(n % 16);
        assert(s[0] == '%');
        assert(s[1] == hex_char((n / 16) % 16));
        assert(s[2] == hex_char(n % 16));
        assert((n / 16) % 16 == n / 16);
    }
}

proof fn encoded_from_the_front(bytes: Seq<u8>)
    requires
        bytes.len() > 0,
    ensures
        percent_encoded(bytes) == percent_byte(bytes[0]) + percent_encoded(bytes.drop_first()),
    decreases bytes.len(),
{
    let head = bytes.drop_last();
    let tail = bytes.drop_first();
    if bytes.len() == 1 {
        assert(head =~= Seq::empty());
        assert(tail =~= Seq::empty());
        assert(percent_encoded(head) =~= Seq::empty());
        assert(percent_encoded(tail) =~= Seq::empty());
        assert(bytes.last() == bytes[0]);
        assert(Seq::<char>::empty() + percent_byte(bytes[0]) =~= percent_byte(bytes[0])
            + Seq::<char>::empty());
    } else {
        encoded_from_the_front(head);
        assert(head.drop_first() =~= tail.drop_last());
        assert(tail.last() == bytes.last());
        assert(percent_encoded(bytes) =~= percent_byte(bytes[0]) + percent_encoded(tail));
    }
}

/// Whoever decodes an encoded part of a location gets its very bytes.
pub proof fn bytes_are_read_back(bytes: Seq<u8>)
    ensures
        percent_decoded(percent_encoded(bytes)) == bytes.map_values(|b: u8| b as int),
    decreases bytes.len(),
{
    let ints = bytes.map_values(|b: u8| b as int);
    if bytes.len() == 0 {
        assert(ints =~= Seq::empty());
    } else {
        let t = bytes.drop_first();
        encoded_from_the_front(bytes);
        one_byte_is_read(bytes[0], percent_encoded(t));
        bytes_are_read_back(t);
        assert(ints =~= seq![bytes[0] as int] + t.map_values(|b: u8| b as int));
    }
}

/// The text has no slash.
pub open spec fn without_slash(s: Seq<char>) -> bool {
    forall|i: int| 0 <= i < s.len() ==> #[trigger] s[i] != '/'
}

proof fn encoded_has_no_slash(bytes: Seq<u8>)
    ensures
        without_slash(percent_encoded(bytes)),
    decreases bytes.len(),
{
    if bytes.len() > 0 {
        encoded_has_no_slash(bytes.drop_last());
        reveal_strlit("%");
        let b = bytes.last();
        let e = percent_byte(b);
        assert(without_slash(e)) by {
            if is_unreserved(b) {
                assert((b as char) as int == b as int);
            } else {
                let n = b as nat;
                reveal_with_fuel(hex_digits, 3);
                assert(hex_digits(n / 16, 1) =~= seq![hex_char((n / 16) % 16)]);
                assert(hex_digits(n, 2) =~= seq![hex_char((n / 16) % 16), hex_char(n % 16)]);
                assert(e =~= seq!['%', hex_char((n / 16) % 16), hex_char(n % 16)]);
            }
        }
        let s = percent_encoded(bytes);
        let h = percent_encoded(bytes.drop_last());
        assert forall|i: int| 0 <= i < s.len() implies #[trigger] s[i] != '/' by {
            if i < h.len() {
                assert(s[i] == h[i]);
            } else {
                assert(s[i] == e[i - h.len()]);
            }
        }
    }
}

proof fn some_segment(s: Seq<char>)
    ensures
        segments(s).len() > 0,
    decreases s.len(),
{
    if s.len() > 0 {
        some_segment(s.drop_last());
    }
}

proof fn words_lengthen_the_last_segment(s: Seq<char>, t: Seq<char>)
    requires
        without_slash(t),
    ensures
        segments(s + t) == segments(s).update(segments(s).len() - 1, segments(s).last() + t),
    decreases t.len(),
{
    some_segment(s);
    let st = s + t;
    if t.len() == 0 {
        assert(st =~= s);
        assert(segments(s).last() + t =~= segments(s).last());
        assert(segments(s).update(segments(s).len() - 1, segments(s).last()) =~= segments(s));
    } else {
        let u = t.drop_last();
        assert(st.drop_last() =~= s + u);
        assert(st.last() == t.last());
        assert(without_slash(u)) by {
            assert forall|i: int| 0 <= i < u.len() implies #[trigger] u[i] != '/' by {
                assert(u[i] == t[i]);
            }
        }
        words_lengthen_the_last_segment(s, u);
        assert((segments(s).last() + u).push(t.last()) =~= segments(s).last() + t);
        assert(segments(st) =~= segments(s).update(
            segments(s).len() - 1,
            segments(s).last() + t,
        ));
    }
}

/// How a part of a path stands in a location.
spec fn part_of_location(segs: Seq<Seq<char>>, i: int) -> Seq<char> {
    if i == 0 && is_drive(segs[0]) {
        segs[0]
    } else {
        percent_encoded(encode_utf8(segs[i]))
    }
}

proof fn encoded_parts(segs: Seq<Seq<char>>)
    requires
        segs.len() > 0,
    ensures
        segments(encoded_path(segs)).len() == segs.len(),
        forall|i: int|
            0 <= i < segs.len() ==> #[trigger] segments(encoded_path(segs))[i] == part_of_location(
                segs,
                i,
            ),
    decreases segs.len(),
{
    let last = segs.last();
    let e = part_of_location(segs, segs.len() - 1);
    encoded_has_no_slash(encode_utf8(last));
    if segs.len() == 1 {
        assert(without_slash(e)) by {
            if is_drive(segs[0]) {
                assert forall|i: int| 0 <= i < e.len() implies #[trigger] e[i] != '/' by {
                    assert(i == 0 || i == 1);
                }
            }
        }
        let none = Seq::<char>::empty();
        words_lengthen_the_last_segment(none, e);
        assert(none + e =~= e);
        assert(segments(none) =~= seq![none]);
        assert(segments(encoded_path(segs)) =~= seq![e]);
    } else {
        let head = segs.drop_last();
        encoded_parts(head);
        reveal_strlit("/");
        let h = encoded_path(head);
        let o = h + "/"@;
        assert(o.drop_last() =~= h);
        assert(o.last() == '/');
        words_lengthen_the_last_segment(o, e);
        assert(Seq::<char>::empty() + e =~= e);
        assert(encoded_path(segs) == o + e);
        assert(segments(encoded_path(segs)) =~= segments(h).push(e));
        assert forall|i: int| 0 <= i < segs.len() implies #[trigger] segments(
            encoded_path(segs),
        )[i] == part_of_location(segs, i) by {
            if i < head.len() {
                assert(segments(h)[i] == part_of_location(head, i));
                assert(head[i] == segs[i]);
                assert(head[0] == segs[0]);
            }
        }
    }
}

/// Where two texts meet, the last part of the one and the first of the other are one.
proof fn joined_behind(x: Seq<char>, y: Seq<char>)
    ensures
        segments(x).len() > 0,
        segments(y).len() > 0,
        segments(x + y) == segments(x).drop_last() + seq![segments(x).last() + segments(y)[0]]
            + segments(y).drop_first(),
    decreases y.len(),
{
    some_segment(x);
    some_segment(y);
    let none = Seq::<char>::empty();
    if y.len() == 0 {
        assert(x + y =~= x);
        assert(segments(x).last() + segments(y)[0] =~= segments(x).last());
        assert(segments(x) =~= segments(x).drop_last() + seq![segments(x).last()]
            + segments(y).drop_first());
    } else {
        let u = y.drop_last();
        joined_behind(x, u);
        assert((x + y).drop_last() =~= x + u);
        assert((x + y).last() == y.last());
        let glued = segments(x).last() + segments(u)[0];
        if y.last() == '/' {
            assert(segments(y)[0] == segments(u)[0]);
            assert(segments(x + y) =~= segments(x).drop_last() + seq![glued]
                + segments(y).drop_first());
        } else if segments(u).len() == 1 {
            assert(segments(y)[0] == segments(u)[0].push(y.last()));
            assert(glued.push(y.last()) =~= segments(x).last() + segments(y)[0]);
            assert(segments(x + y) =~= segments(x).drop_last() + seq![
                segments(x).last() + segments(y)[0],
            ] + segments(y).drop_first());
        } else {
            assert(segments(y)[0] == segments(u)[0]);
            assert(segments(x + y) =~= segments(x).drop_last() + seq![glued]
                + segments(y).drop_first());
        }
    }
}

proof fn some_bytes(s: Seq<char>)
    requires
        s.len() > 0,
    ensures
        encode_utf8(s).len() > 0,
{
}

/// What is written of a path begins with a slash exactly where nothing stands before
/// its first one.
proof fn when_it_is_rooted(segs: Seq<Seq<char>>)
    requires
        segs.len() > 0,
    ensures
        encoded_path(segs).len() > 0 && encoded_path(segs)[0] == '/' <==> segs[0].len() == 0
            && segs.len() > 1,
    decreases segs.len(),
{
    reveal_strlit("/");
    let e = part_of_location(segs, 0);
    if segs[0].len() > 0 {
        some_bytes(segs[0]);
        let bytes = encode_utf8(segs[0]);
        encoded_from_the_front(bytes);
        encoded_has_no_slash(bytes);
        reveal_strlit("%");
        assert(percent_byte(bytes[0]).len() > 0);
        assert(percent_encoded(bytes)[0] != '/');
    } else {
        assert(segs[0] =~= Seq::empty());
        assert(encode_utf8(segs[0]) =~= Seq::empty());
    }
    if segs.len() > 1 {
        let head = segs.drop_last();
        assert(head[0] == segs[0]);
        when_it_is_rooted(head);
        let h = encoded_path(head);
        if head.len() == 1 && segs[0].len() == 0 {
            assert(h =~= Seq::empty());
        }
        if !(head.len() == 1 && segs[0].len() == 0) {
            nothing_is_empty(head);
        }
    }
}

proof fn nothing_is_empty(segs: Seq<Seq<char>>)
    requires
        segs.len() > 0,
        segs.len() > 1 || segs[0].len() > 0,
    ensures
        encoded_path(segs).len() > 0,
{
    reveal_strlit("/");
    if segs.len() == 1 {
        some_bytes(segs[0]);
        encoded_from_the_front(encode_utf8(segs[0]));
        reveal_strlit("%");
    }
}

/// Whoever takes a location apart at its slashes, behind the machine it names, and
/// decodes the parts, finds the parts of the path, one by one, in their order. A drive
/// stands there as it is.
pub proof fn a_location_leads_to_the_file(path: Seq<char>)
    ensures
        ({
            let segs = segments(with_slashes(path));
            let location = location_of(path);
            let parts = segments(location);
            // Nothing stands before the first slash of a path from the root.
            let rooted = segs[0].len() == 0 && segs.len() > 1;
            let first: int = if rooted {
                2
            } else {
                3
            };
            &&& location.len() >= 16
            &&& location.take(16) == "file://localhost"@
            &&& location.len() > 16 && location[16] == '/'
            &&& parts.len() == first + segs.len()
            &&& forall|i: int|
                0 <= i < segs.len() && !(i == 0 && (rooted || is_drive(segs[0])))
                    ==> percent_decoded(#[trigger] parts[first + i]) == encode_utf8(
                    segs[i],
                ).map_values(|b: u8| b as int)
            &&& is_drive(segs[0]) ==> parts[first] == segs[0]
        }),
{
    let segs = segments(with_slashes(path));
    some_segment(with_slashes(path));
    let joined = encoded_path(segs);
    let location = location_of(path);
    encoded_parts(segs);
    when_it_is_rooted(segs);
    reveal_strlit("file://localhost/");
    reveal_strlit("file://localhost");
    // How the front falls apart.
    let a = seq!['f', 'i', 'l', 'e', ':'];
    let b = seq!['l', 'o', 'c', 'a', 'l', 'h', 'o', 's', 't'];
    let none = Seq::<char>::empty();
    words_lengthen_the_last_segment(none, a);
    assert(none + a =~= a);
    assert(segments(none) =~= seq![none]);
    let s1 = a.push('/');
    assert(s1.drop_last() =~= a);
    let s2 = s1.push('/');
    assert(s2.drop_last() =~= s1);
    words_lengthen_the_last_segment(s2, b);
    assert(segments(a) =~= seq![a]);
    assert(segments(s1) =~= seq![a, none]);
    assert(segments(s2) =~= seq![a, none, none]);
    assert(none + b =~= b);
    let front = s2 + b;
    assert(segments(front) =~= seq![a, none, b]);
    assert(front =~= "file://localhost"@);
    let open = front.push('/');
    assert(open.drop_last() =~= front);
    assert(segments(open) =~= seq![a, none, b, none]);
    assert(open =~= "file://localhost/"@);
    let rooted = segs[0].len() == 0 && segs.len() > 1;
    let first: int = if rooted {
        2
    } else {
        3
    };
    let parts = segments(location);
    if rooted {
        assert(location == front + joined);
        joined_behind(front, joined);
        assert forall|i: int| 1 <= i < segs.len() implies #[trigger] parts[2 + i]
            == part_of_location(segs, i) by {
            assert(parts[2 + i] == segments(joined)[i]);
        }
    } else {
        assert(location == open + joined);
        joined_behind(open, joined);
        assert(none + segments(joined)[0] =~= segments(joined)[0]);
        assert forall|i: int| 0 <= i < segs.len() implies #[trigger] parts[3 + i]
            == part_of_location(segs, i) by {
            assert(parts[3 + i] == segments(joined)[i]);
        }
    }
    assert(location.take(16) =~= "file://localhost"@);
    assert forall|i: int| 0 <= i < segs.len() && !(i == 0 && (rooted || is_drive(segs[0]))) implies
        percent_decoded(#[trigger] parts[first + i]) == encode_utf8(segs[i]).map_values(
        |b: u8| b as int,
    ) by {
        bytes_are_read_back(encode_utf8(segs[i]));
        assert(parts[first + i] == part_of_location(segs, i));
    }
}

/// The parts of a path have no slash in them, and with slashes between them they are the
/// path.
pub proof fn the_parts_of_a_path_make_it_up(s: Seq<char>)
    ensures
        forall|i: int| 0 <= i < segments(s).len() ==> without_slash(#[trigger] segments(s)[i]),
        with_slashes_between(segments(s)) == s,
        segments(s).len() > 0,
    decreases s.len(),
{
    some_segment(s);
    if s.len() == 0 {
        assert(with_slashes_between(segments(s)) =~= s);
    } else {
        let t = s.drop_last();
        the_parts_of_a_path_make_it_up(t);
        let e = segments(t);
        if s.last() == '/' {
            assert(segments(s).drop_last() =~= e);
            assert(with_slashes_between(segments(s)) =~= t + seq!['/'] + Seq::<char>::empty());
            assert(t + seq!['/'] + Seq::<char>::empty() =~= s);
        } else {
            let longer = e.last().push(s.last());
            assert(without_slash(e[e.len() - 1]));
            assert(without_slash(longer)) by {
                assert forall|i: int| 0 <= i < longer.len() implies #[trigger] longer[i] != '/' by {
                    if i < e.last().len() {
                        assert(longer[i] == e[e.len() - 1][i]);
                    }
                }
            }
            assert(segments(s).drop_last() =~= e.drop_last());
            if e.len() == 1 {
                assert(longer =~= s);
            } else {
                let h = with_slashes_between(e.drop_last()) + seq!['/'];
                assert(t == h + e.last());
                assert(h + longer =~= (h + e.last()).push(s.last()));
                assert(t.push(s.last()) =~= s);
            }
        }
    }
}

/// Some texts with slashes between them.
pub open spec fn with_slashes_between(parts: Seq<Seq<char>>) -> Seq<char>
    decreases parts.len(),
{
    if parts.len() == 0 {
        Seq::empty()
    } else if parts.len() == 1 {
        parts[0]
    } else {
        with_slashes_between(parts.drop_last()) + seq!['/'] + parts.last()
    }
}

// ---------------------------------------------------------------------------
// Ids
// ---------------------------------------------------------------------------

/// The number that some hexadecimal digits stand for.
pub open spec fn hex_number(s: Seq<char>) -> int
    decreases s.len(),
{
    if s.len() == 0 {
        0
    } else {
        16 * hex_number(s.drop_last()) + hex_value(s.last())
    }
}

proof fn hex_digits_are_read(n: nat, width: nat)
    requires
        n < pow16(width),
    ensures
        hex_number(hex_digits(n, width)) == n,
        hex_digits(n, width).len() == width,
    decreases width,
{
    if width > 0 {
        assert(n / 16 < pow16((width - 1) as nat)) by (nonlinear_arith)
            requires
                n < pow16(width),
                pow16(width) == 16 * pow16((width - 1) as nat),
        {
        }
        hex_digits_are_read(n / 16, (width - 1) as nat);
        let s = hex_digits(n, width);
        assert(s.drop_last() =~= hex_digits(n / 16, (width - 1) as nat));
        hex_digit_is_read(n % 16);
        assert(n == 16 * (n / 16) + n % 16);
    }
}

/// The id by which other programs remember a track is its own, in sixteen hexadecimal
/// digits; that of a playlist is its own with the highest bit set.
pub proof fn remembered_ids_are_their_own(id: i64)
    requires
        id >= 0,
    ensures
        track_persist(id).len() == 16,
        hex_number(track_persist(id)) == id,
        playlist_persist(id).len() == 16,
        hex_number(playlist_persist(id)) == 0x8000_0000_0000_0000 + id,
{
    let x = id as u64;
    assert(x < 0x8000_0000_0000_0000u64 ==> (1u64 << 63) | x == 0x8000_0000_0000_0000u64 + x)
        by (bit_vector);
    assert(pow16(16) == 0x1_0000_0000_0000_0000) by {
        reveal_with_fuel(pow16, 17);
    }
    hex_digits_are_read(x as nat, 16);
    hex_digits_are_read(((1u64 << 63) | x) as nat, 16);
}

/// The folder of the music is written with a separator at its end: the one that it has,
/// or one more where it has none.
pub proof fn the_music_folder_ends_in_a_separator(s: Seq<char>)
    ensures
        with_trailing_sep(s).len() > 0,
        with_trailing_sep(s).last() == '/' || with_trailing_sep(s).last() == '\\',
        s.len() > 0 && (s.last() == '/' || s.last() == '\\') ==> with_trailing_sep(s) == s,
        !(s.len() > 0 && (s.last() == '/' || s.last() == '\\')) ==> with_trailing_sep(s).drop_last()
            == s,
{
    reveal_strlit("\\");
    if !(s.len() > 0 && (s.last() == '/' || s.last() == '\\')) {
        assert(with_trailing_sep(s).drop_last() =~= s);
    }
}

} // verus!
