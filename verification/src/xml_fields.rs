//! What a program that reads the written file finds under each key.

use crate::dates::{date_text, parts_of, two, UtcParts};
use crate::export_xml::{
    date_value_text, entry_head, escaped, escaped_text_is_plain, folder_text, integer_text,
    is_control, item_text, items_text, kind_of, location_of, playlist_text, string_text,
    track_persist, track_text, FileFactsView,
};
use crate::text::{
    all_decimal, decimals_are_read_back, digits, is_decimal, lowercase, signed_digits, zero_padded,
};
use crate::tracks::TrackView;
use crate::xml_reading::{is_numeral, signed_digits_are_numerals};
use vstd::prelude::*;

verus! {

broadcast use vstd::string::group_string_axioms;

// ---------------------------------------------------------------------------
// Cutting a text at its tags
// ---------------------------------------------------------------------------

/// The parts of a text between the signs that open a tag.
pub open spec fn pieces(s: Seq<char>) -> Seq<Seq<char>>
    decreases s.len(),
{
    if s.len() == 0 {
        seq![Seq::empty()]
    } else {
        let earlier = pieces(s.drop_last());
        if s.last() == '<' {
            earlier.push(Seq::empty())
        } else {
            earlier.update(earlier.len() - 1, earlier.last().push(s.last()))
        }
    }
}

/// Piece `i` is the key `key`.
pub open spec fn key_at(s: Seq<char>, i: int, key: Seq<char>) -> bool {
    0 <= i < pieces(s).len() && pieces(s)[i] == "key>"@ + key
}

/// Under the key stands that value, with the tag that opens it; every time it occurs.
pub open spec fn says(s: Seq<char>, key: Seq<char>, value: Seq<char>) -> bool {
    &&& exists|i: int| key_at(s, i, key)
    &&& forall|i: int| #[trigger]
        key_at(s, i, key) ==> i + 2 < pieces(s).len() && pieces(s)[i + 2] == value
}

/// The key does not occur.
pub open spec fn is_silent_on(s: Seq<char>, key: Seq<char>) -> bool {
    forall|i: int| !#[trigger] key_at(s, i, key)
}

spec fn without_tags(s: Seq<char>) -> bool {
    forall|i: int| 0 <= i < s.len() ==> #[trigger] s[i] != '<'
}

proof fn some_piece(s: Seq<char>)
    ensures
        pieces(s).len() > 0,
    decreases s.len(),
{
    if s.len() > 0 {
        some_piece(s.drop_last());
    }
}

/// What opens no tag goes to the last piece.
proof fn words_lengthen_the_last(s: Seq<char>, t: Seq<char>)
    requires
        without_tags(t),
    ensures
        pieces(s + t) == pieces(s).update(pieces(s).len() - 1, pieces(s).last() + t),
    decreases t.len(),
{
    some_piece(s);
    let st = s + t;
    if t.len() == 0 {
        assert(st =~= s);
        assert(pieces(s).last() + t =~= pieces(s).last());
        assert(pieces(s).update(pieces(s).len() - 1, pieces(s).last()) =~= pieces(s));
    } else {
        let u = t.drop_last();
        assert(st.drop_last() =~= s + u);
        assert(st.last() == t.last());
        assert(without_tags(u)) by {
            assert forall|i: int| 0 <= i < u.len() implies #[trigger] u[i] != '<' by {
                assert(u[i] == t[i]);
            }
        }
        words_lengthen_the_last(s, u);
        assert((pieces(s).last() + u).push(t.last()) =~= pieces(s).last() + t);
        assert(pieces(st) =~= pieces(s).update(pieces(s).len() - 1, pieces(s).last() + t));
    }
}

/// A tag begins a new piece.
proof fn a_tag_begins_a_piece(s: Seq<char>, t: Seq<char>)
    requires
        without_tags(t),
    ensures
        pieces(s + seq!['<'] + t) == pieces(s).push(t),
{
    let o = s + seq!['<'];
    assert(o.drop_last() =~= s);
    assert(o.last() == '<');
    words_lengthen_the_last(o, t);
    some_piece(s);
    assert(Seq::<char>::empty() + t =~= t);
    assert(pieces(o + t) =~= pieces(s).push(t));
}

/// How far a text has been written: its last piece begins with no key, and of `key`
/// that value is known, if any.
spec fn written(s: Seq<char>, key: Seq<char>, value: Option<Seq<char>>) -> bool {
    let ps = pieces(s);
    &&& ps.last().len() > 0
    &&& ps.last()[0] != 'k'
    &&& match value {
        None => is_silent_on(s, key),
        Some(v) => {
            &&& exists|i: int| key_at(s, i, key)
            &&& forall|i: int| #[trigger]
                key_at(s, i, key) ==> i + 3 < ps.len() && ps[i + 2] == v
        },
    }
}

/// Words behind a written text change nothing that it says.
proof fn words_change_nothing(s: Seq<char>, t: Seq<char>, key: Seq<char>, value: Option<Seq<char>>)
    requires
        written(s, key, value),
        without_tags(t),
    ensures
        written(s + t, key, value),
{
    words_lengthen_the_last(s, t);
    some_piece(s);
    let n = pieces(s).len() as int;
    reveal_strlit("key>");
    assert(pieces(s + t)[n - 1][0] == pieces(s)[n - 1][0]);
    assert forall|i: int| #[trigger] key_at(s + t, i, key) == key_at(s, i, key) by {
        if i == n - 1 {
            if key_at(s, i, key) {
                assert(pieces(s)[i][0] == 'k');
            }
            if key_at(s + t, i, key) {
                assert(pieces(s + t)[i][0] == 'k');
            }
        }
    }
    if value is Some {
        let i = choose|i: int| key_at(s, i, key);
        assert(key_at(s + t, i, key));
    }
}

/// One more tag with words that are no key changes nothing that is said.
proof fn a_tag_changes_nothing(s: Seq<char>, t: Seq<char>, key: Seq<char>, value: Option<Seq<char>>)
    requires
        written(s, key, value),
        without_tags(t),
        t.len() > 0,
        t[0] != 'k',
    ensures
        written(s + seq!['<'] + t, key, value),
{
    a_tag_begins_a_piece(s, t);
    reveal_strlit("key>");
    let r = s + seq!['<'] + t;
    let n = pieces(s).len() as int;
    assert forall|i: int| #[trigger] key_at(r, i, key) == key_at(s, i, key) by {
        if i == n && key_at(r, i, key) {
            assert(pieces(r)[i][0] == 'k');
        }
    }
    if value is Some {
        let i = choose|i: int| key_at(s, i, key);
        assert(key_at(r, i, key));
    }
}

/// A key with a value under it: four pieces.
proof fn a_line_says_its_value(
    s: Seq<char>,
    k: Seq<char>,
    what: Seq<char>,
    end: Seq<char>,
    key: Seq<char>,
    value: Option<Seq<char>>,
)
    requires
        written(s, key, value),
        without_tags(k),
        without_tags(what),
        without_tags(end),
        what.len() > 0,
        what[0] != 'k',
        end.len() > 0,
        end[0] != 'k',
        k == key ==> value is None,
    ensures
        written(
            s + "\t\t\t"@ + seq!['<'] + ("key>"@ + k) + seq!['<'] + "/key>"@ + seq!['<'] + what
                + seq!['<'] + end,
            key,
            if k == key {
                Some(what)
            } else {
                value
            },
        ),
{
    reveal_strlit("\t\t\t");
    reveal_strlit("key>");
    reveal_strlit("/key>");
    let s0 = s + "\t\t\t"@;
    words_change_nothing(s, "\t\t\t"@, key, value);
    let n = pieces(s0).len() as int;
    let kk = "key>"@ + k;
    assert(without_tags(kk)) by {
        assert forall|i: int| 0 <= i < kk.len() implies #[trigger] kk[i] != '<' by {
            if i >= 4 {
                assert(kk[i] == k[i - 4]);
            }
        }
    }
    let s1 = s0 + seq!['<'] + kk;
    a_tag_begins_a_piece(s0, kk);
    let s2 = s1 + seq!['<'] + "/key>"@;
    a_tag_begins_a_piece(s1, "/key>"@);
    let s3 = s2 + seq!['<'] + what;
    a_tag_begins_a_piece(s2, what);
    let s4 = s3 + seq!['<'] + end;
    a_tag_begins_a_piece(s3, end);
    assert(pieces(s4) =~= pieces(s0) + seq![kk, "/key>"@, what, end]);
    assert forall|i: int| #[trigger] key_at(s4, i, key) <==> key_at(s0, i, key) || (i == n && k
        == key) by {
        if i == n {
            if kk == "key>"@ + key {
                assert(kk.skip(4) =~= k);
                assert(("key>"@ + key).skip(4) =~= key);
            }
        } else if n < i < n + 4 {
            if key_at(s4, i, key) {
                assert(pieces(s4)[i][0] == 'k');
                assert(pieces(s4)[i] == seq![kk, "/key>"@, what, end][i - n]);
            }
        }
    }
    assert(pieces(s4)[n + 2] == what);
    if k == key {
        assert(key_at(s4, n, key));
    } else if value is Some {
        let i = choose|i: int| key_at(s0, i, key);
        assert(key_at(s4, i, key));
    }
}

// ---------------------------------------------------------------------------
// Lines
// ---------------------------------------------------------------------------

/// Nothing in the text has to be written in another way.
spec fn is_bare(s: Seq<char>) -> bool {
    forall|i: int|
        0 <= i < s.len() ==> !is_control(#[trigger] s[i]) && s[i] != '&' && s[i] != '<' && s[i]
            != '>' && s[i] != '"'
}

proof fn bare_text_stays(s: Seq<char>)
    requires
        is_bare(s),
    ensures
        escaped(s) == s,
    decreases s.len(),
{
    if s.len() == 0 {
        assert(s =~= Seq::empty());
    } else {
        let t = s.drop_first();
        assert(is_bare(t)) by {
            assert forall|i: int| 0 <= i < t.len() implies !is_control(#[trigger] t[i]) && t[i]
                != '&' && t[i] != '<' && t[i] != '>' && t[i] != '"' by {
                assert(t[i] == s[i + 1]);
            }
        }
        bare_text_stays(t);
        assert(!is_control(s[0]));
        assert(seq![s[0]] + t =~= s);
    }
}

proof fn escaped_has_no_tags(s: Seq<char>)
    ensures
        without_tags(escaped(s)),
{
    escaped_text_is_plain(s);
}

/// The parts of a line, put together in two ways.
proof fn regrouped(
    s: Seq<char>,
    a: Seq<char>,
    b: Seq<char>,
    k: Seq<char>,
    c: Seq<char>,
    d: Seq<char>,
    v: Seq<char>,
    g: Seq<char>,
)
    ensures
        s + ((a + seq!['<'] + b) + k + (seq!['<'] + c + seq!['<'] + d) + v + (seq!['<'] + g)) == s + a
            + seq!['<'] + (b + k) + seq!['<'] + c + seq!['<'] + (d + v) + seq!['<'] + g,
{
    let lt = seq!['<'];
    let x = s + a + lt + (b + k);
    assert(s + (a + lt + b) + k =~= x);
    let y = x + lt + c + lt + (d + v);
    assert(x + (lt + c + lt + d) + v =~= y);
    assert(y + (lt + g) =~= y + lt + g);
    let one = (a + lt + b) + k + (lt + c + lt + d) + v + (lt + g);
    assert(s + one =~= s + (a + lt + b) + k + (lt + c + lt + d) + v + (lt + g));
}

proof fn a_string_is_said(
    s: Seq<char>,
    k: Seq<char>,
    v: Seq<char>,
    key: Seq<char>,
    value: Option<Seq<char>>,
)
    requires
        written(s, key, value),
        is_bare(k),
        k == key ==> value is None,
    ensures
        written(
            s + string_text(k, v),
            key,
            if k == key {
                Some("string>"@ + escaped(v))
            } else {
                value
            },
        ),
{
    bare_text_stays(k);
    escaped_has_no_tags(k);
    escaped_has_no_tags(v);
    reveal_strlit("\t\t\t<key>");
    reveal_strlit("\t\t\t");
    reveal_strlit("key>");
    reveal_strlit("/key>");
    reveal_strlit("</key><string>");
    reveal_strlit("string>");
    reveal_strlit("</string>\n");
    reveal_strlit("/string>\n");
    let lt = seq!['<'];
    assert("\t\t\t<key>"@ =~= "\t\t\t"@ + lt + "key>"@);
    assert("</key><string>"@ =~= lt + "/key>"@ + lt + "string>"@);
    assert("</string>\n"@ =~= lt + "/string>\n"@);
    let what = "string>"@ + escaped(v);
    assert(without_tags(what)) by {
        assert forall|i: int| 0 <= i < what.len() implies #[trigger] what[i] != '<' by {
            if i >= 7 {
                assert(what[i] == escaped(v)[i - 7]);
            }
        }
    }
    regrouped(s, "\t\t\t"@, "key>"@, k, "/key>"@, "string>"@, escaped(v), "/string>\n"@);
    a_line_says_its_value(s, k, what, "/string>\n"@, key, value);
}

proof fn a_number_is_said(
    s: Seq<char>,
    k: Seq<char>,
    v: int,
    key: Seq<char>,
    value: Option<Seq<char>>,
)
    requires
        written(s, key, value),
        is_bare(k),
        k == key ==> value is None,
    ensures
        written(
            s + integer_text(k, v),
            key,
            if k == key {
                Some("integer>"@ + signed_digits(v))
            } else {
                value
            },
        ),
{
    bare_text_stays(k);
    escaped_has_no_tags(k);
    signed_digits_are_numerals(v);
    reveal_strlit("\t\t\t<key>");
    reveal_strlit("\t\t\t");
    reveal_strlit("key>");
    reveal_strlit("/key>");
    reveal_strlit("</key><integer>");
    reveal_strlit("integer>");
    reveal_strlit("</integer>\n");
    reveal_strlit("/integer>\n");
    let lt = seq!['<'];
    assert("\t\t\t<key>"@ =~= "\t\t\t"@ + lt + "key>"@);
    assert("</key><integer>"@ =~= lt + "/key>"@ + lt + "integer>"@);
    assert("</integer>\n"@ =~= lt + "/integer>\n"@);
    let what = "integer>"@ + signed_digits(v);
    assert(without_tags(what)) by {
        assert forall|i: int| 0 <= i < what.len() implies #[trigger] what[i] != '<' by {
            if i >= 8 {
                assert(what[i] == signed_digits(v)[i - 8]);
                assert(is_numeral(signed_digits(v)[i - 8]));
            }
        }
    }
    regrouped(s, "\t\t\t"@, "key>"@, k, "/key>"@, "integer>"@, signed_digits(v), "/integer>\n"@);
    a_line_says_its_value(s, k, what, "/integer>\n"@, key, value);
}

proof fn a_date_is_said(
    s: Seq<char>,
    k: Seq<char>,
    v: Seq<char>,
    key: Seq<char>,
    value: Option<Seq<char>>,
)
    requires
        written(s, key, value),
        is_bare(k),
        without_tags(v),
        k == key ==> value is None,
    ensures
        written(
            s + date_value_text(k, v),
            key,
            if k == key {
                Some("date>"@ + v)
            } else {
                value
            },
        ),
{
    bare_text_stays(k);
    escaped_has_no_tags(k);
    reveal_strlit("\t\t\t<key>");
    reveal_strlit("\t\t\t");
    reveal_strlit("key>");
    reveal_strlit("/key>");
    reveal_strlit("</key><date>");
    reveal_strlit("date>");
    reveal_strlit("</date>\n");
    reveal_strlit("/date>\n");
    let lt = seq!['<'];
    assert("\t\t\t<key>"@ =~= "\t\t\t"@ + lt + "key>"@);
    assert("</key><date>"@ =~= lt + "/key>"@ + lt + "date>"@);
    assert("</date>\n"@ =~= lt + "/date>\n"@);
    let what = "date>"@ + v;
    assert(without_tags(what)) by {
        assert forall|i: int| 0 <= i < what.len() implies #[trigger] what[i] != '<' by {
            if i >= 5 {
                assert(what[i] == v[i - 5]);
            }
        }
    }
    regrouped(s, "\t\t\t"@, "key>"@, k, "/key>"@, "date>"@, v, "/date>\n"@);
    a_line_says_its_value(s, k, what, "/date>\n"@, key, value);
}

proof fn padded_is_decimal(s: Seq<char>, width: nat)
    requires
        all_decimal(s),
    ensures
        all_decimal(zero_padded(s, width)),
    decreases width - s.len(),
{
    if s.len() < width {
        let t = seq!['0'] + s;
        assert(all_decimal(t)) by {
            assert forall|i: int| 0 <= i < t.len() implies is_decimal(#[trigger] t[i]) by {
                if i > 0 {
                    assert(t[i] == s[i - 1]);
                }
            }
        }
        padded_is_decimal(t, width);
    }
}

proof fn number_has_no_tags(n: int, width: nat)
    requires
        n >= 0,
    ensures
        without_tags(zero_padded(digits(n as nat), width)),
{
    decimals_are_read_back(n as nat);
    padded_is_decimal(digits(n as nat), width);
    let s = zero_padded(digits(n as nat), width);
    assert forall|i: int| 0 <= i < s.len() implies #[trigger] s[i] != '<' by {
        assert(is_decimal(s[i]));
    }
}

proof fn joined_without_tags(s: Seq<char>, t: Seq<char>)
    requires
        without_tags(s),
        without_tags(t),
    ensures
        without_tags(s + t),
{
    let r = s + t;
    assert forall|i: int| 0 <= i < r.len() implies #[trigger] r[i] != '<' by {
        if i < s.len() {
            assert(r[i] == s[i]);
        } else {
            assert(r[i] == t[i - s.len()]);
        }
    }
}

proof fn date_has_no_tags(p: UtcParts)
    ensures
        without_tags(date_text(p)),
{
    reveal_strlit("-");
    reveal_strlit("T");
    reveal_strlit(":");
    reveal_strlit("Z");
    let y = zero_padded(digits(p.year as nat), 4);
    number_has_no_tags(p.year as nat as int, 4);
    number_has_no_tags(p.month as nat as int, 2);
    number_has_no_tags(p.day as nat as int, 2);
    number_has_no_tags(p.hour as nat as int, 2);
    number_has_no_tags(p.minute as nat as int, 2);
    number_has_no_tags(p.second as nat as int, 2);
    let a = y + "-"@;
    joined_without_tags(y, "-"@);
    let b = a + two(p.month as int);
    joined_without_tags(a, two(p.month as int));
    joined_without_tags(b, "-"@);
    let c = b + "-"@ + two(p.day as int);
    joined_without_tags(b + "-"@, two(p.day as int));
    joined_without_tags(c, "T"@);
    let d = c + "T"@ + two(p.hour as int);
    joined_without_tags(c + "T"@, two(p.hour as int));
    joined_without_tags(d, ":"@);
    let e = d + ":"@ + two(p.minute as int);
    joined_without_tags(d + ":"@, two(p.minute as int));
    joined_without_tags(e, ":"@);
    let f = e + ":"@ + two(p.second as int);
    joined_without_tags(e + ":"@, two(p.second as int));
    joined_without_tags(f, "Z"@);
}

// ---------------------------------------------------------------------------
// A track
// ---------------------------------------------------------------------------

/// The keys of a track can be told apart, by their length and their first letters.
proof fn keys_are_bare_and_differ()
    ensures
        is_bare("Track ID"@) && "Track ID"@.len() == 8 && "Track ID"@[0] == 'T',
        is_bare("Size"@) && "Size"@.len() == 4 && "Size"@[0] == 'S',
        is_bare("Total Time"@) && "Total Time"@.len() == 10 && "Total Time"@[0] == 'T'
            && "Total Time"@[1] == 'o',
        is_bare("BPM"@) && "BPM"@.len() == 3 && "BPM"@[0] == 'B',
        is_bare("Date Modified"@) && "Date Modified"@.len() == 13 && "Date Modified"@[0] == 'D',
        is_bare("Date Added"@) && "Date Added"@.len() == 10 && "Date Added"@[0] == 'D'
            && "Date Added"@[1] == 'a',
        is_bare("Persistent ID"@) && "Persistent ID"@.len() == 13 && "Persistent ID"@[0] == 'P',
        is_bare("Track Type"@) && "Track Type"@.len() == 10 && "Track Type"@[0] == 'T'
            && "Track Type"@[1] == 'r',
        is_bare("Name"@) && "Name"@.len() == 4 && "Name"@[0] == 'N',
        is_bare("Artist"@) && "Artist"@.len() == 6 && "Artist"@[0] == 'A',
        is_bare("Album"@) && "Album"@.len() == 5 && "Album"@[0] == 'A',
        is_bare("Genre"@) && "Genre"@.len() == 5 && "Genre"@[0] == 'G',
        is_bare("Kind"@) && "Kind"@.len() == 4 && "Kind"@[0] == 'K',
        is_bare("Location"@) && "Location"@.len() == 8 && "Location"@[0] == 'L',
{
    reveal_strlit("Track ID");
    reveal_strlit("Size");
    reveal_strlit("Total Time");
    reveal_strlit("BPM");
    reveal_strlit("Date Modified");
    reveal_strlit("Date Added");
    reveal_strlit("Persistent ID");
    reveal_strlit("Track Type");
    reveal_strlit("Name");
    reveal_strlit("Artist");
    reveal_strlit("Album");
    reveal_strlit("Genre");
    reveal_strlit("Kind");
    reveal_strlit("Location");
}

/// What is under a key once the line was written, or was left out.
spec fn now_under(
    there: bool,
    k: Seq<char>,
    v: Seq<char>,
    key: Seq<char>,
    value: Option<Seq<char>>,
) -> Option<Seq<char>> {
    if there && k == key {
        Some(v)
    } else {
        value
    }
}

proof fn the_head_says_nothing(id: i64, key: Seq<char>)
    requires
        key.len() > 0,
        'A' <= key[0] <= 'Z',
    ensures
        written(
            "\t\t<key>"@ + signed_digits(id as int) + "</key>\n\t\t<dict>\n"@,
            key,
            None,
        ),
{
    let d = signed_digits(id as int);
    signed_digits_are_numerals(id as int);
    reveal_strlit("\t\t<key>");
    reveal_strlit("</key>\n\t\t<dict>\n");
    reveal_strlit("\t\t");
    reveal_strlit("key>");
    reveal_strlit("/key>\n\t\t");
    reveal_strlit("dict>\n");
    let lt = seq!['<'];
    let none = Seq::<char>::empty();
    let s0 = none + "\t\t"@;
    words_lengthen_the_last(none, "\t\t"@);
    let kd = "key>"@ + d;
    assert(without_tags(kd)) by {
        assert forall|i: int| 0 <= i < kd.len() implies #[trigger] kd[i] != '<' by {
            if i >= 4 {
                assert(kd[i] == d[i - 4]);
                assert(is_numeral(d[i - 4]));
            }
        }
    }
    let s1 = s0 + lt + kd;
    a_tag_begins_a_piece(s0, kd);
    let s2 = s1 + lt + "/key>\n\t\t"@;
    a_tag_begins_a_piece(s1, "/key>\n\t\t"@);
    let s3 = s2 + lt + "dict>\n"@;
    a_tag_begins_a_piece(s2, "dict>\n"@);
    let s = "\t\t<key>"@ + d + "</key>\n\t\t<dict>\n"@;
    assert("\t\t<key>"@ + d =~= s1);
    assert("</key>\n\t\t<dict>\n"@ =~= lt + "/key>\n\t\t"@ + lt + "dict>\n"@);
    assert(s =~= s3);
    assert forall|i: int| !#[trigger] key_at(s, i, key) by {
        if key_at(s, i, key) {
            assert(pieces(s)[i][0] == 'k');
            if i == 1 {
                assert(kd.skip(4) =~= d);
                assert(("key>"@ + key).skip(4) =~= key);
                assert(d == key);
                assert(is_numeral(d[0]));
            }
        }
    }
}

/// The beginning of a track's entry.
spec fn opened(t: TrackView) -> Seq<char> {
    "\t\t<key>"@ + signed_digits(t.id as int) + "</key>\n\t\t<dict>\n"@
}

/// The numbers of a track behind what was written so far.
spec fn numbers_written(t: TrackView, f: FileFactsView, s: Seq<char>) -> Seq<char> {
    let s = s + integer_text("Track ID"@, t.id as int);
    let s = if f.size is Some {
        s + integer_text("Size"@, f.size->0 as i64 as int)
    } else {
        s
    };
    let s = if t.duration_ms > 0 {
        s + integer_text("Total Time"@, t.duration_ms as int)
    } else {
        s
    };
    if t.bpm is Some && t.bpm->0 > 0 {
        s + integer_text("BPM"@, t.bpm->0 as int)
    } else {
        s
    }
}

spec fn numbers_under(
    t: TrackView,
    f: FileFactsView,
    key: Seq<char>,
    v: Option<Seq<char>>,
) -> Option<Seq<char>> {
    let v = now_under(true, "Track ID"@, "integer>"@ + signed_digits(t.id as int), key, v);
    let v = now_under(
        f.size is Some,
        "Size"@,
        "integer>"@ + signed_digits(f.size->0 as i64 as int),
        key,
        v,
    );
    let v = now_under(
        t.duration_ms > 0,
        "Total Time"@,
        "integer>"@ + signed_digits(t.duration_ms as int),
        key,
        v,
    );
    now_under(
        t.bpm is Some && t.bpm->0 > 0,
        "BPM"@,
        "integer>"@ + signed_digits(t.bpm->0 as int),
        key,
        v,
    )
}

proof fn track_numbers_are_said(t: TrackView, f: FileFactsView, s0: Seq<char>, key: Seq<char>)
    requires
        written(s0, key, None),
    ensures
        written(numbers_written(t, f, s0), key, numbers_under(t, f, key, None)),
{
    keys_are_bare_and_differ();
    let v0: Option<Seq<char>> = None;
    a_number_is_said(s0, "Track ID"@, t.id as int, key, v0);
    let s1 = s0 + integer_text("Track ID"@, t.id as int);
    let v1 = now_under(true, "Track ID"@, "integer>"@ + signed_digits(t.id as int), key, v0);
    if f.size is Some {
        a_number_is_said(s1, "Size"@, f.size->0 as i64 as int, key, v1);
    }
    let s2 = if f.size is Some {
        s1 + integer_text("Size"@, f.size->0 as i64 as int)
    } else {
        s1
    };
    let v2 = now_under(
        f.size is Some,
        "Size"@,
        "integer>"@ + signed_digits(f.size->0 as i64 as int),
        key,
        v1,
    );
    if t.duration_ms > 0 {
        a_number_is_said(s2, "Total Time"@, t.duration_ms as int, key, v2);
    }
    let s3 = if t.duration_ms > 0 {
        s2 + integer_text("Total Time"@, t.duration_ms as int)
    } else {
        s2
    };
    let v3 = now_under(
        t.duration_ms > 0,
        "Total Time"@,
        "integer>"@ + signed_digits(t.duration_ms as int),
        key,
        v2,
    );
    if t.bpm is Some && t.bpm->0 > 0 {
        a_number_is_said(s3, "BPM"@, t.bpm->0 as int, key, v3);
    }
}

spec fn dates_under(date: Seq<char>, key: Seq<char>, v: Option<Seq<char>>) -> Option<Seq<char>> {
    let v = now_under(true, "Date Modified"@, "date>"@ + date, key, v);
    now_under(true, "Date Added"@, "date>"@ + date, key, v)
}

/// The moment that is written for a file.
spec fn moment_of(f: FileFactsView, now: int) -> int {
    match f.modified_secs {
        Some(m) => m as int,
        None => now,
    }
}

/// What a reader finds under a key of a track, from line to line.
proof fn track_says(t: TrackView, f: FileFactsView, now: int, key: Seq<char>)
    requires
        key.len() > 0,
        'A' <= key[0] <= 'Z',
    ensures
        written(
            track_text(t, f, now),
            key,
            texts_under(
                t,
                f,
                key,
                dates_under(
                    date_text(parts_of(moment_of(f, now))),
                    key,
                    numbers_under(t, f, key, None),
                ),
            ),
        ),
{
    keys_are_bare_and_differ();
    let date = date_text(parts_of(moment_of(f, now)));
    date_has_no_tags(parts_of(moment_of(f, now)));
    let s0 = opened(t);
    the_head_says_nothing(t.id, key);
    track_numbers_are_said(t, f, s0, key);
    let s4 = numbers_written(t, f, s0);
    let v4 = numbers_under(t, f, key, None);
    a_date_is_said(s4, "Date Modified"@, date, key, v4);
    let s5 = s4 + date_value_text("Date Modified"@, date);
    let v5 = now_under(true, "Date Modified"@, "date>"@ + date, key, v4);
    a_date_is_said(s5, "Date Added"@, date, key, v5);
    let s6 = s5 + date_value_text("Date Added"@, date);
    let v6 = dates_under(date, key, v4);
    track_texts_are_said(t, f, s6, key, v6);
    let s14 = strings_written(t, f, s6);
    let v14 = texts_under(t, f, key, v6);
    the_entry_ends(s14, key, v14);
    assert(track_text(t, f, now) == s14 + "\t\t</dict>\n"@);
}

proof fn the_entry_ends(s: Seq<char>, key: Seq<char>, v: Option<Seq<char>>)
    requires
        written(s, key, v),
    ensures
        written(s + "\t\t</dict>\n"@, key, v),
{
    reveal_strlit("\t\t</dict>\n");
    reveal_strlit("\t\t");
    reveal_strlit("/dict>\n");
    assert(s + "\t\t</dict>\n"@ =~= s + "\t\t"@ + seq!['<'] + "/dict>\n"@);
    words_change_nothing(s, "\t\t"@, key, v);
    a_tag_changes_nothing(s + "\t\t"@, "/dict>\n"@, key, v);
}

/// The texts of a track behind what was written so far.
spec fn strings_written(t: TrackView, f: FileFactsView, s: Seq<char>) -> Seq<char> {
    let s = s + string_text("Persistent ID"@, track_persist(t.id));
    let s = s + string_text("Track Type"@, "File"@);
    let s = s + string_text("Name"@, t.title);
    let s = if t.artist.len() > 0 {
        s + string_text("Artist"@, t.artist)
    } else {
        s
    };
    let s = if t.album.len() > 0 {
        s + string_text("Album"@, t.album)
    } else {
        s
    };
    let s = if t.genre.len() > 0 {
        s + string_text("Genre"@, t.genre)
    } else {
        s
    };
    let s = s + string_text("Kind"@, kind_of(lowercase(f.extension)));
    s + string_text("Location"@, location_of(t.path))
}

spec fn texts_under(
    t: TrackView,
    f: FileFactsView,
    key: Seq<char>,
    v: Option<Seq<char>>,
) -> Option<Seq<char>> {
    let v = now_under(true, "Persistent ID"@, "string>"@ + escaped(track_persist(t.id)), key, v);
    let v = now_under(true, "Track Type"@, "string>"@ + escaped("File"@), key, v);
    let v = now_under(true, "Name"@, "string>"@ + escaped(t.title), key, v);
    let v = now_under(t.artist.len() > 0, "Artist"@, "string>"@ + escaped(t.artist), key, v);
    let v = now_under(t.album.len() > 0, "Album"@, "string>"@ + escaped(t.album), key, v);
    let v = now_under(t.genre.len() > 0, "Genre"@, "string>"@ + escaped(t.genre), key, v);
    let v = now_under(
        true,
        "Kind"@,
        "string>"@ + escaped(kind_of(lowercase(f.extension))),
        key,
        v,
    );
    now_under(true, "Location"@, "string>"@ + escaped(location_of(t.path)), key, v)
}

proof fn track_texts_are_said(
    t: TrackView,
    f: FileFactsView,
    s6: Seq<char>,
    key: Seq<char>,
    v6: Option<Seq<char>>,
)
    requires
        written(s6, key, v6),
        v6 is Some ==> key.len() > 0 && key != "Persistent ID"@ && key != "Track Type"@ && key
            != "Name"@ && key != "Artist"@ && key != "Album"@ && key != "Genre"@ && key != "Kind"@
            && key != "Location"@,
    ensures
        written(strings_written(t, f, s6), key, texts_under(t, f, key, v6)),
{
    keys_are_bare_and_differ();
    a_string_is_said(s6, "Persistent ID"@, track_persist(t.id), key, v6);
    let s7 = s6 + string_text("Persistent ID"@, track_persist(t.id));
    let v7 = now_under(true, "Persistent ID"@, "string>"@ + escaped(track_persist(t.id)), key, v6);
    a_string_is_said(s7, "Track Type"@, "File"@, key, v7);
    let s8 = s7 + string_text("Track Type"@, "File"@);
    let v8 = now_under(true, "Track Type"@, "string>"@ + escaped("File"@), key, v7);
    a_string_is_said(s8, "Name"@, t.title, key, v8);
    let s9 = s8 + string_text("Name"@, t.title);
    let v9 = now_under(true, "Name"@, "string>"@ + escaped(t.title), key, v8);
    if t.artist.len() > 0 {
        a_string_is_said(s9, "Artist"@, t.artist, key, v9);
    }
    let s10 = if t.artist.len() > 0 {
        s9 + string_text("Artist"@, t.artist)
    } else {
        s9
    };
    let v10 = now_under(t.artist.len() > 0, "Artist"@, "string>"@ + escaped(t.artist), key, v9);
    if t.album.len() > 0 {
        a_string_is_said(s10, "Album"@, t.album, key, v10);
    }
    let s11 = if t.album.len() > 0 {
        s10 + string_text("Album"@, t.album)
    } else {
        s10
    };
    let v11 = now_under(t.album.len() > 0, "Album"@, "string>"@ + escaped(t.album), key, v10);
    if t.genre.len() > 0 {
        a_string_is_said(s11, "Genre"@, t.genre, key, v11);
    }
    let s12 = if t.genre.len() > 0 {
        s11 + string_text("Genre"@, t.genre)
    } else {
        s11
    };
    let v12 = now_under(t.genre.len() > 0, "Genre"@, "string>"@ + escaped(t.genre), key, v11);
    let kind = kind_of(lowercase(f.extension));
    a_string_is_said(s12, "Kind"@, kind, key, v12);
    let s13 = s12 + string_text("Kind"@, kind);
    let v13 = now_under(true, "Kind"@, "string>"@ + escaped(kind), key, v12);
    a_string_is_said(s13, "Location"@, location_of(t.path), key, v13);
}

/// Whoever reads the entry of a track finds under each key what the library knows of
/// that very thing: its title under `Name`, its artist, its album and its genre under
/// theirs, its length, its tempo, its size and where it is. What is not known, or empty,
/// is not there at all; the title always is.
pub proof fn a_track_is_read_as_it_is(t: TrackView, f: FileFactsView, now: int)
    ensures
        ({
            let s = track_text(t, f, now);
            &&& says(s, "Track ID"@, "integer>"@ + signed_digits(t.id as int))
            &&& says(s, "Name"@, "string>"@ + escaped(t.title))
            &&& t.artist.len() > 0 ==> says(s, "Artist"@, "string>"@ + escaped(t.artist))
            &&& t.artist.len() == 0 ==> is_silent_on(s, "Artist"@)
            &&& t.album.len() > 0 ==> says(s, "Album"@, "string>"@ + escaped(t.album))
            &&& t.album.len() == 0 ==> is_silent_on(s, "Album"@)
            &&& t.genre.len() > 0 ==> says(s, "Genre"@, "string>"@ + escaped(t.genre))
            &&& t.genre.len() == 0 ==> is_silent_on(s, "Genre"@)
            &&& t.duration_ms > 0 ==> says(
                s,
                "Total Time"@,
                "integer>"@ + signed_digits(t.duration_ms as int),
            )
            &&& t.duration_ms <= 0 ==> is_silent_on(s, "Total Time"@)
            &&& forall|bpm: i64|
                t.bpm == Some(bpm) && bpm > 0 ==> says(
                    s,
                    "BPM"@,
                    #[trigger] ("integer>"@ + signed_digits(bpm as int)),
                )
            &&& t.bpm is None ==> is_silent_on(s, "BPM"@)
            &&& forall|size: u64|
                f.size == Some(size) && size <= i64::MAX ==> says(
                    s,
                    "Size"@,
                    #[trigger] ("integer>"@ + signed_digits(size as int)),
                )
            &&& f.size is None ==> is_silent_on(s, "Size"@)
            &&& says(s, "Persistent ID"@, "string>"@ + escaped(track_persist(t.id)))
            &&& says(s, "Track Type"@, "string>"@ + escaped("File"@))
            &&& says(s, "Location"@, "string>"@ + escaped(location_of(t.path)))
            &&& says(s, "Kind"@, "string>"@ + escaped(kind_of(lowercase(f.extension))))
            &&& forall|secs: u64|
                f.modified_secs == Some(secs) ==> says(
                    s,
                    "Date Modified"@,
                    #[trigger] ("date>"@ + date_text(parts_of(secs as int))),
                )
            &&& f.modified_secs is None ==> says(
                s,
                "Date Modified"@,
                "date>"@ + date_text(parts_of(now)),
            )
        }),
{
    keys_are_bare_and_differ();
    track_says(t, f, now, "Track ID"@);
    track_says(t, f, now, "Size"@);
    track_says(t, f, now, "Total Time"@);
    track_says(t, f, now, "BPM"@);
    track_says(t, f, now, "Date Modified"@);
    track_says(t, f, now, "Persistent ID"@);
    track_says(t, f, now, "Track Type"@);
    track_says(t, f, now, "Name"@);
    track_says(t, f, now, "Artist"@);
    track_says(t, f, now, "Album"@);
    track_says(t, f, now, "Genre"@);
    track_says(t, f, now, "Kind"@);
    track_says(t, f, now, "Location"@);
}

// ---------------------------------------------------------------------------
// A playlist
// ---------------------------------------------------------------------------

/// A key that is another one changes nothing that is said of `key`.
proof fn another_key_changes_nothing(
    s: Seq<char>,
    k: Seq<char>,
    t: Seq<char>,
    key: Seq<char>,
    value: Option<Seq<char>>,
)
    requires
        written(s, key, value),
        without_tags(k),
        without_tags(t),
        k != key,
        t.len() > 0,
        t[0] != 'k',
    ensures
        written(s + seq!['<'] + ("key>"@ + k) + seq!['<'] + t, key, value),
{
    reveal_strlit("key>");
    let kk = "key>"@ + k;
    assert(without_tags(kk)) by {
        assert forall|i: int| 0 <= i < kk.len() implies #[trigger] kk[i] != '<' by {
            if i >= 4 {
                assert(kk[i] == k[i - 4]);
            }
        }
    }
    let n = pieces(s).len() as int;
    a_tag_begins_a_piece(s, kk);
    let s1 = s + seq!['<'] + kk;
    a_tag_begins_a_piece(s1, t);
    let r = s1 + seq!['<'] + t;
    assert forall|i: int| #[trigger] key_at(r, i, key) == key_at(s, i, key) by {
        if i == n && key_at(r, i, key) {
            assert(kk.skip(4) =~= k);
            assert(("key>"@ + key).skip(4) =~= key);
        }
        if i == n + 1 && key_at(r, i, key) {
            assert(pieces(r)[i][0] == 'k');
        }
    }
    if value is Some {
        let i = choose|i: int| key_at(s, i, key);
        assert(key_at(r, i, key));
    }
}

/// A key that only says yes.
proof fn a_mark_is_said(s: Seq<char>, k: Seq<char>, key: Seq<char>, value: Option<Seq<char>>)
    requires
        written(s, key, value),
        without_tags(k),
        k != key,
    ensures
        written(s + ("\t\t\t<key>"@ + k + "</key><true/>\n"@), key, value),
{
    reveal_strlit("\t\t\t<key>");
    reveal_strlit("\t\t\t");
    reveal_strlit("key>");
    reveal_strlit("/key>");
    reveal_strlit("</key><true/>\n");
    reveal_strlit("true/>\n");
    let lt = seq!['<'];
    words_change_nothing(s, "\t\t\t"@, key, value);
    let s0 = s + "\t\t\t"@;
    another_key_changes_nothing(s0, k, "/key>"@, key, value);
    let s1 = s0 + lt + ("key>"@ + k) + lt + "/key>"@;
    a_tag_changes_nothing(s1, "true/>\n"@, key, value);
    assert(s + ("\t\t\t<key>"@ + k + "</key><true/>\n"@) =~= s1 + lt + "true/>\n"@);
}

/// The keys of a playlist can be told apart.
proof fn playlist_keys_differ()
    ensures
        is_bare("Playlist ID"@) && "Playlist ID"@.len() == 11 && "Playlist ID"@[0] == 'P',
        is_bare("Parent Persistent ID"@) && "Parent Persistent ID"@.len() == 20
            && "Parent Persistent ID"@[0] == 'P',
        is_bare("Playlist Persistent ID"@) && "Playlist Persistent ID"@.len() == 22
            && "Playlist Persistent ID"@[0] == 'P',
        without_tags("All Items"@) && "All Items"@.len() == 9,
        without_tags("Folder"@) && "Folder"@.len() == 6 && "Folder"@[0] == 'F',
        is_bare("Name"@) && "Name"@.len() == 4 && "Name"@[0] == 'N',
        without_tags("Playlist Items"@) && "Playlist Items"@.len() == 14,
        without_tags("Track ID"@) && "Track ID"@.len() == 8 && "Track ID"@[0] == 'T',
{
    reveal_strlit("Playlist ID");
    reveal_strlit("Parent Persistent ID");
    reveal_strlit("Playlist Persistent ID");
    reveal_strlit("All Items");
    reveal_strlit("Folder");
    reveal_strlit("Name");
    reveal_strlit("Playlist Items");
    reveal_strlit("Track ID");
}

/// The tracks of a playlist say nothing under other keys.
proof fn items_say_nothing_else(s: Seq<char>, ids: Seq<i64>, key: Seq<char>, value: Option<Seq<char>>)
    requires
        written(s, key, value),
        key != "Playlist Items"@,
        key != "Track ID"@,
    ensures
        written(s + items_text(ids), key, value),
    decreases ids.len(),
{
    playlist_keys_differ();
    let lt = seq!['<'];
    reveal_strlit("key>");
    if ids.len() == 0 {
        reveal_strlit("\t\t\t<key>Playlist Items</key>\n\t\t\t<array>\n");
        reveal_strlit("\t\t\t");
        reveal_strlit("Playlist Items");
        reveal_strlit("/key>\n\t\t\t");
        reveal_strlit("array>\n");
        words_change_nothing(s, "\t\t\t"@, key, value);
        let s0 = s + "\t\t\t"@;
        another_key_changes_nothing(s0, "Playlist Items"@, "/key>\n\t\t\t"@, key, value);
        let s1 = s0 + lt + ("key>"@ + "Playlist Items"@) + lt + "/key>\n\t\t\t"@;
        a_tag_changes_nothing(s1, "array>\n"@, key, value);
        assert(s + items_text(ids) =~= s1 + lt + "array>\n"@);
    } else {
        let head = ids.drop_last();
        let r = s + items_text(head);
        items_say_nothing_else(s, head, key, value);
        an_item_says_nothing_else(r, ids.last(), key, value);
        assert(s + items_text(ids) =~= r + item_text(ids.last()));
    }
}

proof fn an_item_says_nothing_else(s: Seq<char>, id: i64, key: Seq<char>, value: Option<Seq<char>>)
    requires
        written(s, key, value),
        key != "Track ID"@,
    ensures
        written(s + item_text(id), key, value),
{
    playlist_keys_differ();
    let lt = seq!['<'];
    let d = signed_digits(id as int);
    signed_digits_are_numerals(id as int);
    reveal_strlit("key>");
    reveal_strlit("\t\t\t\t<dict>\n\t\t\t\t\t<key>Track ID</key><integer>");
    reveal_strlit("</integer>\n\t\t\t\t</dict>\n");
    reveal_strlit("\t\t\t\t");
    reveal_strlit("dict>\n\t\t\t\t\t");
    reveal_strlit("Track ID");
    reveal_strlit("/key>");
    reveal_strlit("integer>");
    reveal_strlit("/integer>\n\t\t\t\t");
    reveal_strlit("/dict>\n");
    let what = "integer>"@ + d;
    assert(without_tags(what)) by {
        assert forall|i: int| 0 <= i < what.len() implies #[trigger] what[i] != '<' by {
            if i >= 8 {
                assert(what[i] == d[i - 8]);
                assert(is_numeral(d[i - 8]));
            }
        }
    }
    words_change_nothing(s, "\t\t\t\t"@, key, value);
    let s0 = s + "\t\t\t\t"@;
    a_tag_changes_nothing(s0, "dict>\n\t\t\t\t\t"@, key, value);
    let s1 = s0 + lt + "dict>\n\t\t\t\t\t"@;
    another_key_changes_nothing(s1, "Track ID"@, "/key>"@, key, value);
    let s2 = s1 + lt + ("key>"@ + "Track ID"@) + lt + "/key>"@;
    a_tag_changes_nothing(s2, what, key, value);
    let s3 = s2 + lt + what;
    a_tag_changes_nothing(s3, "/integer>\n\t\t\t\t"@, key, value);
    let s4 = s3 + lt + "/integer>\n\t\t\t\t"@;
    a_tag_changes_nothing(s4, "/dict>\n"@, key, value);
    let one = "\t\t\t\t"@ + lt + "dict>\n\t\t\t\t\t"@ + lt + ("key>"@ + "Track ID"@) + lt + "/key>"@
        + lt + "integer>"@;
    assert("\t\t\t\t<dict>\n\t\t\t\t\t<key>Track ID</key><integer>"@ =~= one);
    assert(s + one + d =~= s3);
    let two = lt + "/integer>\n\t\t\t\t"@ + lt + "/dict>\n"@;
    assert("</integer>\n\t\t\t\t</dict>\n"@ =~= two);
    assert(s + item_text(id) =~= s + one + d + two);
    assert(s3 + two =~= s4 + lt + "/dict>\n"@);
}

proof fn the_list_ends(s: Seq<char>, ids: Seq<i64>, key: Seq<char>, value: Option<Seq<char>>)
    requires
        written(s, key, value),
        key != "Playlist Items"@,
        key != "Track ID"@,
    ensures
        written(s + (items_text(ids) + "\t\t\t</array>\n"@) + "\t\t</dict>\n"@, key, value),
{
    items_say_nothing_else(s, ids, key, value);
    let r = s + items_text(ids);
    let lt = seq!['<'];
    reveal_strlit("\t\t\t</array>\n");
    reveal_strlit("\t\t\t");
    reveal_strlit("/array>\n");
    words_change_nothing(r, "\t\t\t"@, key, value);
    a_tag_changes_nothing(r + "\t\t\t"@, "/array>\n"@, key, value);
    assert(s + (items_text(ids) + "\t\t\t</array>\n"@) =~= r + "\t\t\t"@ + lt + "/array>\n"@);
    the_entry_ends(s + (items_text(ids) + "\t\t\t</array>\n"@), key, value);
}

spec fn head_under(
    pid: i64,
    persist: Seq<char>,
    parent: Option<Seq<char>>,
    key: Seq<char>,
) -> Option<Seq<char>> {
    let v = now_under(true, "Playlist ID"@, "integer>"@ + signed_digits(pid as int), key, None);
    let v = now_under(
        parent is Some,
        "Parent Persistent ID"@,
        "string>"@ + escaped(parent->0),
        key,
        v,
    );
    now_under(true, "Playlist Persistent ID"@, "string>"@ + escaped(persist), key, v)
}

proof fn the_head_of_a_playlist_says(
    pid: i64,
    persist: Seq<char>,
    parent: Option<Seq<char>>,
    key: Seq<char>,
)
    requires
        key != "All Items"@,
    ensures
        written(entry_head(pid, persist, parent), key, head_under(pid, persist, parent, key)),
{
    playlist_keys_differ();
    let lt = seq!['<'];
    reveal_strlit("\t\t<dict>\n");
    reveal_strlit("\t\t");
    reveal_strlit("dict>\n");
    reveal_strlit("key>");
    let none = Seq::<char>::empty();
    let s0 = "\t\t<dict>\n"@;
    words_lengthen_the_last(none, "\t\t"@);
    a_tag_begins_a_piece(none + "\t\t"@, "dict>\n"@);
    assert(s0 =~= none + "\t\t"@ + lt + "dict>\n"@);
    assert forall|i: int| !#[trigger] key_at(s0, i, key) by {
        if key_at(s0, i, key) {
            assert(pieces(s0)[i][0] == 'k');
        }
    }
    let v0: Option<Seq<char>> = None;
    assert(written(s0, key, v0));
    a_number_is_said(s0, "Playlist ID"@, pid as int, key, v0);
    let s1 = s0 + integer_text("Playlist ID"@, pid as int);
    let v1 = now_under(true, "Playlist ID"@, "integer>"@ + signed_digits(pid as int), key, v0);
    if parent is Some {
        a_string_is_said(s1, "Parent Persistent ID"@, parent->0, key, v1);
    }
    let s2 = if parent is Some {
        s1 + string_text("Parent Persistent ID"@, parent->0)
    } else {
        s1
    };
    let v2 = now_under(
        parent is Some,
        "Parent Persistent ID"@,
        "string>"@ + escaped(parent->0),
        key,
        v1,
    );
    a_string_is_said(s2, "Playlist Persistent ID"@, persist, key, v2);
    let s3 = s2 + string_text("Playlist Persistent ID"@, persist);
    let v3 = head_under(pid, persist, parent, key);
    a_mark_is_said(s3, "All Items"@, key, v3);
    reveal_strlit("\t\t\t<key>All Items</key><true/>\n");
    reveal_strlit("\t\t\t<key>");
    reveal_strlit("All Items");
    reveal_strlit("</key><true/>\n");
    assert("\t\t\t<key>All Items</key><true/>\n"@ =~= "\t\t\t<key>"@ + "All Items"@
        + "</key><true/>\n"@);
}

proof fn playlist_says(
    name: Seq<char>,
    pid: i64,
    persist: Seq<char>,
    parent: Option<Seq<char>>,
    ids: Seq<i64>,
    key: Seq<char>,
)
    requires
        key != "All Items"@,
        key != "Playlist Items"@,
        key != "Track ID"@,
    ensures
        written(
            playlist_text(name, pid, persist, parent, ids),
            key,
            now_under(
                true,
                "Name"@,
                "string>"@ + escaped(name),
                key,
                head_under(pid, persist, parent, key),
            ),
        ),
        key != "Folder"@ ==> written(
            folder_text(name, pid, persist, parent, ids),
            key,
            now_under(
                true,
                "Name"@,
                "string>"@ + escaped(name),
                key,
                head_under(pid, persist, parent, key),
            ),
        ),
{
    playlist_keys_differ();
    let s0 = entry_head(pid, persist, parent);
    let v0 = head_under(pid, persist, parent, key);
    the_head_of_a_playlist_says(pid, persist, parent, key);
    let v1 = now_under(true, "Name"@, "string>"@ + escaped(name), key, v0);
    a_string_is_said(s0, "Name"@, name, key, v0);
    the_list_ends(s0 + string_text("Name"@, name), ids, key, v1);
    if key != "Folder"@ {
        let mark = "\t\t\t<key>Folder</key><true/>\n"@;
        reveal_strlit("\t\t\t<key>Folder</key><true/>\n");
        reveal_strlit("\t\t\t<key>");
        reveal_strlit("Folder");
        reveal_strlit("</key><true/>\n");
        assert(mark =~= "\t\t\t<key>"@ + "Folder"@ + "</key><true/>\n"@);
        a_mark_is_said(s0, "Folder"@, key, v0);
        a_string_is_said(s0 + mark, "Name"@, name, key, v0);
        the_list_ends(s0 + mark + string_text("Name"@, name), ids, key, v1);
    }
}

/// Whoever reads the entry of a playlist or of a folder finds its name, its number, the
/// id by which it is remembered, and that of the folder it lies in, if it lies in one,
/// each under its own key; and no playlist is taken for a folder.
pub proof fn a_playlist_is_read_as_it_is(
    name: Seq<char>,
    pid: i64,
    persist: Seq<char>,
    parent: Option<Seq<char>>,
    ids: Seq<i64>,
)
    ensures
        ({
            let s = playlist_text(name, pid, persist, parent, ids);
            let f = folder_text(name, pid, persist, parent, ids);
            &&& says(s, "Name"@, "string>"@ + escaped(name))
            &&& says(f, "Name"@, "string>"@ + escaped(name))
            &&& says(s, "Playlist ID"@, "integer>"@ + signed_digits(pid as int))
            &&& says(f, "Playlist ID"@, "integer>"@ + signed_digits(pid as int))
            &&& says(s, "Playlist Persistent ID"@, "string>"@ + escaped(persist))
            &&& says(f, "Playlist Persistent ID"@, "string>"@ + escaped(persist))
            &&& forall|p: Seq<char>|
                parent == Some(p) ==> says(
                    s,
                    "Parent Persistent ID"@,
                    #[trigger] ("string>"@ + escaped(p)),
                ) && says(f, "Parent Persistent ID"@, "string>"@ + escaped(p))
            &&& parent is None ==> is_silent_on(s, "Parent Persistent ID"@) && is_silent_on(
                f,
                "Parent Persistent ID"@,
            )
            &&& is_silent_on(s, "Folder"@)
        }),
{
    playlist_keys_differ();
    playlist_says(name, pid, persist, parent, ids, "Name"@);
    playlist_says(name, pid, persist, parent, ids, "Playlist ID"@);
    playlist_says(name, pid, persist, parent, ids, "Playlist Persistent ID"@);
    playlist_says(name, pid, persist, parent, ids, "Parent Persistent ID"@);
    playlist_says(name, pid, persist, parent, ids, "Folder"@);
}

} // verus!
