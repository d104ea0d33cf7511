//! The library as an iTunes library file, which DJ programs read.

use crate::dates::{date_text, itunes_date, parts_of};
pub use crate::dates::{civil_from_days, compact_timestamp};
use crate::library::{Library, LibraryView, PlaylistTrackRow};
use crate::seqs::{filter_step, take_all, take_none_filter, views, views_push};
use crate::table::{first_where, first_where_is_first, keyed};
use crate::text::{
    chars_of, hex, hex_digits, lowercase, same, signed_decimal, signed_digits, to_lower,
};
use crate::tracks::{all_tracks, ids_of, list_tracks, places, places_of, Track, TrackView};
use crate::tree::{list_playlists, same_id, tree_of, PlaylistNode, PlaylistNodeView};
use vstd::prelude::*;
use vstd::utf8::encode_utf8;

verus! {

broadcast use vstd::string::group_string_axioms;

// ---------------------------------------------------------------------------
// Escaping
// ---------------------------------------------------------------------------

/// A control character that XML does not allow.
pub open spec fn is_control(c: char) -> bool {
    let u = c as u32;
    u <= 0x08 || u == 0x0B || u == 0x0C || (0x0E <= u && u <= 0x1F)
}

/// Whether a character is a control character that XML does not allow.
pub fn is_illegal_ctrl(c: char) -> (r: bool)
    ensures
        r == is_control(c),
{
    let u: u32 = c as u32;
    u <= 0x08 || u == 0x0B || u == 0x0C || (0x0E <= u && u <= 0x1F)
}

/// A character as XML text.
pub open spec fn escaped_char(c: char) -> Seq<char> {
    if c == '&' {
        "&amp;"@
    } else if c == '<' {
        "&lt;"@
    } else if c == '>' {
        "&gt;"@
    } else if c == '"' {
        "&quot;"@
    } else {
        seq![c]
    }
}

/// The text without the control characters it starts with.
pub open spec fn after_controls(s: Seq<char>) -> Seq<char>
    decreases s.len(),
{
    if s.len() > 0 && is_control(s[0]) {
        after_controls(s.drop_first())
    } else {
        s
    }
}

proof fn after_controls_is_shorter(s: Seq<char>)
    ensures
        after_controls(s).len() <= s.len(),
        after_controls(s).len() > 0 ==> !is_control(after_controls(s)[0]),
    decreases s.len(),
{
    if s.len() > 0 && is_control(s[0]) {
        after_controls_is_shorter(s.drop_first());
    }
}

/// A text as XML text: each run of control characters is a slash between spaces,
/// and what XML gives a meaning is written as what it stands for.
pub open spec fn escaped(s: Seq<char>) -> Seq<char>
    decreases s.len(),
    via escaped_ends
{
    if s.len() == 0 {
        Seq::empty()
    } else if is_control(s[0]) {
        " / "@ + escaped(after_controls(s.drop_first()))
    } else {
        escaped_char(s[0]) + escaped(s.drop_first())
    }
}

#[via_fn]
proof fn escaped_ends(s: Seq<char>) {
    if s.len() > 0 {
        after_controls_is_shorter(s.drop_first());
    }
}

/// A text as XML text.
pub fn xml_escape(s: &str) -> (r: String)
    ensures
        r@ == escaped(s@),
{
    let v: Vec<char> = chars_of(s);
    let n: usize = v.len();
    let mut out: String = String::new();
    let mut i: usize = 0;
    proof {
        assert(s@.skip(0) =~= s@);
        assert(out@ + escaped(s@) =~= escaped(s@));
    }
    while i < n
        invariant
            v@ == s@,
            n == v@.len(),
            i <= n,
            out@ + escaped(s@.skip(i as int)) == escaped(s@),
        decreases n - i,
    {
        let c: char = v[i];
        let ghost at = i;
        let ghost rest = s@.skip(i as int);
        let ghost so_far = out@;
        proof {
            assert(rest.drop_first() =~= s@.skip(i + 1));
        }
        i = i + 1;
        if is_illegal_ctrl(c) {
            out.append(" / ");
            let ghost start = s@.skip(i as int);
            while i < n && is_illegal_ctrl(v[i])
                invariant
                    v@ == s@,
                    n == v@.len(),
                    at < i <= n,
                    after_controls(start) == after_controls(s@.skip(i as int)),
                decreases n - i,
            {
                proof {
                    assert(s@.skip(i as int).drop_first() =~= s@.skip(i + 1));
                }
                i = i + 1;
            }
            proof {
                assert(after_controls(s@.skip(i as int)) == s@.skip(i as int));
                assert(so_far + (" / "@ + escaped(s@.skip(i as int))) =~= out@ + escaped(
                    s@.skip(i as int),
                ));
            }
        } else {
            push_escaped(&mut out, c);
            proof {
                assert(so_far + (escaped_char(c) + escaped(s@.skip(i as int))) =~= out@ + escaped(
                    s@.skip(i as int),
                ));
            }
        }
    }
    proof {
        assert(s@.skip(n as int) =~= Seq::empty());
        assert(out@ =~= out@ + escaped(s@.skip(n as int)));
    }
    out
}

fn push_escaped(out: &mut String, c: char)
    ensures
        final(out)@ == old(out)@ + escaped_char(c),
{
    let ghost before = out@;
    if c == '&' {
        out.append("&amp;");
    } else if c == '<' {
        out.append("&lt;");
    } else if c == '>' {
        out.append("&gt;");
    } else if c == '"' {
        out.append("&quot;");
    } else {
        out.push(c);
        proof {
            assert(out@ =~= before + seq![c]);
        }
    }
}

/// Nothing in the text is a control character, or a character that XML would take
/// for markup.
pub open spec fn is_plain_text(s: Seq<char>) -> bool {
    forall|i: int|
        0 <= i < s.len() ==> !is_control(#[trigger] s[i]) && s[i] != '<' && s[i] != '>' && s[i] != '"'
}

/// Escaped text holds no control characters and no markup, whatever it was made of.
pub proof fn escaped_text_is_plain(s: Seq<char>)
    ensures
        is_plain_text(escaped(s)),
    decreases s.len(),
{
    if s.len() > 0 {
        after_controls_is_shorter(s.drop_first());
        if is_control(s[0]) {
            escaped_text_is_plain(after_controls(s.drop_first()));
            reveal_strlit(" / ");
        } else {
            escaped_text_is_plain(s.drop_first());
            reveal_strlit("&amp;");
            reveal_strlit("&lt;");
            reveal_strlit("&gt;");
            reveal_strlit("&quot;");
        }
    }
}

// ---------------------------------------------------------------------------
// Keys and values
// ---------------------------------------------------------------------------

pub open spec fn string_text(key: Seq<char>, val: Seq<char>) -> Seq<char> {
    "\t\t\t<key>"@ + escaped(key) + "</key><string>"@ + escaped(val) + "</string>\n"@
}

/// A key with a text.
pub fn kv_string(key: &str, val: &str) -> (r: String)
    ensures
        r@ == string_text(key@, val@),
{
    let mut s: String = "\t\t\t<key>".to_owned();
    let k: String = xml_escape(key);
    s.append(k.as_str());
    s.append("</key><string>");
    let v: String = xml_escape(val);
    s.append(v.as_str());
    s.append("</string>\n");
    s
}

pub open spec fn integer_text(key: Seq<char>, val: int) -> Seq<char> {
    "\t\t\t<key>"@ + escaped(key) + "</key><integer>"@ + signed_digits(val) + "</integer>\n"@
}

/// A key with a number.
pub fn kv_integer(key: &str, val: i64) -> (r: String)
    ensures
        r@ == integer_text(key@, val as int),
{
    let mut s: String = "\t\t\t<key>".to_owned();
    let k: String = xml_escape(key);
    s.append(k.as_str());
    s.append("</key><integer>");
    let v: String = signed_decimal(val);
    s.append(v.as_str());
    s.append("</integer>\n");
    s
}

pub open spec fn date_value_text(key: Seq<char>, val: Seq<char>) -> Seq<char> {
    "\t\t\t<key>"@ + escaped(key) + "</key><date>"@ + val + "</date>\n"@
}

/// A key with a date.
pub fn kv_date(key: &str, val: &str) -> (r: String)
    ensures
        r@ == date_value_text(key@, val@),
{
    let mut s: String = "\t\t\t<key>".to_owned();
    let k: String = xml_escape(key);
    s.append(k.as_str());
    s.append("</key><date>");
    s.append(val);
    s.append("</date>\n");
    s
}

pub open spec fn item_text(id: i64) -> Seq<char> {
    "\t\t\t\t<dict>\n\t\t\t\t\t<key>Track ID</key><integer>"@ + signed_digits(id as int)
        + "</integer>\n\t\t\t\t</dict>\n"@
}

pub open spec fn items_text(ids: Seq<i64>) -> Seq<char>
    decreases ids.len(),
{
    if ids.len() == 0 {
        "\t\t\t<key>Playlist Items</key>\n\t\t\t<array>\n"@
    } else {
        items_text(ids.drop_last()) + item_text(ids.last())
    }
}

/// The tracks of a playlist.
pub fn playlist_items_block(ids: &[i64]) -> (r: String)
    ensures
        r@ == items_text(ids@) + "\t\t\t</array>\n"@,
{
    let mut s: String = "\t\t\t<key>Playlist Items</key>\n\t\t\t<array>\n".to_owned();
    proof {
        assert(ids@.take(0) =~= Seq::empty());
    }
    for i in 0..ids.len()
        invariant
            s@ == items_text(ids@.take(i as int)),
    {
        let ghost before = s@;
        s.append("\t\t\t\t<dict>\n\t\t\t\t\t<key>Track ID</key><integer>");
        let d: String = signed_decimal(ids[i]);
        s.append(d.as_str());
        s.append("</integer>\n\t\t\t\t</dict>\n");
        proof {
            assert(ids@.take(i + 1).drop_last() =~= ids@.take(i as int));
            assert(s@ =~= before + item_text(ids@[i as int]));
        }
    }
    proof {
        take_all(ids@);
    }
    s.append("\t\t\t</array>\n");
    s
}

// ---------------------------------------------------------------------------
// Ids that stay the same
// ---------------------------------------------------------------------------

pub open spec fn track_persist(id: i64) -> Seq<char> {
    hex_digits(id as u64 as nat, 16)
}

/// The id under which other programs remember a track.
pub fn persistent_id_track(id: i64) -> (r: String)
    ensures
        r@ == track_persist(id),
{
    hex(id as u64, 16)
}

/// The same as of a track, with the highest bit set.
pub open spec fn playlist_persist(id: i64) -> Seq<char> {
    hex_digits(((1u64 << 63) | (id as u64)) as nat, 16)
}

/// The id under which other programs remember a playlist.
pub fn persistent_id_playlist(id: i64) -> (r: String)
    ensures
        r@ == playlist_persist(id),
{
    let n: u64 = (1u64 << 63) | (id as u64);
    hex(n, 16)
}

proof fn hex_is_one_to_one(a: nat, b: nat, width: nat)
    requires
        hex_digits(a, width) == hex_digits(b, width),
    ensures
        a % pow16(width) == b % pow16(width),
    decreases width,
{
    if width > 0 {
        let x = hex_digits(a / 16, (width - 1) as nat);
        let y = hex_digits(b / 16, (width - 1) as nat);
        let s = x.push(crate::text::hex_char(a % 16));
        let t = y.push(crate::text::hex_char(b % 16));
        assert(s.drop_last() =~= x);
        assert(t.drop_last() =~= y);
        assert(s.last() == t.last());
        hex_is_one_to_one(a / 16, b / 16, (width - 1) as nat);
        let p = pow16((width - 1) as nat);
        pow16_positive((width - 1) as nat);
        assert(a % 16 == b % 16);
        vstd::arithmetic::div_mod::lemma_breakdown(a as int, 16, p as int);
        vstd::arithmetic::div_mod::lemma_breakdown(b as int, 16, p as int);
        assert(16 * p == pow16(width));
    }
}

/// How many numbers have so many hexadecimal digits.
pub open spec fn pow16(width: nat) -> nat
    decreases width,
{
    if width == 0 {
        1
    } else {
        16 * pow16((width - 1) as nat)
    }
}

proof fn pow16_positive(width: nat)
    ensures
        pow16(width) > 0,
    decreases width,
{
    if width > 0 {
        pow16_positive((width - 1) as nat);
    }
}

/// No track and no playlist go by the same id, and neither do two tracks, or two
/// playlists.
pub proof fn persistent_ids_differ(a: i64, b: i64)
    requires
        a >= 0,
        b >= 0,
    ensures
        track_persist(a) != playlist_persist(b),
        track_persist(a) == track_persist(b) ==> a == b,
        playlist_persist(a) == playlist_persist(b) ==> a == b,
{
    let x = a as u64;
    let y = b as u64;
    let p = (1u64 << 63) | x;
    let q = (1u64 << 63) | y;
    assert(x < 0x8000_0000_0000_0000u64 ==> (1u64 << 63) | x == 0x8000_0000_0000_0000u64 + x)
        by (bit_vector);
    assert(y < 0x8000_0000_0000_0000u64 ==> (1u64 << 63) | y == 0x8000_0000_0000_0000u64 + y)
        by (bit_vector);
    assert(pow16(16) == 0x1_0000_0000_0000_0000) by {
        reveal_with_fuel(pow16, 17);
    }
    if track_persist(a) == playlist_persist(b) {
        hex_is_one_to_one(x as nat, q as nat, 16);
    }
    if track_persist(a) == track_persist(b) {
        hex_is_one_to_one(x as nat, y as nat, 16);
    }
    if playlist_persist(a) == playlist_persist(b) {
        hex_is_one_to_one(p as nat, q as nat, 16);
    }
}

/// The FNV-1a hash of some bytes.
pub open spec fn fnv1a(bytes: Seq<u8>) -> u64
    decreases bytes.len(),
{
    if bytes.len() == 0 {
        0xcbf29ce484222325
    } else {
        ((((fnv1a(bytes.drop_last()) ^ (bytes.last() as u64)) as nat) * 0x100000001b3)
            % 0x1_0000_0000_0000_0000) as u64
    }
}

/// A number that stands for a text.
pub fn fnv1a_hex(s: &str) -> (r: String)
    ensures
        r@ == hex_digits(fnv1a(encode_utf8(s@)) as nat, 16),
{
    let bytes: &[u8] = s.as_bytes();
    let mut h: u64 = 0xcbf29ce484222325;
    proof {
        assert(bytes@.take(0) =~= Seq::empty());
    }
    for i in 0..bytes.len()
        invariant
            h == fnv1a(bytes@.take(i as int)),
    {
        proof {
            assert(bytes@.take(i + 1).drop_last() =~= bytes@.take(i as int));
            assert(bytes@.take(i + 1).last() == bytes@[i as int]);
        }
        h = (h ^ (bytes[i] as u64)).wrapping_mul(0x100000001b3);
    }
    proof {
        take_all(bytes@);
    }
    hex(h, 16)
}

// ---------------------------------------------------------------------------
// Where files are
// ---------------------------------------------------------------------------

/// A byte that stands for itself in a location.
pub open spec fn is_unreserved(b: u8) -> bool {
    ||| (48 <= b && b <= 57)
    ||| (65 <= b && b <= 90)
    ||| (97 <= b && b <= 122)
    ||| b == 45
    ||| b == 95
    ||| b == 46
    ||| b == 33
    ||| b == 126
    ||| b == 42
    ||| b == 39
    ||| b == 40
    ||| b == 41
}

pub open spec fn percent_byte(b: u8) -> Seq<char> {
    if is_unreserved(b) {
        seq![b as char]
    } else {
        "%"@ + hex_digits(b as nat, 2)
    }
}

pub open spec fn percent_encoded(bytes: Seq<u8>) -> Seq<char>
    decreases bytes.len(),
{
    if bytes.len() == 0 {
        Seq::empty()
    } else {
        percent_encoded(bytes.drop_last()) + percent_byte(bytes.last())
    }
}

/// A part of a path, with every byte but letters, digits and a few signs as a
/// percent sign and two digits.
pub fn percent_encode_segment(seg: &str) -> (r: String)
    ensures
        r@ == percent_encoded(encode_utf8(seg@)),
{
    let bytes: &[u8] = seg.as_bytes();
    let mut out: String = String::new();
    proof {
        assert(bytes@.take(0) =~= Seq::empty());
        assert(out@ =~= percent_encoded(bytes@.take(0)));
    }
    for i in 0..bytes.len()
        invariant
            out@ == percent_encoded(bytes@.take(i as int)),
    {
        let b: u8 = bytes[i];
        let ghost before = out@;
        proof {
            assert(bytes@.take(i + 1).drop_last() =~= bytes@.take(i as int));
            assert(bytes@.take(i + 1).last() == b);
        }
        if (48 <= b && b <= 57) || (65 <= b && b <= 90) || (97 <= b && b <= 122) || b == 45 || b == 95
            || b == 46 || b == 33 || b == 126 || b == 42 || b == 39 || b == 40 || b == 41 {
            out.push(b as char);
            proof {
                assert(out@ =~= before + seq![b as char]);
            }
        } else {
            out.append("%");
            let h: String = hex(b as u64, 2);
            out.append(h.as_str());
            proof {
                assert(out@ =~= before + ("%"@ + hex_digits(b as nat, 2)));
            }
        }
    }
    proof {
        take_all(bytes@);
    }
    out
}

/// The path with slashes only.
pub open spec fn with_slashes(s: Seq<char>) -> Seq<char> {
    s.map_values(
        |c: char|
            if c == '\\' {
                '/'
            } else {
                c
            },
    )
}

/// The parts between the slashes of a path.
pub open spec fn segments(s: Seq<char>) -> Seq<Seq<char>>
    decreases s.len(),
{
    if s.len() == 0 {
        seq![Seq::empty()]
    } else {
        let earlier = segments(s.drop_last());
        if s.last() == '/' {
            earlier.push(Seq::empty())
        } else {
            earlier.update(earlier.len() - 1, earlier.last().push(s.last()))
        }
    }
}

proof fn segments_not_empty(s: Seq<char>)
    ensures
        segments(s).len() > 0,
    decreases s.len(),
{
    if s.len() > 0 {
        segments_not_empty(s.drop_last());
    }
}

fn split_path(path: &str) -> (r: Vec<String>)
    ensures
        views(r@) == segments(with_slashes(path@)),
        r@.len() > 0,
{
    let v: Vec<char> = chars_of(path);
    let n: usize = v.len();
    let ghost w = with_slashes(path@);
    let mut r: Vec<String> = Vec::new();
    let mut cur: String = String::new();
    proof {
        assert(w.take(0) =~= Seq::empty());
        assert(views(r@).push(cur@) =~= segments(w.take(0)));
    }
    for i in 0..n
        invariant
            v@ == path@,
            n == v@.len(),
            w == with_slashes(path@),
            views(r@).push(cur@) == segments(w.take(i as int)),
    {
        let c: char = v[i];
        let ghost so_far = views(r@);
        proof {
            assert(w.take(i + 1).drop_last() =~= w.take(i as int));
            assert(w.take(i + 1).last() == w[i as int]);
        }
        if c == '/' || c == '\\' {
            proof {
                views_push(r@, cur);
                assert(so_far.push(cur@).push(Seq::empty()) =~= segments(w.take(i + 1)));
            }
            r.push(cur);
            cur = String::new();
            proof {
                assert(cur@ =~= Seq::empty());
            }
        } else {
            let ghost before = cur@;
            cur.push(c);
            proof {
                let earlier = so_far.push(before);
                assert(so_far.push(before.push(c)) =~= earlier.update(
                    earlier.len() - 1,
                    earlier.last().push(c),
                ));
            }
        }
    }
    proof {
        views_push(r@, cur);
        take_all(w);
    }
    r.push(cur);
    r
}

/// The part is a drive of Windows.
pub open spec fn is_drive(seg: Seq<char>) -> bool {
    seg.len() == 2 && seg[1] == ':' && (('a' <= seg[0] && seg[0] <= 'z') || ('A' <= seg[0] && seg[0]
        <= 'Z'))
}

fn drive(seg: &str) -> (r: bool)
    ensures
        r == is_drive(seg@),
{
    let v: Vec<char> = chars_of(seg);
    v.len() == 2 && v[1] == ':' && (('a' <= v[0] && v[0] <= 'z') || ('A' <= v[0] && v[0] <= 'Z'))
}

/// The encoded parts with slashes between them. A drive stands as it is.
pub open spec fn encoded_path(segs: Seq<Seq<char>>) -> Seq<char>
    decreases segs.len(),
{
    if segs.len() == 0 {
        Seq::empty()
    } else if segs.len() == 1 {
        if is_drive(segs[0]) {
            segs[0]
        } else {
            percent_encoded(encode_utf8(segs[0]))
        }
    } else {
        encoded_path(segs.drop_last()) + "/"@ + percent_encoded(encode_utf8(segs.last()))
    }
}

/// Where a file is, as iTunes writes it.
pub open spec fn location_of(path: Seq<char>) -> Seq<char> {
    let segs = segments(with_slashes(path));
    let joined = encoded_path(segs);
    if is_drive(segs[0]) {
        "file://localhost/"@ + joined
    } else if joined.len() > 0 && joined[0] == '/' {
        "file://localhost"@ + joined
    } else {
        "file://localhost/"@ + joined
    }
}

/// Where a file is, as iTunes writes it: `file://localhost/C:/Music/a.flac`.
pub fn to_itunes_location(path: &str) -> (r: String)
    ensures
        r@ == location_of(path@),
{
    let parts: Vec<String> = split_path(path);
    let ghost v = views(parts@);
    let is_win: bool = drive(parts[0].as_str());
    let mut joined: String = if is_win {
        parts[0].clone()
    } else {
        percent_encode_segment(parts[0].as_str())
    };
    proof {
        assert(v.take(1)[0] == parts@[0]@);
    }
    for i in 1..parts.len()
        invariant
            v == views(parts@),
            parts@.len() > 0,
            i >= 1,
            joined@ == encoded_path(v.take(i as int)),
    {
        let seg: String = percent_encode_segment(parts[i].as_str());
        joined.append("/");
        joined.append(seg.as_str());
        proof {
            assert(v.take(i + 1).drop_last() =~= v.take(i as int));
            assert(v.take(i + 1).last() == parts@[i as int]@);
        }
    }
    proof {
        take_all(v);
        assert(v[0] == parts@[0]@);
    }
    let rooted: bool = joined.as_str().unicode_len() > 0 && joined.as_str().get_char(0) == '/';
    if !is_win && rooted {
        crate::text::join("file://localhost", joined.as_str())
    } else {
        crate::text::join("file://localhost/", joined.as_str())
    }
}

pub open spec fn with_trailing_sep(s: Seq<char>) -> Seq<char> {
    if s.len() > 0 && (s.last() == '\\' || s.last() == '/') {
        s
    } else {
        s + "\\"@
    }
}

/// The path of a folder with a separator at its end.
pub fn ensure_trailing_sep(s: &str) -> (r: String)
    ensures
        r@ == with_trailing_sep(s@),
{
    let n: usize = s.unicode_len();
    if n > 0 && (s.get_char(n - 1) == '\\' || s.get_char(n - 1) == '/') {
        s.to_owned()
    } else {
        crate::text::join(s, "\\")
    }
}

// ---------------------------------------------------------------------------
// Tracks
// ---------------------------------------------------------------------------

/// What the file system says of the file of a track.
#[derive(Debug)]
pub struct FileFacts {
    pub id: i64,
    pub size: Option<u64>,
    /// When it was last written, in seconds since 1970-01-01.
    pub modified_secs: Option<u64>,
    /// The extension of its name, empty where it has none.
    pub extension: String,
}

pub struct FileFactsView {
    pub id: i64,
    pub size: Option<u64>,
    pub modified_secs: Option<u64>,
    pub extension: Seq<char>,
}

impl View for FileFacts {
    type V = FileFactsView;

    open spec fn view(&self) -> FileFactsView {
        FileFactsView {
            id: self.id,
            size: self.size,
            modified_secs: self.modified_secs,
            extension: self.extension@,
        }
    }
}

pub open spec fn facts_id() -> spec_fn(FileFactsView) -> i64 {
    |f: FileFactsView| f.id
}

/// What is known of the file of a track; nothing where it cannot be asked.
pub open spec fn facts_of(files: Seq<FileFactsView>, id: i64) -> FileFactsView {
    match first_where(files, keyed(facts_id(), id)) {
        Some(i) => files[i],
        None => FileFactsView { id, size: None, modified_secs: None, extension: Seq::empty() },
    }
}

/// Every moment is one that a date can be made of.
pub open spec fn moments_fit(files: Seq<FileFactsView>) -> bool {
    forall|i: int|
        0 <= i < files.len() && (#[trigger] files[i]).modified_secs is Some
            ==> files[i].modified_secs->0 <= i64::MAX
}

/// What a file is, by its extension.
pub open spec fn kind_of(ext: Seq<char>) -> Seq<char> {
    if ext == "flac"@ {
        "FLAC audio file"@
    } else if ext == "mp3"@ {
        "MPEG audio file"@
    } else if ext == "wav"@ {
        "WAV audio file"@
    } else if ext == "m4a"@ || ext == "aac"@ {
        "AAC audio file"@
    } else if ext == "aif"@ || ext == "aiff"@ {
        "AIFF audio file"@
    } else if ext == "ogg"@ {
        "Ogg audio file"@
    } else if ext == "opus"@ {
        "Opus audio file"@
    } else {
        "Audio file"@
    }
}

fn kind(ext: &str) -> (r: &'static str)
    ensures
        r@ == kind_of(ext@),
{
    if same(ext, "flac") {
        "FLAC audio file"
    } else if same(ext, "mp3") {
        "MPEG audio file"
    } else if same(ext, "wav") {
        "WAV audio file"
    } else if same(ext, "m4a") || same(ext, "aac") {
        "AAC audio file"
    } else if same(ext, "aif") || same(ext, "aiff") {
        "AIFF audio file"
    } else if same(ext, "ogg") {
        "Ogg audio file"
    } else if same(ext, "opus") {
        "Opus audio file"
    } else {
        "Audio file"
    }
}

/// A track in the file. What is empty or unknown is left out.
pub open spec fn track_text(t: TrackView, f: FileFactsView, now: int) -> Seq<char> {
    let s = "\t\t<key>"@ + signed_digits(t.id as int) + "</key>\n\t\t<dict>\n"@;
    let s = s + integer_text("Track ID"@, t.id as int);
    let s = if f.size is Some {
        s + integer_text("Size"@, f.size->0 as i64 as int)
    } else {
        s
    };
    let s = if t.duration_ms > 0 {
        s + integer_text("Total Time"@, t.duration_ms as int)
    } else {
        s
    };
    let s = if t.bpm is Some && t.bpm->0 > 0 {
        s + integer_text("BPM"@, t.bpm->0 as int)
    } else {
        s
    };
    let date = date_text(
        parts_of(
            match f.modified_secs {
                Some(m) => m as int,
                None => now,
            },
        ),
    );
    let s = s + date_value_text("Date Modified"@, date);
    let s = s + date_value_text("Date Added"@, date);
    let s = s + string_text("Persistent ID"@, track_persist(t.id));
    let s = s + string_text("Track Type"@, "File"@);
    let s = s + string_text("Name"@, t.title);
    let s = if t.artist.len() > 0 {
        s + string_text("Artist"@, t.artist)
    } else {
        s
    };
    let s = if t.album.len() > 0 {
        s + string_text("Album"@, t.album)
    } else {
        s
    };
    let s = if t.genre.len() > 0 {
        s + string_text("Genre"@, t.genre)
    } else {
        s
    };
    let s = s + string_text("Kind"@, kind_of(lowercase(f.extension)));
    let s = s + string_text("Location"@, location_of(t.path));
    s + "\t\t</dict>\n"@
}

fn add_string(s: &mut String, key: &str, val: &str)
    ensures
        final(s)@ == old(s)@ + string_text(key@, val@),
{
    let x: String = kv_string(key, val);
    s.append(x.as_str());
}

fn add_integer(s: &mut String, key: &str, val: i64)
    ensures
        final(s)@ == old(s)@ + integer_text(key@, val as int),
{
    let x: String = kv_integer(key, val);
    s.append(x.as_str());
}

fn add_date(s: &mut String, key: &str, val: &str)
    ensures
        final(s)@ == old(s)@ + date_value_text(key@, val@),
{
    let x: String = kv_date(key, val);
    s.append(x.as_str());
}

/// A track in the file.
#[verifier::truncate]
pub fn track_dict(t: &Track, f: &FileFacts, now_secs: u64) -> (r: String)
    requires
        now_secs <= i64::MAX,
        f.modified_secs is Some ==> f.modified_secs->0 <= i64::MAX,
    ensures
        r@ == track_text(t@, f@, now_secs as int),
{
    let mut s: String = "\t\t<key>".to_owned();
    let id: String = signed_decimal(t.id);
    s.append(id.as_str());
    s.append("</key>\n\t\t<dict>\n");
    add_integer(&mut s, "Track ID", t.id);
    if let Some(size) = f.size {
        add_integer(&mut s, "Size", size as i64);
    }
    if t.duration_ms > 0 {
        add_integer(&mut s, "Total Time", t.duration_ms);
    }
    if let Some(bpm) = t.bpm {
        if bpm > 0 {
            add_integer(&mut s, "BPM", bpm);
        }
    }
    let date: String = itunes_date(
        match f.modified_secs {
            Some(m) => m,
            None => now_secs,
        },
    );
    add_date(&mut s, "Date Modified", date.as_str());
    add_date(&mut s, "Date Added", date.as_str());
    let persist: String = persistent_id_track(t.id);
    add_string(&mut s, "Persistent ID", persist.as_str());
    add_string(&mut s, "Track Type", "File");
    add_string(&mut s, "Name", t.title.as_str());
    if !t.artist.as_str().is_empty() {
        add_string(&mut s, "Artist", t.artist.as_str());
    }
    if !t.album.as_str().is_empty() {
        add_string(&mut s, "Album", t.album.as_str());
    }
    if !t.genre.as_str().is_empty() {
        add_string(&mut s, "Genre", t.genre.as_str());
    }
    let ext: String = to_lower(f.extension.as_str());
    add_string(&mut s, "Kind", kind(ext.as_str()));
    let location: String = to_itunes_location(t.path.as_str());
    add_string(&mut s, "Location", location.as_str());
    s.append("\t\t</dict>\n");
    s
}

fn facts_for(files: &[FileFacts], id: i64) -> (r: FileFacts)
    requires
        moments_fit(views(files@)),
    ensures
        r@ == facts_of(views(files@), id),
        r.modified_secs is Some ==> r.modified_secs->0 <= i64::MAX,
{
    let ghost v = views(files@);
    let ghost p = keyed(facts_id(), id);
    for i in 0..files.len()
        invariant
            v == views(files@),
            moments_fit(v),
            p == keyed(facts_id(), id),
            forall|j: int| 0 <= j < i ==> !p(#[trigger] v[j]),
    {
        if files[i].id == id {
            proof {
                crate::table::first_where_at(v, p, i as int);
                assert(v[i as int] == files@[i as int]@);
            }
            return FileFacts {
                id: files[i].id,
                size: files[i].size,
                modified_secs: files[i].modified_secs,
                extension: files[i].extension.clone(),
            };
        }
    }
    proof {
        first_where_is_first(v, p);
    }
    FileFacts { id, size: None, modified_secs: None, extension: String::new() }
}

// ---------------------------------------------------------------------------
// Playlists and folders
// ---------------------------------------------------------------------------

pub open spec fn entry_head(
    pid: i64,
    persist: Seq<char>,
    parent: Option<Seq<char>>,
) -> Seq<char> {
    let s = "\t\t<dict>\n"@ + integer_text("Playlist ID"@, pid as int);
    let s = if parent is Some {
        s + string_text("Parent Persistent ID"@, parent->0)
    } else {
        s
    };
    s + string_text("Playlist Persistent ID"@, persist) + "\t\t\t<key>All Items</key><true/>\n"@
}

fn start_entry(pid: i64, persist: &str, parent: &Option<String>) -> (s: String)
    ensures
        s@ == entry_head(pid, persist@, crate::text::opt_view(*parent)),
{
    let mut s: String = "\t\t<dict>\n".to_owned();
    add_integer(&mut s, "Playlist ID", pid);
    if let Some(p) = parent {
        add_string(&mut s, "Parent Persistent ID", p.as_str());
    }
    add_string(&mut s, "Playlist Persistent ID", persist);
    s.append("\t\t\t<key>All Items</key><true/>\n");
    s
}

pub open spec fn folder_text(
    name: Seq<char>,
    pid: i64,
    persist: Seq<char>,
    parent: Option<Seq<char>>,
    ids: Seq<i64>,
) -> Seq<char> {
    entry_head(pid, persist, parent) + "\t\t\t<key>Folder</key><true/>\n"@ + string_text(
        "Name"@,
        name,
    ) + (items_text(ids) + "\t\t\t</array>\n"@) + "\t\t</dict>\n"@
}

/// A folder in the file.
pub fn folder_entry(
    name: &str,
    pid: i64,
    persist: &str,
    parent: &Option<String>,
    track_ids: &[i64],
) -> (s: String)
    ensures
        s@ == folder_text(name@, pid, persist@, crate::text::opt_view(*parent), track_ids@),
{
    let mut s: String = start_entry(pid, persist, parent);
    s.append("\t\t\t<key>Folder</key><true/>\n");
    add_string(&mut s, "Name", name);
    let items: String = playlist_items_block(track_ids);
    s.append(items.as_str());
    s.append("\t\t</dict>\n");
    s
}

pub open spec fn playlist_text(
    name: Seq<char>,
    pid: i64,
    persist: Seq<char>,
    parent: Option<Seq<char>>,
    ids: Seq<i64>,
) -> Seq<char> {
    entry_head(pid, persist, parent) + string_text("Name"@, name) + (items_text(ids)
        + "\t\t\t</array>\n"@) + "\t\t</dict>\n"@
}

/// A playlist in the file.
pub fn playlist_entry(
    name: &str,
    pid: i64,
    persist: &str,
    parent: &Option<String>,
    track_ids: &[i64],
) -> (s: String)
    ensures
        s@ == playlist_text(name@, pid, persist@, crate::text::opt_view(*parent), track_ids@),
{
    let mut s: String = start_entry(pid, persist, parent);
    add_string(&mut s, "Name", name);
    let items: String = playlist_items_block(track_ids);
    s.append(items.as_str());
    s.append("\t\t</dict>\n");
    s
}

/// The playlist of everything. It takes the id that no real playlist has.
pub open spec fn master_text(ids: Seq<i64>) -> Seq<char> {
    "\t\t<dict>\n"@ + "\t\t\t<key>Master</key><true/>\n"@ + integer_text("Playlist ID"@, 1000)
        + string_text("Playlist Persistent ID"@, playlist_persist(0))
        + "\t\t\t<key>All Items</key><true/>\n"@ + "\t\t\t<key>Visible</key><false/>\n"@
        + string_text("Name"@, "Library"@) + (items_text(ids) + "\t\t\t</array>\n"@)
        + "\t\t</dict>\n"@
}

pub open spec fn track_ids(tracks: Seq<TrackView>) -> Seq<i64> {
    tracks.map_values(|t: TrackView| t.id)
}

/// The playlist of everything.
pub fn master_playlist(tracks: &[Track]) -> (s: String)
    ensures
        s@ == master_text(track_ids(views(tracks@))),
{
    let mut s: String = "\t\t<dict>\n".to_owned();
    s.append("\t\t\t<key>Master</key><true/>\n");
    add_integer(&mut s, "Playlist ID", 1000);
    let persist: String = persistent_id_playlist(0);
    add_string(&mut s, "Playlist Persistent ID", persist.as_str());
    s.append("\t\t\t<key>All Items</key><true/>\n");
    s.append("\t\t\t<key>Visible</key><false/>\n");
    add_string(&mut s, "Name", "Library");
    let mut ids: Vec<i64> = Vec::new();
    let ghost goal = track_ids(views(tracks@));
    for i in 0..tracks.len()
        invariant
            goal == track_ids(views(tracks@)),
            ids@ == goal.take(i as int),
    {
        ids.push(tracks[i].id);
        proof {
            assert(goal.take(i + 1) =~= goal.take(i as int).push(tracks@[i as int].id));
        }
    }
    proof {
        take_all(goal);
    }
    let items: String = playlist_items_block(ids.as_slice());
    s.append(items.as_str());
    s.append("\t\t</dict>\n");
    s
}

pub open spec fn node_parent(parent: Option<i64>) -> spec_fn(PlaylistNodeView) -> bool {
    |n: PlaylistNodeView| n.parent_id == parent
}

/// The nodes directly inside `parent`, in order.
pub open spec fn children(nodes: Seq<PlaylistNodeView>, parent: Option<i64>) -> Seq<PlaylistNodeView> {
    nodes.filter(node_parent(parent))
}

fn children_of(nodes: &Vec<PlaylistNode>, parent: Option<i64>) -> (r: Vec<PlaylistNode>)
    ensures
        views(r@) == children(views(nodes@), parent),
{
    let mut r: Vec<PlaylistNode> = Vec::new();
    let ghost all = views(nodes@);
    let ghost p = node_parent(parent);
    proof {
        take_none_filter(all, p);
        assert(views(r@) =~= all.take(0).filter(p));
    }
    for i in 0..nodes.len()
        invariant
            all == views(nodes@),
            p == node_parent(parent),
            views(r@) == all.take(i as int).filter(p),
    {
        proof {
            filter_step(all, p, i as int);
            assert(all[i as int] == nodes@[i as int]@);
        }
        if same_id(nodes[i].parent_id, parent) {
            let n: PlaylistNode = nodes[i].clone();
            proof {
                views_push(r@, n);
            }
            r.push(n);
        }
    }
    proof {
        take_all(all);
    }
    r
}

/// The tracks of a playlist, by id, in its order.
pub open spec fn item_ids(l: LibraryView, playlist: i64) -> Seq<i64> {
    ids_of(places(l.playlist_tracks, playlist))
}

fn items_of(lib: &Library, playlist: i64) -> (r: Vec<i64>)
    ensures
        r@ == item_ids(lib@, playlist),
{
    let rows: Vec<PlaylistTrackRow> = places_of(lib, playlist);
    let ghost goal = item_ids(lib@, playlist);
    let mut r: Vec<i64> = Vec::new();
    for i in 0..rows.len()
        invariant
            goal == ids_of(views(rows@)),
            r@ == goal.take(i as int),
    {
        r.push(rows[i].track_id);
        proof {
            assert(goal.take(i + 1) =~= goal.take(i as int).push(rows@[i as int].track_id));
        }
    }
    proof {
        take_all(goal);
    }
    r
}

/// The first of each of some ids.
pub open spec fn firsts(ids: Seq<i64>) -> Seq<i64>
    decreases ids.len(),
{
    if ids.len() == 0 {
        ids
    } else {
        let earlier = firsts(ids.drop_last());
        if earlier.contains(ids.last()) {
            earlier
        } else {
            earlier.push(ids.last())
        }
    }
}

fn dedup(ids: &Vec<i64>) -> (r: Vec<i64>)
    ensures
        r@ == firsts(ids@),
{
    let mut r: Vec<i64> = Vec::new();
    proof {
        assert(r@ =~= firsts(ids@.take(0)));
    }
    for i in 0..ids.len()
        invariant
            r@ == firsts(ids@.take(i as int)),
    {
        proof {
            assert(ids@.take(i + 1).drop_last() =~= ids@.take(i as int));
        }
        if !crate::tree::has_id(r.as_slice(), ids[i]) {
            r.push(ids[i]);
        }
    }
    proof {
        take_all(ids@);
    }
    r
}

proof fn firsts_keep_all(ids: Seq<i64>, x: i64)
    ensures
        firsts(ids).contains(x) <==> ids.contains(x),
    decreases ids.len(),
{
    if ids.len() > 0 {
        let t = ids.drop_last();
        firsts_keep_all(t, x);
        firsts_keep_all(t, ids.last());
        if ids.contains(x) {
            let k = choose|k: int| 0 <= k < ids.len() && ids[k] == x;
            if k < t.len() {
                assert(t[k] == x);
                let j = choose|j: int| 0 <= j < firsts(t).len() && firsts(t)[j] == x;
                assert(firsts(ids)[j] == x);
            } else if !firsts(t).contains(ids.last()) {
                assert(firsts(ids)[firsts(t).len() as int] == x);
            }
        }
        if firsts(ids).contains(x) && !firsts(t).contains(x) {
            assert(x == ids.last());
            assert(ids[ids.len() - 1] == x);
        } else if firsts(t).contains(x) {
            let k = choose|k: int| 0 <= k < t.len() && t[k] == x;
            assert(ids[k] == x);
        }
    }
}

/// The tracks of everything that hangs from a folder, each once: first its own,
/// then those of what is inside it. The tree is followed down `depth` levels; one
/// of so many nodes has no more levels than that.
pub open spec fn tracks_below(
    l: LibraryView,
    nodes: Seq<PlaylistNodeView>,
    id: i64,
    depth: nat,
) -> Seq<i64>
    decreases depth, 0nat,
{
    if depth == 0 {
        Seq::empty()
    } else {
        firsts(
            item_ids(l, id) + tracks_of_kids(
                l,
                nodes,
                children(nodes, Some(id)),
                (depth - 1) as nat,
            ),
        )
    }
}

pub open spec fn tracks_of_kids(
    l: LibraryView,
    nodes: Seq<PlaylistNodeView>,
    kids: Seq<PlaylistNodeView>,
    depth: nat,
) -> Seq<i64>
    decreases depth, kids.len() + 1,
{
    if kids.len() == 0 {
        Seq::empty()
    } else {
        let kid = kids.last();
        tracks_of_kids(l, nodes, kids.drop_last(), depth) + if kid.kind == "folder"@ {
            tracks_below(l, nodes, kid.id, depth)
        } else {
            item_ids(l, kid.id)
        }
    }
}

fn push_ids(out: &mut Vec<i64>, ids: &Vec<i64>)
    ensures
        final(out)@ == old(out)@ + ids@,
{
    let ghost start = out@;
    for i in 0..ids.len()
        invariant
            out@ == start + ids@.take(i as int),
    {
        out.push(ids[i]);
        proof {
            assert(out@ =~= start + ids@.take(i + 1));
        }
    }
    proof {
        take_all(ids@);
    }
}

/// The tracks of everything that hangs from a folder, each once.
fn descendant_track_ids(lib: &Library, nodes: &Vec<PlaylistNode>, id: i64, depth: usize) -> (r: Vec<
    i64,
>)
    ensures
        r@ == tracks_below(lib@, views(nodes@), id, depth as nat),
    decreases depth, 0nat,
{
    if depth == 0 {
        let r: Vec<i64> = Vec::new();
        proof {
            assert(r@ =~= Seq::empty());
        }
        return r;
    }
    let mut ids: Vec<i64> = items_of(lib, id);
    let kids: Vec<PlaylistNode> = children_of(nodes, Some(id));
    let below: Vec<i64> = track_ids_of_kids(lib, nodes, &kids, kids.len(), depth - 1);
    proof {
        take_all(views(kids@));
    }
    push_ids(&mut ids, &below);
    dedup(&ids)
}

fn track_ids_of_kids(
    lib: &Library,
    nodes: &Vec<PlaylistNode>,
    kids: &Vec<PlaylistNode>,
    n: usize,
    depth: usize,
) -> (r: Vec<i64>)
    requires
        n <= kids@.len(),
    ensures
        r@ == tracks_of_kids(lib@, views(nodes@), views(kids@).take(n as int), depth as nat),
    decreases depth, n + 1,
{
    if n == 0 {
        let r: Vec<i64> = Vec::new();
        proof {
            assert(r@ =~= Seq::empty());
        }
        return r;
    }
    let mut r: Vec<i64> = track_ids_of_kids(lib, nodes, kids, n - 1, depth);
    let kid: &PlaylistNode = &kids[n - 1];
    proof {
        let v = views(kids@);
        assert(v.take(n as int).drop_last() =~= v.take(n - 1));
        assert(v.take(n as int).last() == kid@);
    }
    let more: Vec<i64> = if same(kid.kind.as_str(), "folder") {
        descendant_track_ids(lib, nodes, kid.id, depth)
    } else {
        items_of(lib, kid.id)
    };
    push_ids(&mut r, &more);
    r
}

/// A folder lists the tracks of every playlist and folder inside it, and its own.
pub proof fn a_folder_lists_what_is_inside(
    l: LibraryView,
    nodes: Seq<PlaylistNodeView>,
    id: i64,
    depth: nat,
    i: int,
    track: i64,
)
    requires
        depth > 0,
        0 <= i < children(nodes, Some(id)).len(),
    ensures
        item_ids(l, id).contains(track) ==> tracks_below(l, nodes, id, depth).contains(track),
        ({
            let kid = children(nodes, Some(id))[i];
            (if kid.kind == "folder"@ {
                tracks_below(l, nodes, kid.id, (depth - 1) as nat)
            } else {
                item_ids(l, kid.id)
            }).contains(track) ==> tracks_below(l, nodes, id, depth).contains(track)
        }),
{
    let kids = children(nodes, Some(id));
    let own = item_ids(l, id);
    let below = tracks_of_kids(l, nodes, kids, (depth - 1) as nat);
    firsts_keep_all(own + below, track);
    if own.contains(track) {
        let k = choose|k: int| 0 <= k < own.len() && own[k] == track;
        assert((own + below)[k] == track);
    }
    if (if kids[i].kind == "folder"@ {
        tracks_below(l, nodes, kids[i].id, (depth - 1) as nat)
    } else {
        item_ids(l, kids[i].id)
    }).contains(track) {
        kid_is_listed(l, nodes, kids, (depth - 1) as nat, i, track);
    }
    if below.contains(track) {
        let k = choose|k: int| 0 <= k < below.len() && below[k] == track;
        assert((own + below)[own.len() + k] == track);
    }
}

proof fn kid_is_listed(
    l: LibraryView,
    nodes: Seq<PlaylistNodeView>,
    kids: Seq<PlaylistNodeView>,
    depth: nat,
    i: int,
    track: i64,
)
    requires
        0 <= i < kids.len(),
        (if kids[i].kind == "folder"@ {
            tracks_below(l, nodes, kids[i].id, depth)
        } else {
            item_ids(l, kids[i].id)
        }).contains(track),
    ensures
        tracks_of_kids(l, nodes, kids, depth).contains(track),
    decreases kids.len(),
{
    let kid = kids.last();
    let head = tracks_of_kids(l, nodes, kids.drop_last(), depth);
    let tail = if kid.kind == "folder"@ {
        tracks_below(l, nodes, kid.id, depth)
    } else {
        item_ids(l, kid.id)
    };
    if i < kids.len() - 1 {
        assert(kids.drop_last()[i] == kids[i]);
        kid_is_listed(l, nodes, kids.drop_last(), depth, i, track);
        let k = choose|k: int| 0 <= k < head.len() && head[k] == track;
        assert((head + tail)[k] == track);
    } else {
        let k = choose|k: int| 0 <= k < tail.len() && tail[k] == track;
        assert((head + tail)[head.len() + k] == track);
    }
}

/// The number after a playlist's number in the file.
pub open spec fn next_pid(pid: i64) -> i64 {
    vstd::wrapping::i64_specs::wrapping_add(pid, 1)
}

/// A node and what hangs from it, as they stand in the file, and the next number.
pub open spec fn node_text(
    l: LibraryView,
    nodes: Seq<PlaylistNodeView>,
    node: PlaylistNodeView,
    parent: Option<Seq<char>>,
    pid: i64,
    depth: nat,
) -> (Seq<char>, i64)
    decreases depth, 0nat,
{
    let persist = playlist_persist(node.id);
    if node.kind == "folder"@ {
        let block = folder_text(
            node.name,
            pid,
            persist,
            parent,
            tracks_below(l, nodes, node.id, depth),
        );
        if depth == 0 {
            (block, next_pid(pid))
        } else {
            let (inside, next) = nodes_text(
                l,
                nodes,
                children(nodes, Some(node.id)),
                Some(persist),
                next_pid(pid),
                (depth - 1) as nat,
            );
            (block + inside, next)
        }
    } else {
        (
            playlist_text(node.name, pid, persist, parent, item_ids(l, node.id)),
            next_pid(pid),
        )
    }
}

/// Some nodes and what hangs from them, one after another.
pub open spec fn nodes_text(
    l: LibraryView,
    nodes: Seq<PlaylistNodeView>,
    kids: Seq<PlaylistNodeView>,
    parent: Option<Seq<char>>,
    pid: i64,
    depth: nat,
) -> (Seq<char>, i64)
    decreases depth, kids.len() + 1,
{
    if kids.len() == 0 {
        (Seq::empty(), pid)
    } else {
        let (head, p) = nodes_text(l, nodes, kids.drop_last(), parent, pid, depth);
        let (tail, q) = node_text(l, nodes, kids.last(), parent, p, depth);
        (head + tail, q)
    }
}

/// Writes a node and what hangs from it; the next number.
fn emit_node(
    lib: &Library,
    nodes: &Vec<PlaylistNode>,
    node: &PlaylistNode,
    parent: &Option<String>,
    pid: i64,
    depth: usize,
) -> (r: (String, i64))
    ensures
        (r.0@, r.1) == node_text(
            lib@,
            views(nodes@),
            node@,
            crate::text::opt_view(*parent),
            pid,
            depth as nat,
        ),
    decreases depth, 0nat,
{
    let persist: String = persistent_id_playlist(node.id);
    if same(node.kind.as_str(), "folder") {
        let ids: Vec<i64> = descendant_track_ids(lib, nodes, node.id, depth);
        let mut block: String = folder_entry(
            node.name.as_str(),
            pid,
            persist.as_str(),
            parent,
            ids.as_slice(),
        );
        if depth == 0 {
            return (block, pid.wrapping_add(1));
        }
        let kids: Vec<PlaylistNode> = children_of(nodes, Some(node.id));
        let (inside, next): (String, i64) = emit_nodes(
            lib,
            nodes,
            &kids,
            kids.len(),
            &Some(persist),
            pid.wrapping_add(1),
            depth - 1,
        );
        proof {
            take_all(views(kids@));
        }
        block.append(inside.as_str());
        (block, next)
    } else {
        let ids: Vec<i64> = items_of(lib, node.id);
        (
            playlist_entry(node.name.as_str(), pid, persist.as_str(), parent, ids.as_slice()),
            pid.wrapping_add(1),
        )
    }
}

fn emit_nodes(
    lib: &Library,
    nodes: &Vec<PlaylistNode>,
    kids: &Vec<PlaylistNode>,
    n: usize,
    parent: &Option<String>,
    pid: i64,
    depth: usize,
) -> (r: (String, i64))
    requires
        n <= kids@.len(),
    ensures
        (r.0@, r.1) == nodes_text(
            lib@,
            views(nodes@),
            views(kids@).take(n as int),
            crate::text::opt_view(*parent),
            pid,
            depth as nat,
        ),
    decreases depth, n + 1,
{
    if n == 0 {
        let r: String = String::new();
        proof {
            assert(r@ =~= Seq::empty());
        }
        return (r, pid);
    }
    let (mut text, p): (String, i64) = emit_nodes(lib, nodes, kids, n - 1, parent, pid, depth);
    proof {
        let v = views(kids@);
        assert(v.take(n as int).drop_last() =~= v.take(n - 1));
        assert(v.take(n as int).last() == kids@[n - 1]@);
    }
    let (tail, q): (String, i64) = emit_node(lib, nodes, &kids[n - 1], parent, p, depth);
    text.append(tail.as_str());
    (text, q)
}

// ---------------------------------------------------------------------------
// The whole file
// ---------------------------------------------------------------------------

pub open spec fn tracks_text(
    tracks: Seq<TrackView>,
    files: Seq<FileFactsView>,
    now: int,
) -> Seq<char>
    decreases tracks.len(),
{
    if tracks.len() == 0 {
        Seq::empty()
    } else {
        tracks_text(tracks.drop_last(), files, now) + track_text(
            tracks.last(),
            facts_of(files, tracks.last().id),
            now,
        )
    }
}

fn track_dicts(tracks: &[Track], files: &[FileFacts], now_secs: u64) -> (r: String)
    requires
        now_secs <= i64::MAX,
        moments_fit(views(files@)),
    ensures
        r@ == tracks_text(views(tracks@), views(files@), now_secs as int),
{
    let mut dicts: String = String::new();
    let ghost v = views(tracks@);
    proof {
        assert(v.take(0) =~= Seq::empty());
        assert(dicts@ =~= tracks_text(v.take(0), views(files@), now_secs as int));
    }
    for i in 0..tracks.len()
        invariant
            now_secs <= i64::MAX,
            moments_fit(views(files@)),
            v == views(tracks@),
            dicts@ == tracks_text(v.take(i as int), views(files@), now_secs as int),
    {
        let f: FileFacts = facts_for(files, tracks[i].id);
        let d: String = track_dict(&tracks[i], &f, now_secs);
        dicts.append(d.as_str());
        proof {
            assert(v.take(i + 1).drop_last() =~= v.take(i as int));
            assert(v.take(i + 1).last() == tracks@[i as int]@);
        }
    }
    proof {
        take_all(v);
    }
    dicts
}

/// The file up to the tracks. It says that this program wrote it.
pub open spec fn head_text(music_dir: Seq<char>, now: int) -> Seq<char> {
    "<?xml version=\"1.0\" encoding=\"UTF-8\"?>\n"@
        + "<!DOCTYPE plist PUBLIC \"-//Apple Computer//DTD PLIST 1.0//EN\" \"http://www.apple.com/DTDs/PropertyList-1.0.dtd\">\n"@
        + "<plist version=\"1.0\">\n<dict>\n"@ + "\t<key>Major Version</key><integer>1</integer>\n"@
        + "\t<key>Minor Version</key><integer>1</integer>\n"@
        + "\t<key>Application Version</key><string>12.13.10.3</string>\n"@
        + "\t<key>Date</key><date>"@ + date_text(parts_of(now)) + "</date>\n"@
        + "\t<key>Features</key><integer>5</integer>\n"@
        + "\t<key>Show Content Ratings</key><true/>\n"@
        + "\t<key>Library Persistent ID</key><string>"@ + hex_digits(
        fnv1a(encode_utf8(music_dir)) as nat,
        16,
    ) + "</string>\n"@ + "\t<key>Sway Generator</key><true/>\n"@
}

pub(crate) proof fn head_ends_with_the_mark(music_dir: Seq<char>, now: int)
    ensures
        head_text(music_dir, now).len() >= "\t<key>Sway Generator</key><true/>\n"@.len(),
        head_text(music_dir, now).subrange(
            head_text(music_dir, now).len() - "\t<key>Sway Generator</key><true/>\n"@.len(),
            head_text(music_dir, now).len() as int,
        ) == "\t<key>Sway Generator</key><true/>\n"@,
{
    let head = head_text(music_dir, now);
    let line = "\t<key>Sway Generator</key><true/>\n"@;
    assert(head.subrange(head.len() - line.len(), head.len() as int) =~= line);
}

fn head(music_dir: &str, now_secs: u64) -> (xml: String)
    requires
        now_secs <= i64::MAX,
    ensures
        xml@ == head_text(music_dir@, now_secs as int),
{
    let mut xml: String = "<?xml version=\"1.0\" encoding=\"UTF-8\"?>\n".to_owned();
    xml.append("<!DOCTYPE plist PUBLIC \"-//Apple Computer//DTD PLIST 1.0//EN\" \"http://www.apple.com/DTDs/PropertyList-1.0.dtd\">\n");
    xml.append("<plist version=\"1.0\">\n<dict>\n");
    xml.append("\t<key>Major Version</key><integer>1</integer>\n");
    xml.append("\t<key>Minor Version</key><integer>1</integer>\n");
    xml.append("\t<key>Application Version</key><string>12.13.10.3</string>\n");
    xml.append("\t<key>Date</key><date>");
    let date: String = itunes_date(now_secs);
    xml.append(date.as_str());
    xml.append("</date>\n");
    xml.append("\t<key>Features</key><integer>5</integer>\n");
    xml.append("\t<key>Show Content Ratings</key><true/>\n");
    xml.append("\t<key>Library Persistent ID</key><string>");
    let id: String = fnv1a_hex(music_dir);
    xml.append(id.as_str());
    xml.append("</string>\n");
    xml.append("\t<key>Sway Generator</key><true/>\n");
    xml
}

/// The whole file: every track, the playlist of everything, the tree of folders
/// and playlists, and the folder of the music last.
pub open spec fn library_text(
    l: LibraryView,
    music_dir: Seq<char>,
    files: Seq<FileFactsView>,
    now: int,
) -> Seq<char> {
    let tracks = all_tracks(l);
    let nodes = tree_of(l);
    head_text(music_dir, now) + "\t<key>Tracks</key>\n\t<dict>\n"@ + tracks_text(tracks, files, now)
        + "\t</dict>\n"@ + "\t<key>Playlists</key>\n\t<array>\n"@ + master_text(track_ids(tracks))
        + nodes_text(l, nodes, children(nodes, None), None, 1001, nodes.len()).0 + "\t</array>\n"@
        + "\t<key>Music Folder</key><string>"@ + escaped(
        location_of(with_trailing_sep(music_dir)),
    ) + "</string>\n"@ + "</dict>\n</plist>\n"@
}

pub(crate) proof fn text_begins_with_its_head(
    l: LibraryView,
    music_dir: Seq<char>,
    files: Seq<FileFactsView>,
    now: int,
)
    ensures
        library_text(l, music_dir, files, now).len() >= head_text(music_dir, now).len(),
        forall|k: int|
            0 <= k < head_text(music_dir, now).len() ==> #[trigger] library_text(
                l,
                music_dir,
                files,
                now,
            )[k] == head_text(music_dir, now)[k],
{
}

/// A text holds another.
pub open spec fn holds(text: Seq<char>, part: Seq<char>) -> bool {
    exists|a: Seq<char>, b: Seq<char>| text == #[trigger] around(a, part, b)
}

pub open spec fn around(a: Seq<char>, part: Seq<char>, b: Seq<char>) -> Seq<char> {
    a + part + b
}

pub(crate) proof fn text_holds_its_playlists(
    l: LibraryView,
    music_dir: Seq<char>,
    files: Seq<FileFactsView>,
    now: int,
)
    ensures
        ({
            let nodes = tree_of(l);
            let blocks = nodes_text(l, nodes, children(nodes, None), None, 1001, nodes.len()).0;
            holds(library_text(l, music_dir, files, now), blocks)
        }),
{
    let tracks = all_tracks(l);
    let nodes = tree_of(l);
    let blocks = nodes_text(l, nodes, children(nodes, None), None, 1001, nodes.len()).0;
    let a = head_text(music_dir, now) + "\t<key>Tracks</key>\n\t<dict>\n"@ + tracks_text(
        tracks,
        files,
        now,
    ) + "\t</dict>\n"@ + "\t<key>Playlists</key>\n\t<array>\n"@ + master_text(track_ids(tracks));
    let folder = escaped(location_of(with_trailing_sep(music_dir)));
    let b = "\t</array>\n"@ + "\t<key>Music Folder</key><string>"@ + folder + "</string>\n"@
        + "</dict>\n</plist>\n"@;
    what_follows_in_one(
        a + blocks,
        "\t</array>\n"@,
        "\t<key>Music Folder</key><string>"@,
        folder,
        "</string>\n"@,
        "</dict>\n</plist>\n"@,
    );
    assert(library_text(l, music_dir, files, now) == around(a, blocks, b));
}

proof fn what_follows_in_one(
    x: Seq<char>,
    p: Seq<char>,
    q: Seq<char>,
    r: Seq<char>,
    s: Seq<char>,
    t: Seq<char>,
)
    ensures
        x + p + q + r + s + t == x + (p + q + r + s + t),
{
    assert(x + p + q =~= x + (p + q));
    assert(x + (p + q) + r =~= x + (p + q + r));
    assert(x + (p + q + r) + s =~= x + (p + q + r + s));
    assert(x + (p + q + r + s) + t =~= x + (p + q + r + s + t));
}

/// The library as an iTunes library file, written at a given moment. `files` says
/// what the file system knows of the tracks' files.
pub fn generate_xml(lib: &Library, music_dir: &str, files: &[FileFacts], now_secs: u64) -> (r:
    String)
    requires
        now_secs <= i64::MAX,
        moments_fit(views(files@)),
        lib@.playlists.len() <= i64::MAX,
        lib@.playlist_tracks.len() <= i64::MAX,
    ensures
        r@ == library_text(lib@, music_dir@, views(files@), now_secs as int),
{
    let tracks: Vec<Track> = list_tracks(lib);
    let nodes: Vec<PlaylistNode> = list_playlists(lib);
    let roots: Vec<PlaylistNode> = children_of(&nodes, None);
    let (blocks, _next): (String, i64) = emit_nodes(
        lib,
        &nodes,
        &roots,
        roots.len(),
        &None,
        1001,
        nodes.len(),
    );
    proof {
        take_all(views(roots@));
    }
    let mut xml: String = head(music_dir, now_secs);
    xml.append("\t<key>Tracks</key>\n\t<dict>\n");
    let dicts: String = track_dicts(tracks.as_slice(), files, now_secs);
    xml.append(dicts.as_str());
    xml.append("\t</dict>\n");
    xml.append("\t<key>Playlists</key>\n\t<array>\n");
    let master: String = master_playlist(tracks.as_slice());
    xml.append(master.as_str());
    xml.append(blocks.as_str());
    xml.append("\t</array>\n");
    xml.append("\t<key>Music Folder</key><string>");
    let dir: String = ensure_trailing_sep(music_dir);
    let location: String = to_itunes_location(dir.as_str());
    let folder: String = xml_escape(location.as_str());
    xml.append(folder.as_str());
    xml.append("</string>\n");
    xml.append("</dict>\n</plist>\n");
    xml
}

} // verus!
