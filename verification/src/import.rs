//! Bringing files into the library: which ones, under which name, and with what
//! their tags say.

use crate::library::{
    distinct_push, distinct_some_push, track_id, track_path_key, track_uid_key, Library,
    LibraryView, TrackRow, TrackRowView,
};
use crate::merge::{members_keep_tracks, tracks_same_keys_wf};
use crate::seqs::{take_all, views, views_push, views_update};
use crate::table::{find, first_where, first_where_is_first, keyed, row_with};
use crate::text::{
    copy_opt, decimal, decimals_are_read_back, digits, is_decimal, join, lowercase, opt_view,
    parse_i64, parsed_int, same, signed_decimals_are_read_back, signed_digits, to_lower,
};
use vstd::prelude::*;

verus! {

broadcast use vstd::string::group_string_axioms;

// ---------------------------------------------------------------------------
// Which files
// ---------------------------------------------------------------------------

/// An extension, in lower case, of a format that the library takes.
pub open spec fn is_audio_extension(ext: Seq<char>) -> bool {
    ext == "mp3"@ || ext == "flac"@ || ext == "wav"@ || ext == "m4a"@ || ext == "aac"@ || ext
        == "aif"@ || ext == "aiff"@ || ext == "ogg"@ || ext == "opus"@
}

/// Whether a file with that extension, if it has one, is audio.
pub fn is_audio(extension: Option<&str>) -> (r: bool)
    ensures
        r == match extension {
            Some(e) => is_audio_extension(lowercase(e@)),
            None => false,
        },
{
    match extension {
        Some(e) => {
            let low: String = to_lower(e);
            let l: &str = low.as_str();
            same(l, "mp3") || same(l, "flac") || same(l, "wav") || same(l, "m4a") || same(l, "aac")
                || same(l, "aif") || same(l, "aiff") || same(l, "ogg") || same(l, "opus")
        },
        None => false,
    }
}

// ---------------------------------------------------------------------------
// Under which name
// ---------------------------------------------------------------------------

/// Something in a folder: its name, and its size where that is known.
#[derive(Debug)]
pub struct FolderEntry {
    pub name: String,
    pub size: Option<u64>,
}

pub struct FolderEntryView {
    pub name: Seq<char>,
    pub size: Option<u64>,
}

impl View for FolderEntry {
    type V = FolderEntryView;

    open spec fn view(&self) -> FolderEntryView {
        FolderEntryView { name: self.name@, size: self.size }
    }
}

pub open spec fn entry_name() -> spec_fn(FolderEntryView) -> Seq<char> {
    |e: FolderEntryView| e.name
}

/// Something in the folder has that name.
pub open spec fn name_taken(entries: Seq<FolderEntryView>, name: Seq<char>) -> bool {
    exists|i: int| 0 <= i < entries.len() && (#[trigger] entries[i]).name == name
}

pub(crate) fn taken(entries: &[FolderEntry], name: &str) -> (r: Option<usize>)
    ensures
        match r {
            Some(i) => i < entries@.len() && name_taken(views(entries@), name@) && first_where(
                views(entries@),
                keyed(entry_name(), name@),
            ) == Some(i as int),
            None => !name_taken(views(entries@), name@),
        },
{
    let ghost v = views(entries@);
    let ghost p = keyed(entry_name(), name@);
    for i in 0..entries.len()
        invariant
            v == views(entries@),
            p == keyed(entry_name(), name@),
            forall|j: int| 0 <= j < i ==> (#[trigger] v[j]).name != name@,
    {
        if same(entries[i].name.as_str(), name) {
            proof {
                assert(v[i as int].name == name@);
                crate::table::first_where_at(v, p, i as int);
            }
            return Some(i);
        }
    }
    None
}

/// The name with a number behind it: `stem (n).ext`, or `stem (n)`.
pub open spec fn numbered(stem: Seq<char>, ext: Seq<char>, n: nat) -> Seq<char> {
    let base = stem + " ("@ + digits(n) + ")"@;
    if ext.len() == 0 {
        base
    } else {
        base + "."@ + ext
    }
}

proof fn numbers_make_names_differ(stem: Seq<char>, ext: Seq<char>, a: nat, b: nat)
    requires
        numbered(stem, ext, a) == numbered(stem, ext, b),
    ensures
        a == b,
{
    let head = stem + " ("@;
    let tail = if ext.len() == 0 {
        ")"@
    } else {
        ")"@ + "."@ + ext
    };
    let x = numbered(stem, ext, a);
    let y = numbered(stem, ext, b);
    assert(x =~= head + digits(a) + tail);
    assert(y =~= head + digits(b) + tail);
    assert(digits(a).len() == digits(b).len());
    assert(x.subrange(head.len() as int, (head.len() + digits(a).len()) as int) =~= digits(a));
    assert(y.subrange(head.len() as int, (head.len() + digits(b).len()) as int) =~= digits(b));
    decimals_are_read_back(a);
    decimals_are_read_back(b);
}

/// The numbers from 2 on cannot all be taken in a folder.
proof fn some_number_is_free(
    entries: Seq<FolderEntryView>,
    stem: Seq<char>,
    ext: Seq<char>,
    end: nat,
)
    requires
        end > entries.len() + 2,
    ensures
        exists|n: nat| 2 <= n < end && !name_taken(entries, #[trigger] numbered(stem, ext, n)),
{
    let names = entries.map_values(|e: FolderEntryView| e.name);
    let wanted = Seq::new((end - 2) as nat, |i: int| numbered(stem, ext, (i + 2) as nat));
    assert(wanted.no_duplicates()) by {
        assert forall|i: int, j: int|
            0 <= i < wanted.len() && 0 <= j < wanted.len() && i != j implies wanted[i]
            != wanted[j] by {
            if wanted[i] == wanted[j] {
                numbers_make_names_differ(stem, ext, (i + 2) as nat, (j + 2) as nat);
            }
        }
    }
    wanted.unique_seq_to_set();
    names.lemma_cardinality_of_set();
    vstd::seq_lib::seq_to_set_is_finite(names);
    if forall|n: nat| 2 <= n < end ==> name_taken(entries, #[trigger] numbered(stem, ext, n)) {
        assert forall|s: Seq<char>| wanted.to_set().contains(s) implies names.to_set().contains(
            s,
        ) by {
            let i = choose|i: int| 0 <= i < wanted.len() && wanted[i] == s;
            assert(name_taken(entries, numbered(stem, ext, (i + 2) as nat)));
            let k = choose|k: int| 0 <= k < entries.len() && (#[trigger] entries[k]).name == s;
            assert(names[k] == s);
        }
        vstd::set_lib::lemma_len_subset(wanted.to_set(), names.to_set());
    }
}

/// The first number from 2 on that is free.
pub open spec fn is_first_free(
    entries: Seq<FolderEntryView>,
    stem: Seq<char>,
    ext: Seq<char>,
    n: nat,
) -> bool {
    &&& n >= 2
    &&& !name_taken(entries, numbered(stem, ext, n))
    &&& forall|k: nat| 2 <= k < n ==> name_taken(entries, #[trigger] numbered(stem, ext, k))
}

fn numbered_name(stem: &str, ext: &str, n: u64) -> (r: String)
    ensures
        r@ == numbered(stem@, ext@, n as nat),
{
    let mut r: String = join(stem, " (");
    let d: String = decimal(n);
    r.append(d.as_str());
    r.append(")");
    if !ext.is_empty() {
        r.append(".");
        r.append(ext);
    }
    r
}

/// The first free name with a number behind it.
pub fn free_name(entries: &[FolderEntry], stem: &str, ext: &str) -> (r: String)
    requires
        entries@.len() < 0x7fff_0000,
    ensures
        exists|n: nat|
            is_first_free(views(entries@), stem@, ext@, n) && r@ == #[trigger] numbered(
                stem@,
                ext@,
                n,
            ),
{
    let mut n: u64 = 2;
    let count: usize = entries.len();
    loop
        invariant
            count == entries@.len(),
            count < 0x7fff_0000,
            2 <= n <= count + 3,
            forall|k: nat|
                2 <= k < n ==> name_taken(views(entries@), #[trigger] numbered(stem@, ext@, k)),
        decreases count + 4 - n,
    {
        let name: String = numbered_name(stem, ext, n);
        if taken(entries, name.as_str()).is_none() {
            proof {
                assert(is_first_free(views(entries@), stem@, ext@, n as nat));
            }
            return name;
        }
        proof {
            some_number_is_free(views(entries@), stem@, ext@, (count + 4) as nat);
        }
        n = n + 1;
    }
}

/// The name under which a file goes into the managed folder: its own where that is
/// free, or taken by a file of the same size, which is taken to be the same file;
/// else the first free one with a number.
pub open spec fn is_managed_name(
    r: Seq<char>,
    entries: Seq<FolderEntryView>,
    name: Seq<char>,
    stem: Seq<char>,
    ext: Seq<char>,
    size: Option<u64>,
) -> bool {
    match first_where(entries, keyed(entry_name(), name)) {
        None => r == name,
        Some(i) => if size is Some && entries[i].size == size {
            r == name
        } else {
            exists|n: nat|
                is_first_free(entries, stem, ext, n) && r == #[trigger] numbered(stem, ext, n)
        },
    }
}

/// The name under which a file of that name and size, where that is known, goes
/// into the managed folder, which holds `entries`. A name that is taken by something
/// of another size gets a number.
///
/// `stem` and `ext` are the name without its extension, and the extension.
pub fn managed_name(
    entries: &[FolderEntry],
    name: &str,
    stem: Option<&str>,
    ext: Option<&str>,
    size: Option<u64>,
) -> (r: String)
    requires
        entries@.len() < 0x7fff_0000,
    ensures
        is_managed_name(
            r@,
            views(entries@),
            name@,
            match stem {
                Some(s) => s@,
                None => "track"@,
            },
            match ext {
                Some(e) => e@,
                None => ""@,
            },
            size,
        ),
{
    let stem: &str = match stem {
        Some(s) => s,
        None => "track",
    };
    let ext: &str = match ext {
        Some(e) => e,
        None => "",
    };
    proof {
        first_where_is_first(views(entries@), keyed(entry_name(), name@));
    }
    match taken(entries, name) {
        None => {
            proof {
                if let Some(i) = first_where(views(entries@), keyed(entry_name(), name@)) {
                    assert(views(entries@)[i].name == name@);
                }
            }
            name.to_owned()
        },
        Some(i) => {
            let same_size: bool = match (size, entries[i].size) {
                (Some(a), Some(b)) => a == b,
                _ => false,
            };
            if same_size {
                name.to_owned()
            } else {
                free_name(entries, stem, ext)
            }
        },
    }
}

/// The name under which bytes that came under `name` go into the managed folder.
pub fn managed_dest_for(
    entries: &[FolderEntry],
    name: &str,
    stem: Option<&str>,
    ext: Option<&str>,
    size: u64,
) -> (r: String)
    requires
        entries@.len() < 0x7fff_0000,
    ensures
        is_managed_name(
            r@,
            views(entries@),
            name@,
            match stem {
                Some(s) => s@,
                None => "track"@,
            },
            match ext {
                Some(e) => e@,
                None => ""@,
            },
            Some(size),
        ),
{
    managed_name(entries, name, stem, ext, Some(size))
}

/// A file goes under a name that is free, or under its own where that is taken by
/// something of the same size.
pub proof fn a_taken_name_is_for_the_same_size(
    r: Seq<char>,
    entries: Seq<FolderEntryView>,
    name: Seq<char>,
    stem: Seq<char>,
    ext: Seq<char>,
    size: Option<u64>,
)
    requires
        is_managed_name(r, entries, name, stem, ext, size),
    ensures
        !name_taken(entries, r) || (r == name && size is Some && exists|i: int|
            0 <= i < entries.len() && (#[trigger] entries[i]).name == name && entries[i].size == size),
{
    first_where_is_first(entries, keyed(entry_name(), name));
    if first_where(entries, keyed(entry_name(), name)) is None {
        assert forall|i: int| 0 <= i < entries.len() implies (#[trigger] entries[i]).name != name by {
            assert(!keyed(entry_name(), name)(entries[i]));
        }
    }
}

// ---------------------------------------------------------------------------
// With what their tags say
// ---------------------------------------------------------------------------

/// What a file says of itself.
#[derive(Debug)]
pub struct Meta {
    pub title: String,
    pub artist: String,
    pub album: String,
    pub genre: String,
    pub duration_ms: i64,
    pub bpm: Option<i64>,
}

pub struct MetaView {
    pub title: Seq<char>,
    pub artist: Seq<char>,
    pub album: Seq<char>,
    pub genre: Seq<char>,
    pub duration_ms: i64,
    pub bpm: Option<i64>,
}

impl View for Meta {
    type V = MetaView;

    open spec fn view(&self) -> MetaView {
        MetaView {
            title: self.title@,
            artist: self.artist@,
            album: self.album@,
            genre: self.genre@,
            duration_ms: self.duration_ms,
            bpm: self.bpm,
        }
    }
}

impl Clone for Meta {
    fn clone(&self) -> (r: Self)
        ensures
            r@ == self@,
    {
        Meta {
            title: self.title.clone(),
            artist: self.artist.clone(),
            album: self.album.clone(),
            genre: self.genre.clone(),
            duration_ms: self.duration_ms,
            bpm: self.bpm,
        }
    }
}

/// The fields of the tag of a file, as far as it has them.
#[derive(Debug)]
pub struct TagFields {
    pub title: Option<String>,
    pub artist: Option<String>,
    pub album: Option<String>,
    pub genre: Option<String>,
    pub bpm: Option<String>,
}

pub struct TagFieldsView {
    pub title: Option<Seq<char>>,
    pub artist: Option<Seq<char>>,
    pub album: Option<Seq<char>>,
    pub genre: Option<Seq<char>>,
    pub bpm: Option<Seq<char>>,
}

impl View for TagFields {
    type V = TagFieldsView;

    open spec fn view(&self) -> TagFieldsView {
        TagFieldsView {
            title: opt_view(self.title),
            artist: opt_view(self.artist),
            album: opt_view(self.album),
            genre: opt_view(self.genre),
            bpm: opt_view(self.bpm),
        }
    }
}

impl Clone for TagFields {
    fn clone(&self) -> (r: Self)
        ensures
            r@ == self@,
    {
        TagFields {
            title: copy_opt(&self.title),
            artist: copy_opt(&self.artist),
            album: copy_opt(&self.album),
            genre: copy_opt(&self.genre),
            bpm: copy_opt(&self.bpm),
        }
    }
}

/// What is known of a file of which only a title is.
pub open spec fn named(title: Seq<char>) -> MetaView {
    MetaView {
        title,
        artist: Seq::empty(),
        album: Seq::empty(),
        genre: Seq::empty(),
        duration_ms: 0,
        bpm: None,
    }
}

/// What is known of a file before its tags are read: its name stands for a title.
pub fn meta_from_name(stem: Option<&str>) -> (r: Meta)
    ensures
        r@ == named(match stem {
            Some(s) => s@,
            None => ""@,
        }),
{
    Meta {
        title: match stem {
            Some(s) => s.to_owned(),
            None => "".to_owned(),
        },
        artist: String::new(),
        album: String::new(),
        genre: String::new(),
        duration_ms: 0,
        bpm: None,
    }
}

/// The beats per minute that the text of a tag stands for.
pub open spec fn bpm_of(text: Seq<char>) -> Option<i64> {
    match parsed_int(text) {
        Some(n) => if i64::MIN <= n <= i64::MAX {
            Some(n as i64)
        } else {
            None
        },
        None => None,
    }
}

/// What is known of a file once its length and its tag are read. A field that the
/// tag lacks, and an empty title, leave what was known.
pub open spec fn filled(m: MetaView, duration_ms: i64, tag: Option<TagFieldsView>) -> MetaView {
    let m = MetaView { duration_ms, ..m };
    match tag {
        None => m,
        Some(t) => MetaView {
            title: if t.title is Some && t.title->0.len() > 0 {
                t.title->0
            } else {
                m.title
            },
            artist: if t.artist is Some {
                t.artist->0
            } else {
                m.artist
            },
            album: if t.album is Some {
                t.album->0
            } else {
                m.album
            },
            genre: if t.genre is Some {
                t.genre->0
            } else {
                m.genre
            },
            bpm: if t.bpm is Some {
                bpm_of(t.bpm->0)
            } else {
                m.bpm
            },
            ..m
        },
    }
}

/// Fills in what a file says of itself: its length, and its tag where it has one.
pub fn fill_meta(m: &mut Meta, duration_ms: i64, tag: Option<&TagFields>)
    ensures
        final(m)@ == filled(
            old(m)@,
            duration_ms,
            match tag {
                Some(t) => Some(t@),
                None => None,
            },
        ),
{
    m.duration_ms = duration_ms;
    if let Some(t) = tag {
        if let Some(x) = &t.title {
            if !x.as_str().is_empty() {
                m.title = x.clone();
            }
        }
        if let Some(x) = &t.artist {
            m.artist = x.clone();
        }
        if let Some(x) = &t.album {
            m.album = x.clone();
        }
        if let Some(x) = &t.genre {
            m.genre = x.clone();
        }
        if let Some(x) = &t.bpm {
            m.bpm = parse_i64(x.as_str());
        }
    }
}

/// What one way of reading a file gave: its length, and its tag where it has one.
#[derive(Debug)]
pub struct Reading {
    pub duration_ms: i64,
    pub tag: Option<TagFields>,
}

pub struct ReadingView {
    pub duration_ms: i64,
    pub tag: Option<TagFieldsView>,
}

impl View for Reading {
    type V = ReadingView;

    open spec fn view(&self) -> ReadingView {
        ReadingView {
            duration_ms: self.duration_ms,
            tag: match self.tag {
                Some(t) => Some(t@),
                None => None,
            },
        }
    }
}

/// What is known of a file. One frame that is spoilt makes the whole of a tag
/// unreadable: then the tag as it reads once it is mended counts, and where that is
/// of no help either, at least the length of the file.
pub open spec fn known_of(
    m: MetaView,
    whole: Option<ReadingView>,
    mended: Option<ReadingView>,
    length_ms: Option<i64>,
) -> MetaView {
    match (whole, mended, length_ms) {
        (Some(x), _, _) => filled(m, x.duration_ms, x.tag),
        (None, Some(x), _) => filled(m, x.duration_ms, x.tag),
        (None, None, Some(n)) => filled(m, n, None),
        (None, None, None) => m,
    }
}

/// What a file says of itself, as far as it can be read: `whole` is what the file
/// gave, `mended` what it gave once its tag was mended, and `length_ms` its length
/// alone. Its name, without the extension, stands for a title.
pub fn read_meta(
    stem: Option<&str>,
    whole: Option<&Reading>,
    mended: Option<&Reading>,
    length_ms: Option<i64>,
) -> (r: Meta)
    ensures
        r@ == known_of(
            named(match stem {
                Some(s) => s@,
                None => ""@,
            }),
            match whole {
                Some(x) => Some(x@),
                None => None,
            },
            match mended {
                Some(x) => Some(x@),
                None => None,
            },
            length_ms,
        ),
{
    let mut m: Meta = meta_from_name(stem);
    match (whole, mended, length_ms) {
        (Some(x), _, _) => {
            fill_meta(&mut m, x.duration_ms, x.tag.as_ref());
        },
        (None, Some(x), _) => {
            fill_meta(&mut m, x.duration_ms, x.tag.as_ref());
        },
        (None, None, Some(n)) => {
            fill_meta(&mut m, n, None);
        },
        (None, None, None) => {},
    }
    m
}

// ---------------------------------------------------------------------------
// Into the library
// ---------------------------------------------------------------------------

/// The id that the next track gets: one more than the highest.
pub open spec fn next_track_id(tracks: Seq<TrackRowView>) -> int
    decreases tracks.len(),
{
    if tracks.len() == 0 {
        1
    } else if tracks.len() == 1 {
        tracks[0].id + 1
    } else {
        let n = next_track_id(tracks.drop_last());
        if tracks.last().id >= n {
            tracks.last().id + 1
        } else {
            n
        }
    }
}

pub(crate) proof fn next_track_id_is_new(tracks: Seq<TrackRowView>)
    ensures
        forall|i: int| 0 <= i < tracks.len() ==> (#[trigger] tracks[i]).id < next_track_id(tracks),
        next_track_id(tracks) > i64::MIN,
    decreases tracks.len(),
{
    if tracks.len() > 1 {
        next_track_id_is_new(tracks.drop_last());
        assert forall|i: int| 0 <= i < tracks.len() implies (#[trigger] tracks[i]).id
            < next_track_id(tracks) by {
            if i < tracks.len() - 1 {
                assert(tracks.drop_last()[i] == tracks[i]);
            }
        }
    }
}

/// There is an id left for one more track.
pub open spec fn room_for_track(l: LibraryView) -> bool {
    next_track_id(l.tracks) <= i64::MAX
}

pub(crate) fn free_track_id(tracks: &Vec<TrackRow>) -> (r: i64)
    requires
        next_track_id(views(tracks@)) <= i64::MAX,
    ensures
        r == next_track_id(views(tracks@)),
{
    if tracks.len() == 0 {
        return 1;
    }
    let ghost all = views(tracks@);
    let mut top: i64 = tracks[0].id;
    proof {
        assert(all.take(1).len() == 1);
        next_track_id_is_new(all);
    }
    for i in 1..tracks.len()
        invariant
            all == views(tracks@),
            top + 1 == next_track_id(all.take(i as int)),
            i >= 1,
    {
        proof {
            assert(all.take(i + 1).drop_last() =~= all.take(i as int));
            assert(all.take(i + 1).last() == tracks@[i as int]@);
        }
        if tracks[i].id > top {
            top = tracks[i].id;
        }
    }
    proof {
        take_all(all);
    }
    top + 1
}

/// The tables stay well formed when a track with a new id, path and uid comes in.
pub(crate) proof fn added_track_wf(l: LibraryView, row: TrackRowView)
    requires
        l.wf(),
        row.id == next_track_id(l.tracks),
        forall|i: int| 0 <= i < l.tracks.len() ==> (#[trigger] l.tracks[i]).path != row.path,
        row.uid is Some ==> forall|i: int|
            0 <= i < l.tracks.len() ==> (#[trigger] l.tracks[i]).uid != row.uid,
    ensures
        (LibraryView { tracks: l.tracks.push(row), ..l }).wf(),
{
    next_track_id_is_new(l.tracks);
    distinct_push(l.tracks, row, track_id());
    distinct_push(l.tracks, row, track_path_key());
    distinct_some_push(l.tracks, row, track_uid_key());
    members_keep_tracks(l, l.tracks.push(row));
}

pub(crate) fn find_track_path(tracks: &Vec<TrackRow>, path: &str) -> (r: Option<usize>)
    ensures
        match r {
            Some(i) => i < tracks@.len() && first_where(
                views(tracks@),
                keyed(track_path_key(), path@),
            ) == Some(i as int),
            None => first_where(views(tracks@), keyed(track_path_key(), path@)) is None && forall|
                i: int,
            |
                0 <= i < tracks@.len() ==> (#[trigger] views(tracks@)[i]).path != path@,
        },
{
    let hit = |t: &TrackRow| -> (b: bool)
        ensures
            b == (t.path@ == path@),
        { same(t.path.as_str(), path) };
    let ghost k = keyed(track_path_key(), path@);
    let r: Option<usize> = find(tracks, hit, Ghost(k));
    proof {
        first_where_is_first(views(tracks@), k);
        if r is None {
            assert forall|i: int| 0 <= i < tracks@.len() implies (#[trigger] views(
                tracks@,
            )[i]).path != path@ by {
                assert(!k(views(tracks@)[i]));
            }
        }
    }
    r
}

/// The row with what a new reading of its file says. A field about which the
/// reading says nothing keeps what it had: a worse reading never wipes out a
/// better one.
pub open spec fn refreshed(t: TrackRowView, m: MetaView) -> TrackRowView {
    TrackRowView {
        title: if m.title.len() > 0 {
            m.title
        } else {
            t.title
        },
        artist: if m.artist.len() > 0 {
            m.artist
        } else {
            t.artist
        },
        album: if m.album.len() > 0 {
            m.album
        } else {
            t.album
        },
        genre: if m.genre.len() > 0 {
            m.genre
        } else {
            t.genre
        },
        duration_ms: if m.duration_ms > 0 {
            m.duration_ms
        } else {
            t.duration_ms
        },
        bpm: if m.bpm is Some {
            m.bpm
        } else {
            t.bpm
        },
        ..t
    }
}

/// The row of a file that is new to the library.
pub open spec fn imported(l: LibraryView, path: Seq<char>, m: MetaView) -> TrackRowView {
    TrackRowView {
        id: next_track_id(l.tracks) as i64,
        path,
        title: m.title,
        artist: m.artist,
        album: m.album,
        genre: m.genre,
        duration_ms: m.duration_ms,
        bpm: m.bpm,
        uid: None,
        content_hash: None,
        rel_path: None,
        size_bytes: None,
        mtime_ms: None,
        updated_at: 0,
        local_state: "present"@,
    }
}

/// The library once a file is in it: a new row, or the one that was there with
/// what the file says now.
pub open spec fn track_inserted(l: LibraryView, path: Seq<char>, m: MetaView) -> LibraryView {
    match first_where(l.tracks, keyed(track_path_key(), path)) {
        Some(i) => LibraryView { tracks: l.tracks.update(i, refreshed(l.tracks[i], m)), ..l },
        None => LibraryView { tracks: l.tracks.push(imported(l, path, m)), ..l },
    }
}

fn or_kept(new: &String, kept: &String) -> (r: String)
    ensures
        r@ == if new@.len() > 0 {
            new@
        } else {
            kept@
        },
{
    if new.as_str().is_empty() {
        kept.clone()
    } else {
        new.clone()
    }
}

/// Takes a file of the managed folder into the library, or refreshes what it says
/// of itself if it is there; its id.
pub fn insert_track(lib: &mut Library, path: &str, m: &Meta) -> (r: i64)
    requires
        room_for_track(old(lib)@),
    ensures
        final(lib)@ == track_inserted(old(lib)@, path@, m@),
        r == match first_where(old(lib)@.tracks, keyed(track_path_key(), path@)) {
            Some(i) => old(lib)@.tracks[i].id as int,
            None => next_track_id(old(lib)@.tracks),
        },
        old(lib)@.wf() ==> final(lib)@.wf(),
{
    let ghost l0 = lib@;
    match find_track_path(&lib.tracks, path) {
        Some(i) => {
            let t: &TrackRow = &lib.tracks[i];
            let id: i64 = t.id;
            let row: TrackRow = TrackRow {
                id,
                path: t.path.clone(),
                title: or_kept(&m.title, &t.title),
                artist: or_kept(&m.artist, &t.artist),
                album: or_kept(&m.album, &t.album),
                genre: or_kept(&m.genre, &t.genre),
                duration_ms: if m.duration_ms > 0 {
                    m.duration_ms
                } else {
                    t.duration_ms
                },
                bpm: if m.bpm.is_some() {
                    m.bpm
                } else {
                    t.bpm
                },
                uid: copy_opt(&t.uid),
                content_hash: copy_opt(&t.content_hash),
                rel_path: copy_opt(&t.rel_path),
                size_bytes: t.size_bytes,
                mtime_ms: t.mtime_ms,
                updated_at: t.updated_at,
                local_state: t.local_state.clone(),
            };
            proof {
                views_update(lib.tracks@, i as int, row);
                assert(row@ == refreshed(lib.tracks@[i as int]@, m@));
                if l0.wf() {
                    tracks_same_keys_wf(l0, l0.tracks.update(i as int, row@));
                }
            }
            lib.tracks.set(i, row);
            id
        },
        None => {
            let id: i64 = free_track_id(&lib.tracks);
            let row: TrackRow = TrackRow {
                id,
                path: path.to_owned(),
                title: m.title.clone(),
                artist: m.artist.clone(),
                album: m.album.clone(),
                genre: m.genre.clone(),
                duration_ms: m.duration_ms,
                bpm: m.bpm,
                uid: None,
                content_hash: None,
                rel_path: None,
                size_bytes: None,
                mtime_ms: None,
                updated_at: 0,
                local_state: "present".to_owned(),
            };
            proof {
                next_track_id_is_new(l0.tracks);
                views_push(lib.tracks@, row);
                if l0.wf() {
                    added_track_wf(l0, row@);
                }
            }
            lib.tracks.push(row);
            id
        },
    }
}

/// Before anything is read of a file it is known by what it is called, and by nothing
/// else.
pub proof fn a_file_is_known_by_its_name(title: Seq<char>)
    ensures
        named(title).title == title,
        named(title).artist == Seq::<char>::empty(),
        named(title).album == Seq::<char>::empty(),
        named(title).genre == Seq::<char>::empty(),
        named(title).duration_ms == 0,
        named(title).bpm is None,
{
}

/// Every field that the tag holds is known from that field of the tag, an empty title
/// aside; every field that it lacks is as it was known before.
pub proof fn every_tag_field_is_taken_as_itself(m: MetaView, duration_ms: i64, t: TagFieldsView)
    ensures
        ({
            let r = filled(m, duration_ms, Some(t));
            &&& forall|title: Seq<char>|
                t.title == Some(title) && title.len() > 0 ==> r.title == title
            &&& t.title is None || t.title->0.len() == 0 ==> r.title == m.title
            &&& forall|artist: Seq<char>| t.artist == Some(artist) ==> r.artist == artist
            &&& t.artist is None ==> r.artist == m.artist
            &&& forall|album: Seq<char>| t.album == Some(album) ==> r.album == album
            &&& t.album is None ==> r.album == m.album
            &&& forall|genre: Seq<char>| t.genre == Some(genre) ==> r.genre == genre
            &&& t.genre is None ==> r.genre == m.genre
            &&& t.bpm is None ==> r.bpm == m.bpm
            &&& r.duration_ms == duration_ms
        }),
{
}

/// A tempo that the tag writes in decimal is known as that number; one that is no
/// number is not known.
pub proof fn the_tempo_is_the_number_in_the_tag(
    m: MetaView,
    duration_ms: i64,
    t: TagFieldsView,
    bpm: i64,
)
    ensures
        t.bpm == Some(signed_digits(bpm as int)) ==> filled(m, duration_ms, Some(t)).bpm == Some(
            bpm,
        ),
        t.bpm is Some && (t.bpm->0.len() == 0 || exists|i: int|
            0 <= i < t.bpm->0.len() && !is_decimal(#[trigger] t.bpm->0[i]) && !(i == 0 && (
            t.bpm->0[i] == '-' || t.bpm->0[i] == '+'))) ==> filled(m, duration_ms, Some(t)).bpm
            is None,
{
    signed_decimals_are_read_back(bpm as int);
    if t.bpm is Some && t.bpm->0.len() > 0 {
        let s = t.bpm->0;
        if exists|i: int|
            0 <= i < s.len() && !is_decimal(#[trigger] s[i]) && !(i == 0 && (s[i] == '-' || s[i]
                == '+')) {
            let i = choose|i: int|
                0 <= i < s.len() && !is_decimal(#[trigger] s[i]) && !(i == 0 && (s[i] == '-'
                    || s[i] == '+'));
            if s[0] == '+' || s[0] == '-' {
                assert(s.skip(1)[i - 1] == s[i]);
            }
        }
    }
}

/// A file without a tag is known by what it is called and how long it is; reading it
/// again tells nothing new.
pub proof fn a_reading_stands_by_itself(m: MetaView, duration_ms: i64, tag: Option<TagFieldsView>)
    ensures
        ({
            let r = filled(m, duration_ms, tag);
            &&& r.duration_ms == duration_ms
            &&& tag is None ==> r.title == m.title && r.artist == m.artist && r.album == m.album
                && r.genre == m.genre && r.bpm == m.bpm
            &&& filled(r, duration_ms, tag) == r
        }),
{
}

/// The file as it stands is believed first, the mended one next, and the length that
/// the sound itself has last; where nothing could be read, what was known stays.
pub proof fn the_first_reading_that_succeeds_counts(
    m: MetaView,
    whole: Option<ReadingView>,
    mended: Option<ReadingView>,
    length_ms: Option<i64>,
)
    ensures
        ({
            let r = known_of(m, whole, mended, length_ms);
            let read = if whole is Some {
                whole
            } else {
                mended
            };
            &&& read is Some ==> r.duration_ms == read->0.duration_ms
            &&& read is None && length_ms is Some ==> r.duration_ms == length_ms->0
            &&& read is None && length_ms is None ==> r == m
            &&& read is None || read->0.tag is None ==> r.title == m.title && r.artist == m.artist
                && r.album == m.album && r.genre == m.genre && r.bpm == m.bpm
            &&& read is Some && read->0.tag is Some ==> {
                let t = read->0.tag->0;
                &&& r.title == if t.title is Some && t.title->0 != Seq::<char>::empty() {
                    t.title->0
                } else {
                    m.title
                }
                &&& r.artist == t.artist.unwrap_or(m.artist)
                &&& r.album == t.album.unwrap_or(m.album)
                &&& r.genre == t.genre.unwrap_or(m.genre)
            }
        }),
{
    if let Some(x) = if whole is Some { whole } else { mended } {
        if let Some(t) = x.tag {
            if let Some(title) = t.title {
                if title.len() == 0 {
                    assert(title =~= Seq::<char>::empty());
                }
            }
        }
    }
}

/// A file that was not in the library is in it under its path, with exactly what was
/// read of it, present, and not yet known to any other device.
pub proof fn a_new_file_is_on_record(l: LibraryView, path: Seq<char>, m: MetaView)
    requires
        l.wf(),
        room_for_track(l),
        forall|i: int| 0 <= i < l.tracks.len() ==> (#[trigger] l.tracks[i]).path != path,
    ensures
        ({
            let n = track_inserted(l, path, m);
            &&& n.tracks.len() == l.tracks.len() + 1
            &&& forall|i: int| 0 <= i < l.tracks.len() ==> #[trigger] n.tracks[i] == l.tracks[i]
            &&& row_with(n.tracks, track_path_key(), path) == Some(n.tracks.last())
            &&& n.tracks.last().title == m.title
            &&& n.tracks.last().artist == m.artist
            &&& n.tracks.last().album == m.album
            &&& n.tracks.last().genre == m.genre
            &&& n.tracks.last().duration_ms == m.duration_ms
            &&& n.tracks.last().bpm == m.bpm
            &&& n.tracks.last().local_state == "present"@
            &&& n.tracks.last().uid is None
            &&& n.tracks.last().content_hash is None
            &&& n.tracks.last().size_bytes is None
            &&& forall|i: int|
                0 <= i < l.tracks.len() ==> (#[trigger] l.tracks[i]).id < n.tracks.last().id
            &&& n == (LibraryView { tracks: n.tracks, ..l })
        }),
{
    let k = keyed(track_path_key(), path);
    let n = track_inserted(l, path, m);
    first_where_is_first(l.tracks, k);
    next_track_id_is_new(l.tracks);
    first_where_is_first(n.tracks, k);
    assert(k(n.tracks.last()));
    assert forall|i: int| 0 <= i < l.tracks.len() implies !k(#[trigger] n.tracks[i]) by {
        assert(n.tracks[i] == l.tracks[i]);
    }
}

/// A file that was in the library before has each field that was read in that field of
/// its row, and in the others what it had; whose row it is and all other rows stay.
pub proof fn a_known_file_is_refreshed(l: LibraryView, path: Seq<char>, m: MetaView, i: int)
    requires
        l.wf(),
        0 <= i < l.tracks.len(),
        l.tracks[i].path == path,
    ensures
        ({
            let n = track_inserted(l, path, m);
            let was = l.tracks[i];
            let is = n.tracks[i];
            &&& n == (LibraryView { tracks: n.tracks, ..l })
            &&& n.tracks.len() == l.tracks.len()
            &&& forall|k: int|
                0 <= k < l.tracks.len() && k != i ==> #[trigger] n.tracks[k] == l.tracks[k]
            &&& is.title == if m.title != Seq::<char>::empty() { m.title } else { was.title }
            &&& is.artist == if m.artist != Seq::<char>::empty() { m.artist } else { was.artist }
            &&& is.album == if m.album != Seq::<char>::empty() { m.album } else { was.album }
            &&& is.genre == if m.genre != Seq::<char>::empty() { m.genre } else { was.genre }
            &&& is.duration_ms == if m.duration_ms > 0 { m.duration_ms } else { was.duration_ms }
            &&& is.bpm == if m.bpm is Some { m.bpm } else { was.bpm }
            &&& is.id == was.id && is.path == was.path && is.uid == was.uid
            &&& is.content_hash == was.content_hash && is.rel_path == was.rel_path
            &&& is.size_bytes == was.size_bytes && is.mtime_ms == was.mtime_ms
            &&& is.updated_at == was.updated_at && is.local_state == was.local_state
        }),
{
    let k = keyed(track_path_key(), path);
    assert forall|j: int| 0 <= j < i implies !k(#[trigger] l.tracks[j]) by {
        assert(track_path_key()(l.tracks[j]) != track_path_key()(l.tracks[i]));
    }
    crate::table::first_where_at(l.tracks, k, i);
    assert(m.title.len() == 0 ==> m.title =~= Seq::<char>::empty());
    assert(m.artist.len() == 0 ==> m.artist =~= Seq::<char>::empty());
    assert(m.album.len() == 0 ==> m.album =~= Seq::<char>::empty());
    assert(m.genre.len() == 0 ==> m.genre =~= Seq::<char>::empty());
}

/// Reading a file again never empties a field that was filled.
pub proof fn a_worse_reading_wipes_out_nothing(t: TrackRowView, m: MetaView)
    ensures
        t.title.len() > 0 ==> refreshed(t, m).title.len() > 0,
        t.artist.len() > 0 ==> refreshed(t, m).artist.len() > 0,
        t.album.len() > 0 ==> refreshed(t, m).album.len() > 0,
        t.genre.len() > 0 ==> refreshed(t, m).genre.len() > 0,
        t.duration_ms > 0 ==> refreshed(t, m).duration_ms > 0,
        t.bpm is Some ==> refreshed(t, m).bpm is Some,
        refreshed(t, m).id == t.id,
        refreshed(t, m).uid == t.uid,
{
}

} // verus!
