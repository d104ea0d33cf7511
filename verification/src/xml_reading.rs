//! What another program reads in the file that is written for it.

use crate::export_xml::{
    around, children, escaped, facts_id, facts_of, folder_text, head_text, holds, integer_text,
    item_ids, item_text, items_text, library_text, location_of, master_text, next_pid, node_text,
    nodes_text, playlist_persist, string_text, track_ids, track_text, tracks_below, tracks_text,
    with_trailing_sep, FileFactsView,
};
use crate::library::{track_id, LibraryView};
use crate::merge_laws::found_by_key;
use crate::table::{first_where, first_where_at, first_where_is_first, keyed};
use crate::text::{
    decimals_are_read_back, digits, is_decimal, parsed_int, signed_decimals_are_read_back,
    signed_digits,
};
use crate::tracks::{all_tracks, places, places_are_members, tracks_in, TrackView};
use crate::tree::PlaylistNodeView;
use vstd::prelude::*;

verus! {

// ---------------------------------------------------------------------------
// Numbers, from top to bottom
// ---------------------------------------------------------------------------

/// A character that a number is written with.
pub open spec fn is_numeral(c: char) -> bool {
    is_decimal(c) || c == '-'
}

/// The numbers that stand in a text, in their order, and the numeral that it ends in.
pub open spec fn numerals(s: Seq<char>) -> (Seq<int>, Seq<char>)
    decreases s.len(),
{
    if s.len() == 0 {
        (Seq::empty(), Seq::empty())
    } else {
        let (read, open) = numerals(s.drop_last());
        if is_numeral(s.last()) {
            (read, open.push(s.last()))
        } else {
            (with_number(read, open), Seq::empty())
        }
    }
}

/// One more number, if the numeral is one.
pub open spec fn with_number(read: Seq<int>, numeral: Seq<char>) -> Seq<int> {
    match parsed_int(numeral) {
        Some(n) => read.push(n),
        None => read,
    }
}

/// The numbers that stand in a text, from top to bottom.
pub open spec fn numbers_in(s: Seq<char>) -> Seq<int> {
    let (read, open) = numerals(s);
    with_number(read, open)
}

proof fn words_close_a_number(s: Seq<char>, t: Seq<char>)
    requires
        t.len() > 0,
        forall|i: int| 0 <= i < t.len() ==> !is_numeral(#[trigger] t[i]),
    ensures
        numerals(s + t) == (numbers_in(s), Seq::<char>::empty()),
    decreases t.len(),
{
    let st = s + t;
    assert(st.last() == t.last());
    if t.len() == 1 {
        assert(st.drop_last() =~= s);
    } else {
        let u = t.drop_last();
        assert(st.drop_last() =~= s + u);
        assert forall|i: int| 0 <= i < u.len() implies !is_numeral(#[trigger] u[i]) by {
            assert(u[i] == t[i]);
        }
        words_close_a_number(s, u);
        assert(parsed_int(Seq::<char>::empty()) is None);
    }
}

proof fn numerals_are_collected(s: Seq<char>, t: Seq<char>)
    requires
        numerals(s).1.len() == 0,
        forall|i: int| 0 <= i < t.len() ==> is_numeral(#[trigger] t[i]),
    ensures
        numerals(s + t) == (numerals(s).0, t),
    decreases t.len(),
{
    let st = s + t;
    if t.len() == 0 {
        assert(st =~= s);
        assert(numerals(s).1 =~= t);
    } else {
        let u = t.drop_last();
        assert(st.drop_last() =~= s + u);
        assert(st.last() == t.last());
        assert forall|i: int| 0 <= i < u.len() implies is_numeral(#[trigger] u[i]) by {
            assert(u[i] == t[i]);
        }
        numerals_are_collected(s, u);
        assert(u.push(t.last()) =~= t);
    }
}

pub(crate) proof fn signed_digits_are_numerals(n: int)
    ensures
        forall|i: int| 0 <= i < signed_digits(n).len() ==> is_numeral(#[trigger] signed_digits(n)[i]),
{
    if n < 0 {
        decimals_are_read_back((-n) as nat);
        assert forall|i: int| 0 <= i < signed_digits(n).len() implies is_numeral(
            #[trigger] signed_digits(n)[i],
        ) by {
            if i > 0 {
                assert(signed_digits(n)[i] == digits((-n) as nat)[i - 1]);
            }
        }
    } else {
        decimals_are_read_back(n as nat);
    }
}

/// A number between words is read where it stands.
proof fn a_number_is_read(s: Seq<char>, before: Seq<char>, n: int, after: Seq<char>)
    requires
        before.len() > 0,
        after.len() > 0,
        forall|i: int| 0 <= i < before.len() ==> !is_numeral(#[trigger] before[i]),
        forall|i: int| 0 <= i < after.len() ==> !is_numeral(#[trigger] after[i]),
    ensures
        numerals(s + (before + signed_digits(n) + after)) == (
            numbers_in(s).push(n),
            Seq::<char>::empty(),
        ),
{
    let d = signed_digits(n);
    assert(s + (before + d + after) =~= (s + before + d) + after);
    words_close_a_number(s, before);
    signed_digits_are_numerals(n);
    numerals_are_collected(s + before, d);
    words_close_a_number(s + before + d, after);
    signed_decimals_are_read_back(n);
}

proof fn items_are_read(ids: Seq<i64>)
    ensures
        numerals(items_text(ids)) == (ids.map_values(|id: i64| id as int), Seq::<char>::empty()),
    decreases ids.len(),
{
    let ints = ids.map_values(|id: i64| id as int);
    if ids.len() == 0 {
        let opening = "\t\t\t<key>Playlist Items</key>\n\t\t\t<array>\n"@;
        reveal_strlit("\t\t\t<key>Playlist Items</key>\n\t\t\t<array>\n");
        let none = Seq::<char>::empty();
        assert(none + opening =~= opening);
        words_close_a_number(none, opening);
        assert(numbers_in(none) =~= Seq::<int>::empty());
        assert(ints =~= Seq::<int>::empty());
    } else {
        let t = ids.drop_last();
        items_are_read(t);
        let before = "\t\t\t\t<dict>\n\t\t\t\t\t<key>Track ID</key><integer>"@;
        let after = "</integer>\n\t\t\t\t</dict>\n"@;
        reveal_strlit("\t\t\t\t<dict>\n\t\t\t\t\t<key>Track ID</key><integer>");
        reveal_strlit("</integer>\n\t\t\t\t</dict>\n");
        a_number_is_read(items_text(t), before, ids.last() as int, after);
        assert(parsed_int(Seq::<char>::empty()) is None);
        assert(ints =~= t.map_values(|id: i64| id as int).push(ids.last() as int));
    }
}

/// Whoever reads the track ids of a written playlist from top to bottom gets exactly
/// the ids of the playlist, in its order.
pub proof fn reading_the_items_gives_the_ids(ids: Seq<i64>)
    ensures
        numbers_in(items_text(ids) + "\t\t\t</array>\n"@) == ids.map_values(|id: i64| id as int),
{
    items_are_read(ids);
    let closing = "\t\t\t</array>\n"@;
    reveal_strlit("\t\t\t</array>\n");
    words_close_a_number(items_text(ids), closing);
    assert(parsed_int(Seq::<char>::empty()) is None);
}

/// A track that is put at the end of a playlist is written right behind the others, and
/// what stands before it is written as it was.
pub proof fn items_stand_one_behind_another(s: Seq<i64>, t: Seq<i64>, x: i64)
    ensures
        items_text(s.push(x)) == items_text(s) + (
            "\t\t\t\t<dict>\n\t\t\t\t\t<key>Track ID</key><integer>"@ + signed_digits(x as int)
                + "</integer>\n\t\t\t\t</dict>\n"@
        ),
        items_text(Seq::<i64>::empty()) == "\t\t\t<key>Playlist Items</key>\n\t\t\t<array>\n"@,
        exists|rest: Seq<char>| #[trigger] (items_text(s) + rest) == items_text(s + t),
    decreases t.len(),
{
    assert(s.push(x).drop_last() =~= s);
    if t.len() == 0 {
        assert(s + t =~= s);
        assert(items_text(s) + Seq::<char>::empty() =~= items_text(s));
    } else {
        let u = t.drop_last();
        items_stand_one_behind_another(s, u, x);
        let r = choose|r: Seq<char>| #[trigger] (items_text(s) + r) == items_text(s + u);
        assert((s + t).drop_last() =~= s + u);
        assert((s + t).last() == t.last());
        assert(items_text(s) + (r + item_text(t.last())) =~= items_text(s) + r + item_text(t.last()));
        assert(items_text(s) + (r + item_text(t.last())) == items_text(s + t));
    }
}

/// What is read of a written playlist is what the playlist shows, in the same order.
pub proof fn a_playlist_is_written_as_it_is_shown(l: LibraryView, playlist: i64)
    requires
        l.wf(),
    ensures
        ({
            let read = numbers_in(items_text(item_ids(l, playlist)) + "\t\t\t</array>\n"@);
            let shown = tracks_in(l, playlist);
            &&& read.len() == shown.len()
            &&& forall|i: int| 0 <= i < shown.len() ==> read[i] == (#[trigger] shown[i]).id
        }),
{
    reading_the_items_gives_the_ids(item_ids(l, playlist));
    let rows = places(l.playlist_tracks, playlist);
    places_are_members(l.playlist_tracks, playlist);
    let shown = tracks_in(l, playlist);
    let read = numbers_in(items_text(item_ids(l, playlist)) + "\t\t\t</array>\n"@);
    assert forall|i: int| 0 <= i < shown.len() implies read[i] == (#[trigger] shown[i]).id by {
        assert(l.playlist_tracks.contains(rows[i]));
        let k = choose|k: int| 0 <= k < l.playlist_tracks.len() && l.playlist_tracks[k] == rows[i];
        assert(crate::library::is_track(l.tracks, l.playlist_tracks[k].track_id));
        found_by_key(l.tracks, track_id(), rows[i].track_id);
    }
}

/// The nodes of a folder are written one behind another, each numbered on from the one
/// before, and a folder before what hangs from it.
pub proof fn nodes_stand_one_behind_another(
    l: LibraryView,
    nodes: Seq<PlaylistNodeView>,
    kids: Seq<PlaylistNodeView>,
    kid: PlaylistNodeView,
    parent: Option<Seq<char>>,
    pid: i64,
    depth: nat,
)
    ensures
        ({
            let (earlier, next) = nodes_text(l, nodes, kids, parent, pid, depth);
            let (one, after) = node_text(l, nodes, kid, parent, next, depth);
            nodes_text(l, nodes, kids.push(kid), parent, pid, depth) == (earlier + one, after)
        }),
        kid.kind == "folder"@ && depth > 0 ==> ({
            let (inside, after) = nodes_text(
                l,
                nodes,
                children(nodes, Some(kid.id)),
                Some(playlist_persist(kid.id)),
                next_pid(pid),
                (depth - 1) as nat,
            );
            node_text(l, nodes, kid, parent, pid, depth) == (
                folder_text(
                    kid.name,
                    pid,
                    playlist_persist(kid.id),
                    parent,
                    tracks_below(l, nodes, kid.id, depth),
                ) + inside,
                after,
            )
        }),
{
    assert(kids.push(kid).drop_last() =~= kids);
    assert(kids.push(kid).last() == kid);
}

/// What is known of a file is what was found out of that very file; nothing where it
/// was not found.
pub proof fn facts_are_those_of_the_track(files: Seq<FileFactsView>, id: i64)
    ensures
        facts_of(files, id).id == id,
        forall|i: int|
            0 <= i < files.len() && (#[trigger] files[i]).id == id && (forall|j: int|
                0 <= j < i ==> (#[trigger] files[j]).id != id) ==> facts_of(files, id) == files[i],
        (forall|i: int| 0 <= i < files.len() ==> (#[trigger] files[i]).id != id) ==> facts_of(
            files,
            id,
        ).size is None && facts_of(files, id).modified_secs is None,
{
    let k = keyed(facts_id(), id);
    first_where_is_first(files, k);
    assert forall|i: int|
        0 <= i < files.len() && (#[trigger] files[i]).id == id && (forall|j: int|
            0 <= j < i ==> (#[trigger] files[j]).id != id) implies facts_of(files, id)
        == files[i] by {
        assert forall|j: int| 0 <= j < i implies !k(#[trigger] files[j]) by {}
        first_where_at(files, k, i);
    }
    if forall|i: int| 0 <= i < files.len() ==> (#[trigger] files[i]).id != id {
        if first_where(files, k) is Some {
            let i = first_where(files, k)->0;
            assert(files[i].id != id);
        }
    }
}

proof fn one_track_is_held(tracks: Seq<TrackView>, files: Seq<FileFactsView>, now: int, i: int) -> (r: (
    Seq<char>,
    Seq<char>,
))
    requires
        0 <= i < tracks.len(),
    ensures
        tracks_text(tracks, files, now) == around(
            r.0,
            track_text(tracks[i], facts_of(files, tracks[i].id), now),
            r.1,
        ),
    decreases tracks.len(),
{
    let t = tracks.drop_last();
    let last = track_text(tracks.last(), facts_of(files, tracks.last().id), now);
    if i == tracks.len() - 1 {
        assert(tracks_text(t, files, now) + last =~= tracks_text(t, files, now) + last
            + Seq::<char>::empty());
        (tracks_text(t, files, now), Seq::empty())
    } else {
        let (a, b) = one_track_is_held(t, files, now, i);
        assert(t[i] == tracks[i]);
        let part = track_text(tracks[i], facts_of(files, tracks[i].id), now);
        assert(a + part + b + last =~= a + part + (b + last));
        (a, b + last)
    }
}

/// Every track of the library is in the file, with what is known of its own file, and
/// the list of everything lists them all, in the order in which the library shows them.
pub proof fn every_track_is_written(
    l: LibraryView,
    music_dir: Seq<char>,
    files: Seq<FileFactsView>,
    now: int,
    i: int,
)
    requires
        0 <= i < all_tracks(l).len(),
    ensures
        holds(
            library_text(l, music_dir, files, now),
            track_text(all_tracks(l)[i], facts_of(files, all_tracks(l)[i].id), now),
        ),
        holds(
            library_text(l, music_dir, files, now),
            items_text(all_tracks(l).map_values(|t: TrackView| t.id)) + "\t\t\t</array>\n"@,
        ),
{
    let tracks = all_tracks(l);
    let nodes = crate::tree::tree_of(l);
    let (a, b) = one_track_is_held(tracks, files, now, i);
    let part = track_text(tracks[i], facts_of(files, tracks[i].id), now);
    let head = head_text(music_dir, now) + "\t<key>Tracks</key>\n\t<dict>\n"@;
    let blocks = nodes_text(l, nodes, children(nodes, None), None, 1001, nodes.len()).0;
    let folder = escaped(location_of(with_trailing_sep(music_dir)));
    let ids = track_ids(tracks);
    let front = head + tracks_text(tracks, files, now) + "\t</dict>\n"@
        + "\t<key>Playlists</key>\n\t<array>\n"@;
    let tail = blocks + "\t</array>\n"@ + "\t<key>Music Folder</key><string>"@ + folder
        + "</string>\n"@ + "</dict>\n</plist>\n"@;
    let text = library_text(l, music_dir, files, now);
    six_in_one(
        front + master_text(ids),
        blocks,
        "\t</array>\n"@,
        "\t<key>Music Folder</key><string>"@,
        folder,
        "</string>\n"@,
        "</dict>\n</plist>\n"@,
    );
    assert(text == front + master_text(ids) + tail);
    // The track.
    let mid = "\t</dict>\n"@ + "\t<key>Playlists</key>\n\t<array>\n"@ + master_text(ids) + tail;
    moved_in(
        head,
        a,
        part,
        b,
        "\t</dict>\n"@,
        "\t<key>Playlists</key>\n\t<array>\n"@,
        master_text(ids),
        tail,
    );
    assert(text == around(head + a, part, b + mid));
    // The list of everything.
    let list = items_text(ids) + "\t\t\t</array>\n"@;
    let opening = "\t\t<dict>\n"@ + "\t\t\t<key>Master</key><true/>\n"@ + integer_text(
        "Playlist ID"@,
        1000,
    ) + string_text("Playlist Persistent ID"@, playlist_persist(0))
        + "\t\t\t<key>All Items</key><true/>\n"@ + "\t\t\t<key>Visible</key><false/>\n"@
        + string_text("Name"@, "Library"@);
    assert(master_text(ids) == opening + list + "\t\t</dict>\n"@);
    two_around(front, opening, list, "\t\t</dict>\n"@, tail);
    assert(text == around(front + opening, list, "\t\t</dict>\n"@ + tail));
    assert(ids =~= tracks.map_values(|t: TrackView| t.id));
}

proof fn six_in_one(
    x: Seq<char>,
    a: Seq<char>,
    b: Seq<char>,
    c: Seq<char>,
    d: Seq<char>,
    e: Seq<char>,
    f: Seq<char>,
)
    ensures
        x + a + b + c + d + e + f == x + (a + b + c + d + e + f),
{
    assert(x + a + b =~= x + (a + b));
    assert(x + (a + b) + c =~= x + (a + b + c));
    assert(x + (a + b + c) + d =~= x + (a + b + c + d));
    assert(x + (a + b + c + d) + e =~= x + (a + b + c + d + e));
    assert(x + (a + b + c + d + e) + f =~= x + (a + b + c + d + e + f));
}

proof fn moved_in(
    head: Seq<char>,
    a: Seq<char>,
    part: Seq<char>,
    b: Seq<char>,
    c: Seq<char>,
    d: Seq<char>,
    e: Seq<char>,
    f: Seq<char>,
)
    ensures
        head + (a + part + b) + c + d + e + f == (head + a) + part + (b + (c + d + e + f)),
{
    let x = head + (a + part + b);
    assert(x + c + d =~= x + (c + d));
    assert(x + (c + d) + e =~= x + (c + d + e));
    assert(x + (c + d + e) + f =~= x + (c + d + e + f));
    let y = c + d + e + f;
    assert(x + y =~= (head + a) + part + (b + y));
}

proof fn two_around(f: Seq<char>, o: Seq<char>, l: Seq<char>, e: Seq<char>, t: Seq<char>)
    ensures
        f + (o + l + e) + t == (f + o) + l + (e + t),
{
    assert(f + (o + l + e) + t =~= (f + o) + l + (e + t));
}

} // verus!
