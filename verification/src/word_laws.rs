//! What is said of a message when it was not the one expected.

use crate::export_xml::{around, holds};
use crate::manifest::{MembershipView, PlaylistEntryView, TombstoneView, TrackEntryView};
use crate::msg_text::{
    flag_text, membership_text, msg_text, number_or_none, playlist_entry_text, quoted,
    quoted_or_none, tombstone_text, track_entry_text,
};
use crate::text::signed_digits;
use crate::wire::Msg;
use vstd::prelude::*;

verus! {

/// Names with their values, one behind another.
spec fn in_words(fields: Seq<(Seq<char>, Seq<char>)>) -> Seq<char>
    decreases fields.len(),
{
    if fields.len() == 0 {
        Seq::empty()
    } else {
        in_words(fields.drop_last()) + fields.last().0 + fields.last().1
    }
}

/// The words hold each name with its value behind it, and the next name behind that.
proof fn each_is_held(fields: Seq<(Seq<char>, Seq<char>)>, end: Seq<char>, i: int) -> (r: (
    Seq<char>,
    Seq<char>,
))
    requires
        0 <= i < fields.len(),
    ensures
        in_words(fields) + end == around(
            r.0,
            fields[i].0 + fields[i].1 + if i + 1 < fields.len() {
                fields[i + 1].0
            } else {
                end
            },
            r.1,
        ),
    decreases fields.len(),
{
    let t = fields.drop_last();
    let x = fields.last();
    let w = in_words(t);
    let none = Seq::<char>::empty();
    if i == fields.len() - 1 {
        assert(w + x.0 + x.1 + end =~= w + (x.0 + x.1 + end) + none);
        (w, none)
    } else {
        let (a, b) = each_is_held(t, x.0, i);
        assert(t[i] == fields[i]);
        let part = fields[i].0 + fields[i].1 + fields[i + 1].0;
        if i + 1 < t.len() {
            assert(t[i + 1] == fields[i + 1]);
        }
        assert(w + x.0 == a + part + b);
        assert(w + x.0 + x.1 + end =~= a + part + (b + x.1 + end));
        (a, b + x.1 + end)
    }
}

proof fn each_is_said(fields: Seq<(Seq<char>, Seq<char>)>, end: Seq<char>, i: int)
    requires
        0 <= i < fields.len(),
    ensures
        holds(
            in_words(fields) + end,
            fields[i].0 + fields[i].1 + if i + 1 < fields.len() {
                fields[i + 1].0
            } else {
                end
            },
        ),
{
    let (a, b) = each_is_held(fields, end, i);
}

/// An entry of a track is put into words field by field, each under its own name.
pub proof fn a_track_entry_is_told_field_by_field(t: TrackEntryView)
    ensures
        holds(
            track_entry_text(t),
            "TrackEntry { uid: "@ + quoted(t.uid) + ", hash: "@,
        ),
        holds(
            track_entry_text(t),
            ", hash: "@ + quoted_or_none(t.hash) + ", size: "@,
        ),
        holds(
            track_entry_text(t),
            ", size: "@ + signed_digits(t.size as int) + ", filename: "@,
        ),
        holds(
            track_entry_text(t),
            ", filename: "@ + quoted(t.filename) + ", title: "@,
        ),
        holds(
            track_entry_text(t),
            ", title: "@ + quoted(t.title) + ", artist: "@,
        ),
        holds(
            track_entry_text(t),
            ", artist: "@ + quoted(t.artist) + ", album: "@,
        ),
        holds(
            track_entry_text(t),
            ", album: "@ + quoted(t.album) + ", genre: "@,
        ),
        holds(
            track_entry_text(t),
            ", genre: "@ + quoted(t.genre) + ", duration_ms: "@,
        ),
        holds(
            track_entry_text(t),
            ", duration_ms: "@ + signed_digits(t.duration_ms as int) + ", bpm: "@,
        ),
        holds(
            track_entry_text(t),
            ", bpm: "@ + number_or_none(t.bpm) + ", updated_at: "@,
        ),
        holds(
            track_entry_text(t),
            ", updated_at: "@ + signed_digits(t.updated_at as int) + ", present: "@,
        ),
        holds(
            track_entry_text(t),
            ", present: "@ + flag_text(t.present) + " }"@,
        ),
{
    let f0 = Seq::<(Seq<char>, Seq<char>)>::empty();
    let f1 = f0.push(("TrackEntry { uid: "@, quoted(t.uid)));
    assert(f1.drop_last() =~= f0);
    assert(in_words(f1) == in_words(f0) + "TrackEntry { uid: "@ + quoted(t.uid));
    let f2 = f1.push((", hash: "@, quoted_or_none(t.hash)));
    assert(f2.drop_last() =~= f1);
    assert(in_words(f2) == in_words(f1) + ", hash: "@ + quoted_or_none(t.hash));
    let f3 = f2.push((", size: "@, signed_digits(t.size as int)));
    assert(f3.drop_last() =~= f2);
    assert(in_words(f3) == in_words(f2) + ", size: "@ + signed_digits(t.size as int));
    let f4 = f3.push((", filename: "@, quoted(t.filename)));
    assert(f4.drop_last() =~= f3);
    assert(in_words(f4) == in_words(f3) + ", filename: "@ + quoted(t.filename));
    let f5 = f4.push((", title: "@, quoted(t.title)));
    assert(f5.drop_last() =~= f4);
    assert(in_words(f5) == in_words(f4) + ", title: "@ + quoted(t.title));
    let f6 = f5.push((", artist: "@, quoted(t.artist)));
    assert(f6.drop_last() =~= f5);
    assert(in_words(f6) == in_words(f5) + ", artist: "@ + quoted(t.artist));
    let f7 = f6.push((", album: "@, quoted(t.album)));
    assert(f7.drop_last() =~= f6);
    assert(in_words(f7) == in_words(f6) + ", album: "@ + quoted(t.album));
    let f8 = f7.push((", genre: "@, quoted(t.genre)));
    assert(f8.drop_last() =~= f7);
    assert(in_words(f8) == in_words(f7) + ", genre: "@ + quoted(t.genre));
    let f9 = f8.push((", duration_ms: "@, signed_digits(t.duration_ms as int)));
    assert(f9.drop_last() =~= f8);
    assert(in_words(f9) == in_words(f8) + ", duration_ms: "@ + signed_digits(t.duration_ms as int));
    let f10 = f9.push((", bpm: "@, number_or_none(t.bpm)));
    assert(f10.drop_last() =~= f9);
    assert(in_words(f10) == in_words(f9) + ", bpm: "@ + number_or_none(t.bpm));
    let f11 = f10.push((", updated_at: "@, signed_digits(t.updated_at as int)));
    assert(f11.drop_last() =~= f10);
    assert(in_words(f11) == in_words(f10) + ", updated_at: "@ + signed_digits(t.updated_at as int));
    let f12 = f11.push((", present: "@, flag_text(t.present)));
    assert(f12.drop_last() =~= f11);
    assert(in_words(f12) == in_words(f11) + ", present: "@ + flag_text(t.present));
    assert(in_words(f0) =~= Seq::<char>::empty());
    assert(in_words(f1) =~= f1[0].0 + f1[0].1);
    assert(in_words(f12) + " }"@ == track_entry_text(t));
    each_is_said(f12, " }"@, 0);
    each_is_said(f12, " }"@, 1);
    each_is_said(f12, " }"@, 2);
    each_is_said(f12, " }"@, 3);
    each_is_said(f12, " }"@, 4);
    each_is_said(f12, " }"@, 5);
    each_is_said(f12, " }"@, 6);
    each_is_said(f12, " }"@, 7);
    each_is_said(f12, " }"@, 8);
    each_is_said(f12, " }"@, 9);
    each_is_said(f12, " }"@, 10);
    each_is_said(f12, " }"@, 11);
}

/// An entry of a playlist is put into words field by field.
pub proof fn a_playlist_entry_is_told_field_by_field(t: PlaylistEntryView)
    ensures
        holds(
            playlist_entry_text(t),
            "PlaylistEntry { uid: "@ + quoted(t.uid) + ", name: "@,
        ),
        holds(
            playlist_entry_text(t),
            ", name: "@ + quoted(t.name) + ", kind: "@,
        ),
        holds(
            playlist_entry_text(t),
            ", kind: "@ + quoted(t.kind) + ", parent_uid: "@,
        ),
        holds(
            playlist_entry_text(t),
            ", parent_uid: "@ + quoted_or_none(t.parent_uid) + ", rank: "@,
        ),
        holds(
            playlist_entry_text(t),
            ", rank: "@ + quoted(t.rank) + ", updated_at: "@,
        ),
        holds(
            playlist_entry_text(t),
            ", updated_at: "@ + signed_digits(t.updated_at as int) + " }"@,
        ),
{
    let f0 = Seq::<(Seq<char>, Seq<char>)>::empty();
    let f1 = f0.push(("PlaylistEntry { uid: "@, quoted(t.uid)));
    assert(f1.drop_last() =~= f0);
    assert(in_words(f1) == in_words(f0) + "PlaylistEntry { uid: "@ + quoted(t.uid));
    let f2 = f1.push((", name: "@, quoted(t.name)));
    assert(f2.drop_last() =~= f1);
    assert(in_words(f2) == in_words(f1) + ", name: "@ + quoted(t.name));
    let f3 = f2.push((", kind: "@, quoted(t.kind)));
    assert(f3.drop_last() =~= f2);
    assert(in_words(f3) == in_words(f2) + ", kind: "@ + quoted(t.kind));
    let f4 = f3.push((", parent_uid: "@, quoted_or_none(t.parent_uid)));
    assert(f4.drop_last() =~= f3);
    assert(in_words(f4) == in_words(f3) + ", parent_uid: "@ + quoted_or_none(t.parent_uid));
    let f5 = f4.push((", rank: "@, quoted(t.rank)));
    assert(f5.drop_last() =~= f4);
    assert(in_words(f5) == in_words(f4) + ", rank: "@ + quoted(t.rank));
    let f6 = f5.push((", updated_at: "@, signed_digits(t.updated_at as int)));
    assert(f6.drop_last() =~= f5);
    assert(in_words(f6) == in_words(f5) + ", updated_at: "@ + signed_digits(t.updated_at as int));
    assert(in_words(f0) =~= Seq::<char>::empty());
    assert(in_words(f1) =~= f1[0].0 + f1[0].1);
    assert(in_words(f6) + " }"@ == playlist_entry_text(t));
    each_is_said(f6, " }"@, 0);
    each_is_said(f6, " }"@, 1);
    each_is_said(f6, " }"@, 2);
    each_is_said(f6, " }"@, 3);
    each_is_said(f6, " }"@, 4);
    each_is_said(f6, " }"@, 5);
}

/// A place is put into words field by field.
pub proof fn a_place_is_told_field_by_field(t: MembershipView)
    ensures
        holds(
            membership_text(t),
            "Membership { playlist_uid: "@ + quoted(t.playlist_uid) + ", track_uid: "@,
        ),
        holds(
            membership_text(t),
            ", track_uid: "@ + quoted(t.track_uid) + ", rank: "@,
        ),
        holds(
            membership_text(t),
            ", rank: "@ + quoted(t.rank) + ", added_at: "@,
        ),
        holds(
            membership_text(t),
            ", added_at: "@ + signed_digits(t.added_at as int) + " }"@,
        ),
{
    let f0 = Seq::<(Seq<char>, Seq<char>)>::empty();
    let f1 = f0.push(("Membership { playlist_uid: "@, quoted(t.playlist_uid)));
    assert(f1.drop_last() =~= f0);
    assert(in_words(f1) == in_words(f0) + "Membership { playlist_uid: "@ + quoted(t.playlist_uid));
    let f2 = f1.push((", track_uid: "@, quoted(t.track_uid)));
    assert(f2.drop_last() =~= f1);
    assert(in_words(f2) == in_words(f1) + ", track_uid: "@ + quoted(t.track_uid));
    let f3 = f2.push((", rank: "@, quoted(t.rank)));
    assert(f3.drop_last() =~= f2);
    assert(in_words(f3) == in_words(f2) + ", rank: "@ + quoted(t.rank));
    let f4 = f3.push((", added_at: "@, signed_digits(t.added_at as int)));
    assert(f4.drop_last() =~= f3);
    assert(in_words(f4) == in_words(f3) + ", added_at: "@ + signed_digits(t.added_at as int));
    assert(in_words(f0) =~= Seq::<char>::empty());
    assert(in_words(f1) =~= f1[0].0 + f1[0].1);
    assert(in_words(f4) + " }"@ == membership_text(t));
    each_is_said(f4, " }"@, 0);
    each_is_said(f4, " }"@, 1);
    each_is_said(f4, " }"@, 2);
    each_is_said(f4, " }"@, 3);
}

/// A deletion is put into words field by field.
pub proof fn a_deletion_is_told_field_by_field(t: TombstoneView)
    ensures
        holds(
            tombstone_text(t),
            "Tombstone { entity: "@ + quoted(t.entity) + ", uid: "@,
        ),
        holds(
            tombstone_text(t),
            ", uid: "@ + quoted(t.uid) + ", deleted_at: "@,
        ),
        holds(
            tombstone_text(t),
            ", deleted_at: "@ + signed_digits(t.deleted_at as int) + " }"@,
        ),
{
    let f0 = Seq::<(Seq<char>, Seq<char>)>::empty();
    let f1 = f0.push(("Tombstone { entity: "@, quoted(t.entity)));
    assert(f1.drop_last() =~= f0);
    assert(in_words(f1) == in_words(f0) + "Tombstone { entity: "@ + quoted(t.entity));
    let f2 = f1.push((", uid: "@, quoted(t.uid)));
    assert(f2.drop_last() =~= f1);
    assert(in_words(f2) == in_words(f1) + ", uid: "@ + quoted(t.uid));
    let f3 = f2.push((", deleted_at: "@, signed_digits(t.deleted_at as int)));
    assert(f3.drop_last() =~= f2);
    assert(in_words(f3) == in_words(f2) + ", deleted_at: "@ + signed_digits(t.deleted_at as int));
    assert(in_words(f0) =~= Seq::<char>::empty());
    assert(in_words(f1) =~= f1[0].0 + f1[0].1);
    assert(in_words(f3) + " }"@ == tombstone_text(t));
    each_is_said(f3, " }"@, 0);
    each_is_said(f3, " }"@, 1);
    each_is_said(f3, " }"@, 2);
}

/// What a device tells of itself is put into words field by field.
pub proof fn a_greeting_is_told_field_by_field(
    uid: String,
    name: String,
    platform: String,
    tracks: i64,
    playlists: i64,
    clock_ms: i64,
)
    ensures
        holds(
            msg_text(Msg::Hello { uid, name, platform, tracks, playlists, clock_ms }),
            "Hello { uid: "@ + quoted(uid@) + ", name: "@,
        ),
        holds(
            msg_text(Msg::Hello { uid, name, platform, tracks, playlists, clock_ms }),
            ", name: "@ + quoted(name@) + ", platform: "@,
        ),
        holds(
            msg_text(Msg::Hello { uid, name, platform, tracks, playlists, clock_ms }),
            ", platform: "@ + quoted(platform@) + ", tracks: "@,
        ),
        holds(
            msg_text(Msg::Hello { uid, name, platform, tracks, playlists, clock_ms }),
            ", tracks: "@ + signed_digits(tracks as int) + ", playlists: "@,
        ),
        holds(
            msg_text(Msg::Hello { uid, name, platform, tracks, playlists, clock_ms }),
            ", playlists: "@ + signed_digits(playlists as int) + ", clock_ms: "@,
        ),
        holds(
            msg_text(Msg::Hello { uid, name, platform, tracks, playlists, clock_ms }),
            ", clock_ms: "@ + signed_digits(clock_ms as int) + " }"@,
        ),
{
    let f0 = Seq::<(Seq<char>, Seq<char>)>::empty();
    let f1 = f0.push(("Hello { uid: "@, quoted(uid@)));
    assert(f1.drop_last() =~= f0);
    assert(in_words(f1) == in_words(f0) + "Hello { uid: "@ + quoted(uid@));
    let f2 = f1.push((", name: "@, quoted(name@)));
    assert(f2.drop_last() =~= f1);
    assert(in_words(f2) == in_words(f1) + ", name: "@ + quoted(name@));
    let f3 = f2.push((", platform: "@, quoted(platform@)));
    assert(f3.drop_last() =~= f2);
    assert(in_words(f3) == in_words(f2) + ", platform: "@ + quoted(platform@));
    let f4 = f3.push((", tracks: "@, signed_digits(tracks as int)));
    assert(f4.drop_last() =~= f3);
    assert(in_words(f4) == in_words(f3) + ", tracks: "@ + signed_digits(tracks as int));
    let f5 = f4.push((", playlists: "@, signed_digits(playlists as int)));
    assert(f5.drop_last() =~= f4);
    assert(in_words(f5) == in_words(f4) + ", playlists: "@ + signed_digits(playlists as int));
    let f6 = f5.push((", clock_ms: "@, signed_digits(clock_ms as int)));
    assert(f6.drop_last() =~= f5);
    assert(in_words(f6) == in_words(f5) + ", clock_ms: "@ + signed_digits(clock_ms as int));
    assert(in_words(f0) =~= Seq::<char>::empty());
    assert(in_words(f1) =~= f1[0].0 + f1[0].1);
    assert(in_words(f6) + " }"@ == msg_text(
        Msg::Hello { uid, name, platform, tracks, playlists, clock_ms },
    ));
    each_is_said(f6, " }"@, 0);
    each_is_said(f6, " }"@, 1);
    each_is_said(f6, " }"@, 2);
    each_is_said(f6, " }"@, 3);
    each_is_said(f6, " }"@, 4);
    each_is_said(f6, " }"@, 5);
}

} // verus!
