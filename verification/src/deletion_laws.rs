//! What becomes of deletions, and of playlists, when one device tells another of them.

use crate::library::{
    filter_is_part, playlist_id, playlist_uid_key, track_id, track_uid_key, LibraryView,
    PlaylistRowView, PlaylistTrackRowView, TrackRowView,
};
use crate::manifest::{
    manifest_of, playlist_entry, playlist_has_uid, tombstone_entry, PlaylistEntryView,
    TombstoneView,
};
use crate::merge::{
    all_taken, colon_at, deletion_taken, deletion_taken_wf, is_buried, joined, joined_and_recorded,
    metadata_taken, newer_ones, news_for, parent_taken, place_survives, playlist_is_news,
    playlist_taken, room_for, stages_wf, taken, tombstone_kept, tombstone_kept_wf, DeletePolicy,
};
use crate::merge_laws::{
    entries_differ, found_by_key, newer_playlists_stay_as_they_are, only_graves_are_dug,
    parents_are_found_in_any_order, playlist_is_old, the_newest_playlist_wins,
};
use crate::order_laws::places_stay_wf;
use crate::sync_laws::{
    every_playlist_arrives, filtered_is_there, has_colon, metadata_keeps_the_rest,
    nothing_else_changes_places, places_keep_tracks, row_has_its_entry,
};
use crate::table::{first_where, first_where_at, first_where_is_first, keyed, row_with};
use crate::tree::holds;
use vstd::prelude::*;

verus! {

// ---------------------------------------------------------------------------
// Deletions
// ---------------------------------------------------------------------------

proof fn deletions_keep_wf(l: LibraryView, c: Seq<TombstoneView>, kept: Set<Seq<char>>)
    requires
        l.wf(),
    ensures
        all_taken(l, c, deletion_taken(kept)).0.wf(),
    decreases c.len(),
{
    if c.len() > 0 {
        deletions_keep_wf(l, c.drop_last(), kept);
        deletion_taken_wf(all_taken(l, c.drop_last(), deletion_taken(kept)).0, kept, c.last());
    }
}

proof fn a_deletion_adds_nothing(l: LibraryView, t: TombstoneView, kept: Set<Seq<char>>)
    ensures
        ({
            let n = deletion_taken(kept)(l, t).0;
            &&& forall|i: int|
                0 <= i < n.tracks.len() ==> l.tracks.contains(#[trigger] n.tracks[i])
            &&& forall|i: int|
                0 <= i < n.playlists.len() ==> l.playlists.contains(#[trigger] n.playlists[i])
        }),
{
    if t.entity == "track"@ {
        if let Some(row) = row_with(l.tracks, track_uid_key(), Some(t.uid)) {
            let ids = seq![row.id];
            filter_is_part(l.tracks, |t: TrackRowView| !ids.contains(t.id));
        }
    } else if t.entity == "playlist"@ {
        if let Some(row) = row_with(l.playlists, playlist_uid_key(), Some(t.uid)) {
            let root = row.id;
            filter_is_part(
                l.playlists,
                |p: PlaylistRowView| !holds(l.playlists, root, p.id),
            );
        }
    }
}

/// Once deletions are carried out, no track of which one tells is there, unless it was
/// to be kept.
pub proof fn a_deleted_track_is_gone(
    l: LibraryView,
    c: Seq<TombstoneView>,
    kept: Set<Seq<char>>,
    i: int,
)
    requires
        l.wf(),
        0 <= i < c.len(),
        c[i].entity == "track"@,
        !kept.contains(c[i].uid),
    ensures
        forall|j: int|
            0 <= j < all_taken(l, c, deletion_taken(kept)).0.tracks.len() ==> (
            #[trigger] all_taken(l, c, deletion_taken(kept)).0.tracks[j]).uid != Some(c[i].uid),
    decreases c.len(),
{
    let t = c.drop_last();
    let a = all_taken(l, t, deletion_taken(kept)).0;
    let n = all_taken(l, c, deletion_taken(kept)).0;
    deletions_keep_wf(l, t, kept);
    a_deletion_adds_nothing(a, c.last(), kept);
    if i < c.len() - 1 {
        assert(t[i] == c[i]);
        a_deleted_track_is_gone(l, t, kept, i);
        assert forall|j: int| 0 <= j < n.tracks.len() implies (#[trigger] n.tracks[j]).uid != Some(
            c[i].uid,
        ) by {
            assert(a.tracks.contains(n.tracks[j]));
        }
    } else {
        let u = c[i].uid;
        found_by_key(a.tracks, track_uid_key(), Some(u));
        if let Some(row) = row_with(a.tracks, track_uid_key(), Some(u)) {
            let ids = seq![row.id];
            let k = first_where(a.tracks, keyed(track_uid_key(), Some(u)))->0;
            filter_is_part(a.tracks, |t: TrackRowView| !ids.contains(t.id));
            assert forall|j: int| 0 <= j < n.tracks.len() implies (#[trigger] n.tracks[j]).uid
                != Some(u) by {
                assert(a.tracks.contains(n.tracks[j]));
                let h = choose|h: int| 0 <= h < a.tracks.len() && a.tracks[h] == n.tracks[j];
                if n.tracks[j].uid == Some(u) {
                    assert(track_uid_key()(a.tracks[h]) == track_uid_key()(a.tracks[k]));
                    assert(h == k);
                    assert(ids[0] == n.tracks[j].id);
                    assert(ids.contains(n.tracks[j].id));
                }
            }
        } else {
            assert forall|j: int| 0 <= j < n.tracks.len() implies (#[trigger] n.tracks[j]).uid
                != Some(u) by {
                assert(track_uid_key()(a.tracks[j]) != Some(u));
            }
        }
    }
}

proof fn stays_in_filter<A>(s: Seq<A>, p: spec_fn(A) -> bool, x: A)
    requires
        s.contains(x),
        p(x),
    ensures
        s.filter(p).contains(x),
{
    let i = choose|i: int| 0 <= i < s.len() && s[i] == x;
    let k = filtered_is_there(s, p, i);
    assert(s.filter(p)[k] == x);
}

/// A track of which no deletion tells, or that was to be kept, stays as it is.
pub proof fn no_other_track_goes(
    l: LibraryView,
    c: Seq<TombstoneView>,
    kept: Set<Seq<char>>,
    row: TrackRowView,
)
    requires
        l.wf(),
        l.tracks.contains(row),
        forall|i: int|
            0 <= i < c.len() && (#[trigger] c[i]).entity == "track"@ && row.uid == Some(c[i].uid)
                ==> kept.contains(c[i].uid),
    ensures
        all_taken(l, c, deletion_taken(kept)).0.tracks.contains(row),
    decreases c.len(),
{
    if c.len() > 0 {
        let t = c.drop_last();
        let x = c.last();
        assert forall|i: int|
            0 <= i < t.len() && (#[trigger] t[i]).entity == "track"@ && row.uid == Some(
                t[i].uid,
            ) implies kept.contains(t[i].uid) by {
            assert(t[i] == c[i]);
        }
        no_other_track_goes(l, t, kept, row);
        let a = all_taken(l, t, deletion_taken(kept)).0;
        deletions_keep_wf(l, t, kept);
        if x.entity == "track"@ && !kept.contains(x.uid) {
            assert(c[c.len() - 1] == x);
            found_by_key(a.tracks, track_uid_key(), Some(x.uid));
            if let Some(gone) = row_with(a.tracks, track_uid_key(), Some(x.uid)) {
                let ids = seq![gone.id];
                let k = first_where(a.tracks, keyed(track_uid_key(), Some(x.uid)))->0;
                let h = choose|h: int| 0 <= h < a.tracks.len() && a.tracks[h] == row;
                if gone.id == row.id {
                    assert(track_id()(a.tracks[h]) == track_id()(a.tracks[k]));
                    assert(h == k);
                }
                assert(!ids.contains(row.id));
                stays_in_filter(a.tracks, |t: TrackRowView| !ids.contains(t.id), row);
            }
        }
    }
}

/// Once deletions are carried out, no playlist of which one tells is there, nor anything
/// that hung from it then.
pub proof fn a_deleted_playlist_is_gone(
    l: LibraryView,
    c: Seq<TombstoneView>,
    kept: Set<Seq<char>>,
    i: int,
)
    requires
        l.wf(),
        0 <= i < c.len(),
        c[i].entity == "playlist"@,
    ensures
        forall|j: int|
            0 <= j < all_taken(l, c, deletion_taken(kept)).0.playlists.len() ==> (
            #[trigger] all_taken(l, c, deletion_taken(kept)).0.playlists[j]).uid != Some(c[i].uid),
    decreases c.len(),
{
    let t = c.drop_last();
    let a = all_taken(l, t, deletion_taken(kept)).0;
    let n = all_taken(l, c, deletion_taken(kept)).0;
    deletions_keep_wf(l, t, kept);
    a_deletion_adds_nothing(a, c.last(), kept);
    reveal_strlit("track");
    reveal_strlit("playlist");
    assert("track"@.len() != "playlist"@.len());
    if i < c.len() - 1 {
        assert(t[i] == c[i]);
        a_deleted_playlist_is_gone(l, t, kept, i);
        assert forall|j: int| 0 <= j < n.playlists.len() implies (#[trigger] n.playlists[j]).uid
            != Some(c[i].uid) by {
            assert(a.playlists.contains(n.playlists[j]));
        }
    } else {
        let u = c[i].uid;
        found_by_key(a.playlists, playlist_uid_key(), Some(u));
        if let Some(row) = row_with(a.playlists, playlist_uid_key(), Some(u)) {
            let root = row.id;
            let k = first_where(a.playlists, keyed(playlist_uid_key(), Some(u)))->0;
            filter_is_part(a.playlists, |p: PlaylistRowView| !holds(a.playlists, root, p.id));
            crate::graph::root_is_reached(
                crate::tree::contains_directly(a.playlists),
                set![root],
                root,
            );
            assert forall|j: int| 0 <= j < n.playlists.len() implies (#[trigger] n.playlists[j]).uid
                != Some(u) by {
                assert(a.playlists.contains(n.playlists[j]));
                let h = choose|h: int| 0 <= h < a.playlists.len() && a.playlists[h] == n.playlists[j];
                if n.playlists[j].uid == Some(u) {
                    assert(playlist_uid_key()(a.playlists[h]) == playlist_uid_key()(
                        a.playlists[k],
                    ));
                    assert(h == k);
                }
            }
        } else {
            assert forall|j: int| 0 <= j < n.playlists.len() implies (#[trigger] n.playlists[j]).uid
                != Some(u) by {
                assert(playlist_uid_key()(a.playlists[j]) != Some(u));
            }
        }
    }
}

/// A removal from a playlist takes away the place that it names if that was not added
/// after it, and no other.
pub proof fn a_removal_takes_one_place_away(
    l: LibraryView,
    t: TombstoneView,
    kept: Set<Seq<char>>,
    playlist_uid: Seq<char>,
    track_uid: Seq<char>,
    row: PlaylistTrackRowView,
)
    requires
        l.wf(),
        t.entity == "playlist_track"@,
        t.uid == playlist_uid + ":"@ + track_uid,
        !has_colon(playlist_uid),
        l.playlist_tracks.contains(row),
    ensures
        ({
            let p = row_with(l.playlists, playlist_uid_key(), Some(playlist_uid));
            let s = row_with(l.tracks, track_uid_key(), Some(track_uid));
            let named = p is Some && s is Some && row.playlist_id == p->0.id && row.track_id
                == s->0.id;
            let n = deletion_taken(kept)(l, t).0;
            &&& n.playlist_tracks.contains(row) <==> !(named && row.added_at <= t.deleted_at)
            &&& n.tracks == l.tracks
            &&& n.playlists == l.playlists
            &&& n.tombstones == l.tombstones
        }),
{
    reveal_strlit("track");
    reveal_strlit("playlist");
    reveal_strlit("playlist_track");
    reveal_strlit(":");
    let n = playlist_uid.len() as int;
    let u = t.uid;
    assert(u[n] == ':');
    let q = |c: char| c == ':';
    assert forall|j: int| 0 <= j < n implies !q(#[trigger] u[j]) by {
        assert(u[j] == playlist_uid[j]);
    }
    first_where_at(u, q, n);
    assert(colon_at(u) == Some(n));
    assert(u.subrange(0, n) =~= playlist_uid);
    assert(u.subrange(n + 1, u.len() as int) =~= track_uid);
    let s = place_survives(l, playlist_uid, track_uid, t.deleted_at);
    assert("playlist_track"@.len() != "playlist"@.len());
    assert("playlist_track"@.len() != "track"@.len());
    assert(deletion_taken(kept)(l, t).0.playlist_tracks == l.playlist_tracks.filter(s));
    if s(row) {
        stays_in_filter(l.playlist_tracks, s, row);
    } else {
        filter_is_part(l.playlist_tracks, s);
        if l.playlist_tracks.filter(s).contains(row) {
            let k = choose|k: int|
                0 <= k < l.playlist_tracks.filter(s).len() && l.playlist_tracks.filter(s)[k] == row;
            assert(s(l.playlist_tracks.filter(s)[k]));
        }
    }
}

proof fn graves_keep_wf(l: LibraryView, c: Seq<TombstoneView>)
    requires
        l.wf(),
    ensures
        all_taken(l, c, tombstone_kept()).0.wf(),
    decreases c.len(),
{
    if c.len() > 0 {
        graves_keep_wf(l, c.drop_last());
        tombstone_kept_wf(all_taken(l, c.drop_last(), tombstone_kept()).0, c.last());
    }
}

proof fn recorded_is_wf(b: LibraryView, c: crate::merge::ChangesView)
    requires
        b.wf(),
        room_for(b, c),
    ensures
        joined_and_recorded(b, c).wf(),
{
    stages_wf(b, c);
    let l1 = all_taken(b, c.tracks, metadata_taken()).0;
    let l2 = all_taken(l1, c.playlists, playlist_taken()).0;
    let l3 = all_taken(l2, newer_ones(l1, c.playlists), parent_taken()).0;
    places_stay_wf(l3, c.memberships);
    graves_keep_wf(joined(b, c).library, c.tombstones);
}

/// What was deleted on `a` is gone on `b` once it has taken in what `a` told it, if `b`
/// lets deletions through and need not keep the track.
pub proof fn a_deletion_arrives(
    a: LibraryView,
    b: LibraryView,
    name_a: Seq<char>,
    name_b: Seq<char>,
    kept: Set<Seq<char>>,
    i: int,
)
    requires
        b.wf(),
        room_for(b, news_for(manifest_of(a, name_a), manifest_of(b, name_b))),
        0 <= i < a.tombstones.len(),
    ensures
        ({
            let told = news_for(manifest_of(a, name_a), manifest_of(b, name_b));
            let n = taken(b, told, DeletePolicy::Propagate, kept).library;
            let u = a.tombstones[i].uid;
            &&& a.tombstones[i].entity == "track"@ && !kept.contains(u) ==> forall|j: int|
                0 <= j < n.tracks.len() ==> (#[trigger] n.tracks[j]).uid != Some(u)
            &&& a.tombstones[i].entity == "playlist"@ ==> forall|j: int|
                0 <= j < n.playlists.len() ==> (#[trigger] n.playlists[j]).uid != Some(u)
        }),
{
    let told = news_for(manifest_of(a, name_a), manifest_of(b, name_b));
    let c = told.tombstones;
    let l5 = joined_and_recorded(b, told);
    recorded_is_wf(b, told);
    assert(c[i] == tombstone_entry()(a.tombstones[i]));
    if a.tombstones[i].entity == "track"@ && !kept.contains(a.tombstones[i].uid) {
        a_deleted_track_is_gone(l5, c, kept, i);
    }
    if a.tombstones[i].entity == "playlist"@ {
        a_deleted_playlist_is_gone(l5, c, kept, i);
    }
}

/// A track of `b` that `a` has not deleted is still there once `b` has taken in what
/// `a` told it, under the same id and with the same file.
pub proof fn what_was_not_deleted_stays(
    a: LibraryView,
    b: LibraryView,
    name_a: Seq<char>,
    name_b: Seq<char>,
    policy: DeletePolicy,
    kept: Set<Seq<char>>,
    j: int,
) -> (k: int)
    requires
        b.wf(),
        room_for(b, news_for(manifest_of(a, name_a), manifest_of(b, name_b))),
        0 <= j < b.tracks.len(),
        forall|i: int|
            0 <= i < a.tombstones.len() && (#[trigger] a.tombstones[i]).entity == "track"@
                ==> b.tracks[j].uid != Some(a.tombstones[i].uid),
    ensures
        ({
            let told = news_for(manifest_of(a, name_a), manifest_of(b, name_b));
            let n = taken(b, told, policy, kept).library;
            &&& 0 <= k < n.tracks.len()
            &&& same_file(n.tracks[k], b.tracks[j])
        }),
{
    let told = news_for(manifest_of(a, name_a), manifest_of(b, name_b));
    let c = told.tombstones;
    let l4 = joined(b, told).library;
    let l5 = joined_and_recorded(b, told);
    let n = taken(b, told, policy, kept).library;
    recorded_is_wf(b, told);
    crate::sync_laws::nothing_else_changes_tracks(b, told);
    only_graves_are_dug(l4, c);
    files_stay(b, told.tracks);
    let row = l5.tracks[j];
    assert(same_file(row, b.tracks[j]));
    if policy == DeletePolicy::Propagate {
        assert forall|i: int|
            0 <= i < c.len() && (#[trigger] c[i]).entity == "track"@ && row.uid == Some(
                c[i].uid,
            ) implies kept.contains(c[i].uid) by {
            assert(c[i] == tombstone_entry()(a.tombstones[i]));
        }
        assert(l5.tracks.contains(row));
        no_other_track_goes(l5, c, kept, row);
        choose|k: int| 0 <= k < n.tracks.len() && n.tracks[k] == row
    } else {
        j
    }
}

/// Two rows are of the same track, with the same file.
pub open spec fn same_file(x: TrackRowView, y: TrackRowView) -> bool {
    &&& x.id == y.id
    &&& x.uid == y.uid
    &&& x.path == y.path
    &&& x.rel_path == y.rel_path
    &&& x.content_hash == y.content_hash
    &&& x.size_bytes == y.size_bytes
    &&& x.mtime_ms == y.mtime_ms
    &&& x.local_state == y.local_state
}

/// Metadata that come from elsewhere touch nothing of a track's file.
pub proof fn files_stay(l: LibraryView, c: Seq<crate::manifest::TrackEntryView>)
    ensures
        ({
            let n = all_taken(l, c, metadata_taken()).0;
            &&& n.tracks.len() == l.tracks.len()
            &&& forall|j: int|
                0 <= j < l.tracks.len() ==> same_file(#[trigger] n.tracks[j], l.tracks[j])
        }),
    decreases c.len(),
{
    if c.len() > 0 {
        files_stay(l, c.drop_last());
        let m = all_taken(l, c.drop_last(), metadata_taken()).0;
        let n = all_taken(l, c, metadata_taken()).0;
        first_where_is_first(m.tracks, keyed(track_uid_key(), Some(c.last().uid)));
        assert forall|j: int| 0 <= j < l.tracks.len() implies same_file(
            #[trigger] n.tracks[j],
            l.tracks[j],
        ) by {
            assert(same_file(m.tracks[j], l.tracks[j]));
        }
    }
}

// ---------------------------------------------------------------------------
// Playlists
// ---------------------------------------------------------------------------

pub(crate) proof fn playlists_are_told_once(
    a: LibraryView,
    name: Seq<char>,
    p: spec_fn(PlaylistEntryView) -> bool,
)
    requires
        a.wf(),
    ensures
        entries_differ(manifest_of(a, name).playlists.filter(p)),
{
    let es = manifest_of(a, name).playlists;
    crate::library::distinct_some_filter(a.playlists, playlist_has_uid(), playlist_uid_key());
    let kept = a.playlists.filter(playlist_has_uid());
    filter_is_part(a.playlists, playlist_has_uid());
    assert forall|i: int, j: int| 0 <= i < j < es.len() implies
        crate::manifest::playlist_entry_uid()(#[trigger] es[i])
        != crate::manifest::playlist_entry_uid()(#[trigger] es[j]) by {
        assert(playlist_has_uid()(kept[i]) && playlist_has_uid()(kept[j]));
        assert(playlist_uid_key()(kept[i]) is Some);
        assert(playlist_uid_key()(kept[i]) != playlist_uid_key()(kept[j]));
    }
    crate::library::distinct_filter(es, p, crate::manifest::playlist_entry_uid());
    let s = es.filter(p);
    assert forall|i: int, j: int| 0 <= i < j < s.len() implies (#[trigger] s[i]).uid != (
    #[trigger] s[j]).uid by {
        assert(crate::manifest::playlist_entry_uid()(s[i])
            != crate::manifest::playlist_entry_uid()(s[j]));
    }
}

/// A playlist of `a` that `b` lacks or has older, and has not deleted, is on `b` just
/// as it is on `a`, once `b` has taken in what `a` told it: its name, whether it is a
/// folder, its rank, its clock, and the folder in which it lies.
pub proof fn the_newer_playlist_arrives_as_it_is(
    a: LibraryView,
    b: LibraryView,
    name_a: Seq<char>,
    name_b: Seq<char>,
    i: int,
)
    requires
        a.wf(),
        b.wf(),
        0 <= i < a.playlists.len(),
        a.playlists[i].uid is Some,
        !is_buried(b, "playlist"@, a.playlists[i].uid->0),
        forall|j: int|
            0 <= j < b.playlists.len() && (#[trigger] b.playlists[j]).uid == a.playlists[i].uid
                ==> b.playlists[j].updated_at < a.playlists[i].updated_at,
    ensures
        ({
            let told = news_for(manifest_of(a, name_a), manifest_of(b, name_b));
            let after = joined(b, told).library.playlists;
            match row_with(after, playlist_uid_key(), a.playlists[i].uid) {
                Some(p) => {
                    &&& p.name == a.playlists[i].name
                    &&& p.kind == a.playlists[i].kind
                    &&& p.rank == a.playlists[i].rank
                    &&& p.updated_at == a.playlists[i].updated_at
                    &&& a.playlists[i].parent_id is None ==> p.parent_id is None
                    &&& forall|q: int|
                        0 <= q < a.playlists.len() && a.playlists[i].parent_id == Some(
                            (#[trigger] a.playlists[q]).id,
                        ) && a.playlists[q].uid is Some && !is_buried(
                            b,
                            "playlist"@,
                            a.playlists[q].uid->0,
                        ) ==> match row_with(after, playlist_uid_key(), a.playlists[q].uid) {
                            Some(folder) => p.parent_id == Some(folder.id),
                            None => false,
                        }
                },
                None => false,
            }
        }),
{
    let ma = manifest_of(a, name_a);
    let mb = manifest_of(b, name_b);
    let told = news_for(ma, mb);
    let c = told.playlists;
    let u = a.playlists[i].uid->0;
    let e = playlist_entry(a)(a.playlists[i]);
    let news = playlist_is_news(mb);
    let l1 = all_taken(b, told.tracks, metadata_taken()).0;
    let l2 = all_taken(l1, c, playlist_taken()).0;
    let l3 = all_taken(l2, newer_ones(l1, c), parent_taken()).0;
    metadata_keeps_the_rest(b, told.tracks);
    nothing_else_changes_places(b, told);
    places_keep_tracks(l3, told.memberships);
    assert(joined(b, told).library.playlists == l3.playlists);
    playlists_are_told_once(a, name_a, news);
    let at = row_has_its_entry(a.playlists, playlist_has_uid(), playlist_entry(a), i);
    is_told(a, b, name_a, name_b, i);
    let k = filtered_is_there(ma.playlists, news, at);
    assert(c[k] == e);
    first_where_is_first(b.playlists, keyed(playlist_uid_key(), Some(u)));
    assert(!playlist_is_old(l1, c[k]));
    the_newest_playlist_wins(l1, c, k);
    parents_are_found_in_any_order(l1, c, k);
    let after = l3.playlists;
    let p = row_with(after, playlist_uid_key(), Some(u))->0;
    assert forall|q: int|
        0 <= q < a.playlists.len() && a.playlists[i].parent_id == Some((#[trigger] a.playlists[q]).id)
            && a.playlists[q].uid is Some && !is_buried(
            b,
            "playlist"@,
            a.playlists[q].uid->0,
        ) implies match row_with(after, playlist_uid_key(), a.playlists[q].uid) {
        Some(folder) => p.parent_id == Some(folder.id),
        None => false,
    } by {
        every_playlist_arrives(a, b, name_a, name_b, q);
        let key = keyed(playlist_id(), a.playlists[q].id);
        assert forall|h: int| 0 <= h < q implies !key(#[trigger] a.playlists[h]) by {
            assert(playlist_id()(a.playlists[h]) != playlist_id()(a.playlists[q]));
        }
        first_where_at(a.playlists, key, q);
        assert(e.parent_uid == a.playlists[q].uid);
    }
}

proof fn is_told(a: LibraryView, b: LibraryView, name_a: Seq<char>, name_b: Seq<char>, i: int)
    requires
        0 <= i < a.playlists.len(),
        a.playlists[i].uid is Some,
        !is_buried(b, "playlist"@, a.playlists[i].uid->0),
        forall|j: int|
            0 <= j < b.playlists.len() && (#[trigger] b.playlists[j]).uid == a.playlists[i].uid
                ==> b.playlists[j].updated_at < a.playlists[i].updated_at,
    ensures
        playlist_is_news(manifest_of(b, name_b))(playlist_entry(a)(a.playlists[i])),
{
    let mb = manifest_of(b, name_b);
    let u = a.playlists[i].uid->0;
    crate::sync_laws::entry_of_the_row(
        b.playlists,
        playlist_has_uid(),
        playlist_entry(b),
        playlist_uid_key(),
        crate::manifest::playlist_entry_uid(),
        u,
    );
    found_by_key(b.playlists, playlist_uid_key(), Some(u));
    let grave = keyed(crate::library::tombstone_key(), ("playlist"@, u));
    first_where_is_first(b.tombstones, grave);
    assert(!crate::manifest::has_tombstone_for(mb.tombstones, "playlist"@, u)) by {
        if crate::manifest::has_tombstone_for(mb.tombstones, "playlist"@, u) {
            let k = choose|k: int|
                0 <= k < mb.tombstones.len() && (#[trigger] mb.tombstones[k]).entity == "playlist"@
                    && mb.tombstones[k].uid == u;
            assert(mb.tombstones[k] == tombstone_entry()(b.tombstones[k]));
            assert(!grave(b.tombstones[k]));
        }
    }
}

/// A playlist of `b` that `a` does not have newer stays as it is: name, kind, rank,
/// folder and clock.
pub proof fn the_newer_playlist_is_left_alone(
    a: LibraryView,
    b: LibraryView,
    name_a: Seq<char>,
    name_b: Seq<char>,
    j: int,
)
    requires
        b.wf(),
        0 <= j < b.playlists.len(),
        b.playlists[j].uid is Some,
        forall|i: int|
            0 <= i < a.playlists.len() && (#[trigger] a.playlists[i]).uid == b.playlists[j].uid
                ==> a.playlists[i].updated_at <= b.playlists[j].updated_at,
    ensures
        ({
            let told = news_for(manifest_of(a, name_a), manifest_of(b, name_b));
            row_with(joined(b, told).library.playlists, playlist_uid_key(), b.playlists[j].uid)
                == Some(b.playlists[j])
        }),
{
    let ma = manifest_of(a, name_a);
    let mb = manifest_of(b, name_b);
    let told = news_for(ma, mb);
    let c = told.playlists;
    let u = b.playlists[j].uid->0;
    let news = playlist_is_news(mb);
    let l1 = all_taken(b, told.tracks, metadata_taken()).0;
    let l2 = all_taken(l1, c, playlist_taken()).0;
    let l3 = all_taken(l2, newer_ones(l1, c), parent_taken()).0;
    metadata_keeps_the_rest(b, told.tracks);
    places_keep_tracks(l3, told.memberships);
    let key = keyed(playlist_uid_key(), Some(u));
    assert forall|h: int| 0 <= h < j implies !key(#[trigger] b.playlists[h]) by {
        if playlist_uid_key()(b.playlists[h]) is Some {
            assert(playlist_uid_key()(b.playlists[h]) != playlist_uid_key()(b.playlists[j]));
        }
    }
    first_where_at(b.playlists, key, j);
    assert forall|k: int| 0 <= k < c.len() && (#[trigger] c[k]).uid == u implies playlist_is_old(
        l1,
        c[k],
    ) by {
        filter_is_part(ma.playlists, news);
        assert(ma.playlists.contains(c[k]));
        let n = choose|n: int| 0 <= n < ma.playlists.len() && ma.playlists[n] == c[k];
        let i = crate::sync_laws::entry_has_its_row(
            a.playlists,
            playlist_has_uid(),
            playlist_entry(a),
            n,
        );
        assert(a.playlists[i].uid == Some(u));
    }
    newer_playlists_stay_as_they_are(l1, c, u);
}

} // verus!
