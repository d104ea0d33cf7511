//! Where tracks land that are moved, and what is recorded of those that go.

use crate::db::{all_recorded, recorded_deletions_are_found, recording_keeps_the_rest};
use crate::export_xml::{children, firsts, item_ids, tracks_below, tracks_of_kids};
use crate::library::{
    distinct, filter_is_part, pair_of, LibraryView, PlaylistTrackRowView, TombstoneRowView,
    TrackRowView,
};
use crate::manifest::TrackEntryView;
use crate::merge::{all_taken, joined, metadata_taken, news_for, track_is_news};
use crate::plan_laws::each_once;
use crate::table::{first_where, first_where_is_first, keyed};
use crate::tracks::{
    block_moved, ids_of, in_block, keys_in, not_lifted, out_of_block, picked, picked_holds, places,
    ranks_ascend, reordering_gives_the_order_asked_for, slot_at, track_uid_of, tracks_added,
    tracks_removed, tracks_reordered,
};
use crate::tree::{playlist_uid_of, touched, PlaylistNodeView};
use vstd::prelude::*;

verus! {

// ---------------------------------------------------------------------------
// Moving a block
// ---------------------------------------------------------------------------

proof fn prefix_filter<A>(s: Seq<A>, p: spec_fn(A) -> bool, k: int)
    requires
        0 <= k <= s.len(),
    ensures
        s.filter(p) == s.take(k).filter(p) + s.skip(k).filter(p),
{
    reveal(Seq::filter);
    if s.len() == k {
        assert(s.take(k) =~= s);
        assert(s.skip(k) =~= Seq::empty());
        assert(s.skip(k).filter(p) =~= Seq::empty());
        assert(s.filter(p) =~= s.take(k).filter(p) + s.skip(k).filter(p));
    } else {
        prefix_filter_short(s, p, k);
    }
}

proof fn prefix_filter_short<A>(s: Seq<A>, p: spec_fn(A) -> bool, k: int)
    requires
        0 <= k < s.len(),
    ensures
        s.filter(p) == s.take(k).filter(p) + s.skip(k).filter(p),
    decreases s.len(),
{
    reveal(Seq::filter);
    let t = s.drop_last();
    let u = s.skip(k);
    assert(u.last() == s.last());
    if k == s.len() - 1 {
        assert(s.take(k) =~= t);
        assert(u.drop_last() =~= Seq::empty());
        assert(u.drop_last().filter(p) =~= Seq::empty());
        assert(s.filter(p) =~= s.take(k).filter(p) + u.filter(p));
    } else {
        prefix_filter_short(t, p, k);
        assert(t.take(k) =~= s.take(k));
        assert(t.skip(k) =~= u.drop_last());
        assert(s.filter(p) =~= s.take(k).filter(p) + u.filter(p));
    }
}

/// A block of tracks that is dropped at an index of a playlist stands there: behind the
/// tracks that stood before that index and stay, and before those that stood at it or
/// behind it and stay, each of the three in the order it had.
pub proof fn a_block_lands_where_it_was_dropped(
    members: Seq<PlaylistTrackRowView>,
    playlist: i64,
    ids: Seq<i64>,
    index: i64,
)
    requires
        distinct(members, pair_of()),
        ranks_ascend(places(members, playlist)),
        forall|i: int|
            0 <= i < places(members, playlist).len() ==> (#[trigger] places(
                members,
                playlist,
            )[i]).rank.len() > 0,
    ensures
        ({
            let was = places(members, playlist);
            let end = if index < 0 {
                0
            } else if index > was.len() {
                was.len() as int
            } else {
                index as int
            };
            let stays = |m: PlaylistTrackRowView| !ids.contains(m.track_id);
            let moves = |m: PlaylistTrackRowView| ids.contains(m.track_id);
            ids_of(places(block_moved(members, playlist, ids, index), playlist)) == ids_of(
                was.take(end).filter(stays),
            ) + ids_of(was.filter(moves)) + ids_of(was.skip(end).filter(stays))
        }),
{
    let was = places(members, playlist);
    let end = if index < 0 {
        0
    } else if index > was.len() {
        was.len() as int
    } else {
        index as int
    };
    let stays = |m: PlaylistTrackRowView| !ids.contains(m.track_id);
    let moves = |m: PlaylistTrackRowView| ids.contains(m.track_id);
    reordering_gives_the_order_asked_for(members, playlist, ids, index);
    assert(stays =~= out_of_block(ids));
    assert(moves =~= in_block(ids));
    let staying = was.filter(stays);
    let slot = slot_at(was, ids, index) as int;
    prefix_filter(was, stays, end);
    assert(slot == was.take(end).filter(stays).len());
    assert(staying.take(slot) =~= was.take(end).filter(stays));
    assert(staying.skip(slot) =~= was.skip(end).filter(stays));
}

/// Moving tracks inside a playlist marks that playlist as changed, and touches no other
/// table.
pub proof fn moving_tracks_marks_the_playlist(
    l: LibraryView,
    playlist: i64,
    ids: Seq<i64>,
    index: i64,
    now: i64,
    i: int,
)
    requires
        0 <= i < l.playlists.len(),
    ensures
        ({
            let n = tracks_reordered(l, playlist, ids, index, now);
            &&& n.tracks == l.tracks
            &&& n.tombstones == l.tombstones
            &&& n.playlists.len() == l.playlists.len()
            &&& l.playlists[i].id == playlist ==> n.playlists[i].updated_at == now
            &&& l.playlists[i].id != playlist ==> n.playlists[i] == l.playlists[i]
            &&& n.playlist_tracks.len() == l.playlist_tracks.len()
            &&& forall|k: int|
                0 <= k < l.playlist_tracks.len() ==> (#[trigger] n.playlist_tracks[k]).track_id
                    == l.playlist_tracks[k].track_id && n.playlist_tracks[k].playlist_id
                    == l.playlist_tracks[k].playlist_id && n.playlist_tracks[k].added_at
                    == l.playlist_tracks[k].added_at
        }),
{
}

// ---------------------------------------------------------------------------
// What is recorded
// ---------------------------------------------------------------------------

/// The names of the pairs are made of the uids of the tracks, one by one.
proof fn keys_are_pairs(l: LibraryView, playlist: i64, ids: Seq<i64>, playlist_uid: Seq<char>)
    requires
        playlist_uid_of(l, playlist) == Some(playlist_uid),
    ensures
        keys_in(l, playlist, ids).len() == picked(ids, track_uid_of(l)).len(),
        forall|h: int|
            0 <= h < keys_in(l, playlist, ids).len() ==> #[trigger] keys_in(l, playlist, ids)[h]
                == playlist_uid + ":"@ + picked(ids, track_uid_of(l))[h],
{
}

proof fn pair_is_among_the_keys(
    l: LibraryView,
    playlist: i64,
    ids: Seq<i64>,
    i: int,
    playlist_uid: Seq<char>,
    track_uid: Seq<char>,
) -> (k: int)
    requires
        0 <= i < ids.len(),
        playlist_uid_of(l, playlist) == Some(playlist_uid),
        track_uid_of(l)(ids[i]) == Some(track_uid),
    ensures
        0 <= k < keys_in(l, playlist, ids).len(),
        keys_in(l, playlist, ids)[k] == playlist_uid + ":"@ + track_uid,
{
    let uids = picked(ids, track_uid_of(l));
    picked_holds(ids, track_uid_of(l), i);
    let k = choose|k: int| 0 <= k < uids.len() && uids[k] == track_uid;
    keys_are_pairs(l, playlist, ids, playlist_uid);
    assert(keys_in(l, playlist, ids)[k] == playlist_uid + ":"@ + uids[k]);
    k
}

/// Taking a track out of a playlist is recorded under the uid of the playlist, a colon
/// and the uid of the track, at that moment; the playlist counts as changed.
pub proof fn taking_a_track_out_is_recorded_as_that_pair(
    l: LibraryView,
    playlist: i64,
    ids: Seq<i64>,
    now: i64,
    fresh: Seq<char>,
    i: int,
    playlist_uid: Seq<char>,
    track_uid: Seq<char>,
)
    requires
        0 <= i < ids.len(),
        playlist_uid_of(l, playlist) == Some(playlist_uid),
        track_uid_of(l)(ids[i]) == Some(track_uid),
    ensures
        ({
            let m = tracks_removed(l, playlist, ids, now, fresh);
            &&& exists|j: int|
                0 <= j < m.tombstones.len() && (#[trigger] m.tombstones[j]).entity
                    == "playlist_track"@ && m.tombstones[j].uid == playlist_uid + ":"@ + track_uid
                    && m.tombstones[j].deleted_at == now
            &&& m.playlists == touched(l.playlists, playlist, now)
            &&& m.tracks == l.tracks
        }),
{
    let uids = picked(ids, track_uid_of(l));
    let keys = keys_in(l, playlist, ids);
    let k = pair_is_among_the_keys(l, playlist, ids, i, playlist_uid, track_uid);
    let without = LibraryView {
        playlist_tracks: l.playlist_tracks.filter(crate::tracks::not_removed(playlist, ids)),
        playlists: touched(l.playlists, playlist, now),
        ..l
    };
    recording_keeps_the_rest(without, "playlist_track"@, keys, now, fresh);
    recorded_deletions_are_found(without, "playlist_track"@, keys, now, fresh, k);
    let m = tracks_removed(l, playlist, ids, now, fresh);
    assert(m == all_recorded(without, "playlist_track"@, keys, now, fresh));
    let j = choose|j: int|
        0 <= j < m.tombstones.len() && (#[trigger] m.tombstones[j]).entity == "playlist_track"@
            && m.tombstones[j].uid == keys[k] && m.tombstones[j].deleted_at == now;
    assert(m.tombstones[j].uid == playlist_uid + ":"@ + track_uid);
}

/// Putting a track into a playlist lifts the record that it was taken out, that record
/// alone and those of the other tracks put in; the playlist counts as changed.
pub proof fn putting_a_track_in_lifts_its_record(
    l: LibraryView,
    playlist: i64,
    ids: Seq<i64>,
    now: i64,
    i: int,
    playlist_uid: Seq<char>,
    track_uid: Seq<char>,
    t: TombstoneRowView,
)
    requires
        0 <= i < ids.len(),
        playlist_uid_of(l, playlist) == Some(playlist_uid),
        track_uid_of(l)(ids[i]) == Some(track_uid),
        l.tombstones.contains(t),
    ensures
        ({
            let m = tracks_added(l, playlist, ids, now);
            &&& forall|j: int|
                0 <= j < m.tombstones.len() ==> !((#[trigger] m.tombstones[j]).entity
                    == "playlist_track"@ && m.tombstones[j].uid == playlist_uid + ":"@ + track_uid)
            &&& t.entity != "playlist_track"@ ==> m.tombstones.contains(t)
            &&& (forall|k: int|
                0 <= k < ids.len() && #[trigger] track_uid_of(l)(ids[k]) is Some ==> t.uid
                    != playlist_uid + ":"@ + track_uid_of(l)(ids[k])->0) ==> m.tombstones.contains(t)
            &&& m.playlists == touched(l.playlists, playlist, now)
            &&& m.tracks == l.tracks
        }),
{
    let uids = picked(ids, track_uid_of(l));
    let keys = keys_in(l, playlist, ids);
    let k = pair_is_among_the_keys(l, playlist, ids, i, playlist_uid, track_uid);
    let p = not_lifted(keys);
    filter_is_part(l.tombstones, p);
    let m = tracks_added(l, playlist, ids, now);
    assert forall|j: int| 0 <= j < m.tombstones.len() implies !((
    #[trigger] m.tombstones[j]).entity == "playlist_track"@ && m.tombstones[j].uid == playlist_uid
        + ":"@ + track_uid) by {
        assert(p(m.tombstones[j]));
        assert(keys.contains(keys[k]));
    }
    crate::tree_laws::kept_exactly(l.tombstones, p, t);
    if forall|k: int|
        0 <= k < ids.len() && #[trigger] track_uid_of(l)(ids[k]) is Some ==> t.uid != playlist_uid
            + ":"@ + track_uid_of(l)(ids[k])->0 {
        if keys.contains(t.uid) {
            let h = choose|h: int| 0 <= h < keys.len() && keys[h] == t.uid;
            keys_are_pairs(l, playlist, ids, playlist_uid);
            let n = picked_from(ids, track_uid_of(l), h);
            assert(keys[h] == playlist_uid + ":"@ + track_uid_of(l)(ids[n])->0);
        }
    }
}

proof fn picked_from(ids: Seq<i64>, f: spec_fn(i64) -> Option<Seq<char>>, h: int) -> (n: int)
    requires
        0 <= h < picked(ids, f).len(),
    ensures
        0 <= n < ids.len(),
        f(ids[n]) == Some(picked(ids, f)[h]),
    decreases ids.len(),
{
    let t = ids.drop_last();
    let p = picked(t, f);
    if h < p.len() {
        let n = picked_from(t, f, h);
        assert(t[n] == ids[n]);
        assert(picked(ids, f)[h] == p[h]);
        n
    } else {
        ids.len() - 1
    }
}

// ---------------------------------------------------------------------------
// What folders list
// ---------------------------------------------------------------------------

/// Of ids that come more than once the first counts: each is listed once, and those that
/// are new keep their order at the end.
pub proof fn each_id_is_listed_once(ids: Seq<i64>, x: i64)
    ensures
        firsts(ids).no_duplicates(),
        forall|i: int| 0 <= i < ids.len() ==> firsts(ids).contains(#[trigger] ids[i]),
        firsts(ids).contains(x) ==> firsts(ids.push(x)) == firsts(ids),
        !firsts(ids).contains(x) ==> firsts(ids.push(x)) == firsts(ids).push(x),
    decreases ids.len(),
{
    assert(ids.push(x).drop_last() =~= ids);
    if ids.len() > 0 {
        let t = ids.drop_last();
        let y = ids.last();
        each_id_is_listed_once(t, y);
        let e = firsts(t);
        assert forall|i: int| 0 <= i < ids.len() implies firsts(ids).contains(#[trigger] ids[i]) by {
            if i < t.len() {
                assert(t[i] == ids[i]);
                let k = choose|k: int| 0 <= k < e.len() && e[k] == t[i];
                assert(firsts(ids)[k] == t[i]);
            } else if e.contains(y) {
            } else {
                assert(firsts(ids)[e.len() as int] == y);
            }
        }
    }
}

/// The tracks below a folder are its own, and behind them those of its nodes, one node
/// behind another in their order.
pub proof fn a_folder_lists_its_nodes_in_order(
    l: LibraryView,
    nodes: Seq<PlaylistNodeView>,
    kids: Seq<PlaylistNodeView>,
    kid: PlaylistNodeView,
    id: i64,
    depth: nat,
)
    ensures
        kid.kind != "folder"@ ==> tracks_of_kids(l, nodes, kids.push(kid), depth) == tracks_of_kids(
            l,
            nodes,
            kids,
            depth,
        ) + item_ids(l, kid.id),
        kid.kind == "folder"@ ==> tracks_of_kids(l, nodes, kids.push(kid), depth) == tracks_of_kids(
            l,
            nodes,
            kids,
            depth,
        ) + tracks_below(l, nodes, kid.id, depth),
        tracks_below(l, nodes, id, depth + 1) == firsts(
            item_ids(l, id) + tracks_of_kids(l, nodes, children(nodes, Some(id)), depth),
        ),
{
    assert(kids.push(kid).drop_last() =~= kids);
    assert(kids.push(kid).last() == kid);
}

// ---------------------------------------------------------------------------
// How much changed
// ---------------------------------------------------------------------------

proof fn all_count(l: LibraryView, c: Seq<TrackEntryView>)
    requires
        each_once(c),
        forall|k: int|
            0 <= k < c.len() ==> match crate::table::row_with(
                l.tracks,
                crate::library::track_uid_key(),
                Some((#[trigger] c[k]).uid),
            ) {
                Some(t) => c[k].updated_at > t.updated_at,
                None => false,
            },
    ensures
        all_taken(l, c, metadata_taken()).1 == c.len(),
        forall|u: Seq<char>|
            (forall|k: int| 0 <= k < c.len() ==> (#[trigger] c[k]).uid != u)
                ==> #[trigger] crate::table::row_with(
                all_taken(l, c, metadata_taken()).0.tracks,
                crate::library::track_uid_key(),
                Some(u),
            ) == crate::table::row_with(l.tracks, crate::library::track_uid_key(), Some(u)),
    decreases c.len(),
{
    if c.len() > 0 {
        let key = crate::library::track_uid_key();
        let t = c.drop_last();
        let x = c.last();
        assert forall|i: int, j: int| 0 <= i < j < t.len() implies (#[trigger] t[i]).uid != (
        #[trigger] t[j]).uid by {
            assert(c[i].uid != c[j].uid);
        }
        assert forall|k: int| 0 <= k < t.len() implies match crate::table::row_with(
            l.tracks,
            key,
            Some((#[trigger] t[k]).uid),
        ) {
            Some(r) => t[k].updated_at > r.updated_at,
            None => false,
        } by {
            assert(t[k] == c[k]);
        }
        all_count(l, t);
        assert forall|k: int| 0 <= k < t.len() implies (#[trigger] t[k]).uid != x.uid by {
            assert(c[k].uid != c[c.len() - 1].uid);
        }
        let a = all_taken(l, t, metadata_taken()).0;
        let n = all_taken(l, c, metadata_taken()).0;
        assert(c[c.len() - 1] == x);
        assert(crate::table::row_with(a.tracks, key, Some(x.uid)) == crate::table::row_with(
            l.tracks,
            key,
            Some(x.uid),
        ));
        crate::merge_laws::found_by_key(a.tracks, key, Some(x.uid));
        let i = first_where(a.tracks, keyed(key, Some(x.uid)))->0;
        let row = crate::merge::with_metadata(a.tracks[i], x);
        assert forall|u: Seq<char>|
            (forall|k: int| 0 <= k < c.len() ==> (#[trigger] c[k]).uid != u) implies
            #[trigger] crate::table::row_with(n.tracks, key, Some(u)) == crate::table::row_with(
            l.tracks,
            key,
            Some(u),
        ) by {
            assert(c[c.len() - 1].uid != u);
            assert forall|k: int| 0 <= k < t.len() implies (#[trigger] t[k]).uid != u by {
                assert(c[k].uid != u);
            }
            crate::table::row_with_update(a.tracks, key, i, row, Some(u));
        }
    }
}

/// As many tracks change as were told of: what one device tells another is what is older
/// there, and all of it is taken in and counted.
pub proof fn all_that_is_told_is_counted(
    a: LibraryView,
    b: LibraryView,
    name_a: Seq<char>,
    name_b: Seq<char>,
)
    requires
        a.wf(),
        b.wf(),
    ensures
        ({
            let told = news_for(
                crate::manifest::manifest_of(a, name_a),
                crate::manifest::manifest_of(b, name_b),
            );
            joined(b, told).tracks == told.tracks.len()
        }),
{
    let ma = crate::manifest::manifest_of(a, name_a);
    let mb = crate::manifest::manifest_of(b, name_b);
    let told = news_for(ma, mb);
    let c = told.tracks;
    let p = track_is_news(mb);
    let f = |t: TrackRowView| crate::manifest::track_entry(t);
    crate::sync_laws::entries_differ(a.tracks);
    crate::sync_laws::part_of_one_each(ma.tracks, p);
    filter_is_part(ma.tracks, p);
    assert forall|k: int| 0 <= k < c.len() implies match crate::table::row_with(
        b.tracks,
        crate::library::track_uid_key(),
        Some((#[trigger] c[k]).uid),
    ) {
        Some(t) => c[k].updated_at > t.updated_at,
        None => false,
    } by {
        assert(p(c[k]));
        crate::sync_laws::entry_of_the_row(
            b.tracks,
            crate::manifest::track_has_uid(),
            f,
            crate::library::track_uid_key(),
            crate::manifest::track_entry_uid(),
            c[k].uid,
        );
    }
    all_count(b, c);
}

proof fn all_playlists_count(l: LibraryView, c: Seq<crate::manifest::PlaylistEntryView>)
    requires
        crate::merge_laws::entries_differ(c),
        forall|k: int|
            0 <= k < c.len() ==> !crate::merge_laws::playlist_is_old(l, #[trigger] c[k]),
    ensures
        all_taken(l, c, crate::merge::playlist_taken()).1 == c.len(),
    decreases c.len(),
{
    if c.len() > 0 {
        let t = c.drop_last();
        let x = c.last();
        let key = crate::library::playlist_uid_key();
        assert forall|i: int, j: int| 0 <= i < j < t.len() implies (#[trigger] t[i]).uid != (
        #[trigger] t[j]).uid by {
            assert(c[i].uid != c[j].uid);
        }
        assert forall|k: int| 0 <= k < t.len() implies !crate::merge_laws::playlist_is_old(
            l,
            #[trigger] t[k],
        ) by {
            assert(t[k] == c[k]);
        }
        all_playlists_count(l, t);
        assert forall|j: int| 0 <= j < t.len() implies (#[trigger] t[j]).uid != x.uid by {
            assert(c[j].uid != c[c.len() - 1].uid);
        }
        crate::merge_laws::other_entries_keep_row(l, t, x.uid);
        let a = all_taken(l, t, crate::merge::playlist_taken()).0;
        crate::merge_laws::found_by_key(a.playlists, key, Some(x.uid));
        crate::merge_laws::found_by_key(l.playlists, key, Some(x.uid));
        assert(!crate::merge_laws::playlist_is_old(l, c[c.len() - 1]));
    }
}

/// As many playlists change as were told of.
pub proof fn all_playlists_that_are_told_are_counted(
    a: LibraryView,
    b: LibraryView,
    name_a: Seq<char>,
    name_b: Seq<char>,
)
    requires
        a.wf(),
        b.wf(),
    ensures
        ({
            let told = news_for(
                crate::manifest::manifest_of(a, name_a),
                crate::manifest::manifest_of(b, name_b),
            );
            joined(b, told).playlists == told.playlists.len()
        }),
{
    let ma = crate::manifest::manifest_of(a, name_a);
    let mb = crate::manifest::manifest_of(b, name_b);
    let told = news_for(ma, mb);
    let c = told.playlists;
    let p = crate::merge::playlist_is_news(mb);
    let l1 = all_taken(b, told.tracks, metadata_taken()).0;
    let key = crate::library::playlist_uid_key();
    crate::deletion_laws::playlists_are_told_once(a, name_a, p);
    filter_is_part(ma.playlists, p);
    crate::sync_laws::metadata_keeps_the_rest(b, told.tracks);
    assert forall|k: int| 0 <= k < c.len() implies !crate::merge_laws::playlist_is_old(
        l1,
        #[trigger] c[k],
    ) by {
        let u = c[k].uid;
        assert(p(c[k]));
        crate::sync_laws::entry_of_the_row(
            b.playlists,
            crate::manifest::playlist_has_uid(),
            crate::manifest::playlist_entry(b),
            key,
            crate::manifest::playlist_entry_uid(),
            u,
        );
        crate::merge_laws::found_by_key(b.playlists, key, Some(u));
        let grave = keyed(crate::library::tombstone_key(), ("playlist"@, u));
        first_where_is_first(b.tombstones, grave);
        if let Some(h) = first_where(b.tombstones, grave) {
            assert(mb.tombstones[h] == crate::manifest::tombstone_entry()(b.tombstones[h]));
            assert(mb.tombstones[h].entity == "playlist"@ && mb.tombstones[h].uid == u);
        }
    }
    all_playlists_count(l1, c);
}

} // verus!
