//! What is deleted, what is moved, and what stays.

use crate::db::recording_keeps_the_rest;
use crate::library::{
    filter_is_part, playlist_id, playlist_uid_key, tombstone_key, track_uid_key, LibraryView,
    PlaylistRowView, PlaylistTrackRowView, TrackRowView,
};
use crate::manifest::{PlaylistEntryView, TombstoneView};
use crate::export_xml::children;
use crate::merge::{
    deletes_a_track, all_taken, is_buried, joined, metadata_taken, newer_ones, parent_taken,
    playlist_taken, tombstone_kept, ChangesView,
};
use crate::merge_laws::found_by_key;
use crate::sync_laws::{
    filtered_is_there, metadata_keeps_the_rest, parents_keep_clocks, places_keep_tracks,
};
use crate::table::{first_where, first_where_is_first, keyed, row_with, row_with_push};
use crate::tracks::{picked, track_uid_of, tracks_deleted, without_tracks};
use crate::tree::{
    PlaylistNodeView, holds, in_subtree, move_refused, playlist_deleted, uids_of_playlists,
    without_subtree, MoveError,
};
use vstd::prelude::*;

verus! {

pub(crate) proof fn kept_exactly<A>(s: Seq<A>, p: spec_fn(A) -> bool, x: A)
    requires
        s.contains(x),
    ensures
        s.filter(p).contains(x) <==> p(x),
{
    if p(x) {
        let i = choose|i: int| 0 <= i < s.len() && s[i] == x;
        let k = filtered_is_there(s, p, i);
        assert(s.filter(p)[k] == x);
    } else {
        filter_is_part(s, p);
        if s.filter(p).contains(x) {
            let k = choose|k: int| 0 <= k < s.filter(p).len() && s.filter(p)[k] == x;
            assert(p(s.filter(p)[k]));
        }
    }
}

/// Deleting a node takes away it and what hangs from it, with the places in them, and
/// nothing else: no track, no other playlist, no place in another.
pub proof fn deleting_a_node_takes_its_subtree_and_no_more(
    l: LibraryView,
    root: i64,
    now: i64,
    fresh: Seq<char>,
    p: PlaylistRowView,
    m: PlaylistTrackRowView,
)
    requires
        l.playlists.contains(p),
        l.playlist_tracks.contains(m),
    ensures
        ({
            let n = playlist_deleted(l, root, now, fresh);
            &&& n.playlists.contains(p) <==> !holds(l.playlists, root, p.id)
            &&& n.playlist_tracks.contains(m) <==> !holds(l.playlists, root, m.playlist_id)
            &&& p.id == root ==> !n.playlists.contains(p)
            &&& n.tracks == l.tracks
        }),
{
    recording_keeps_the_rest(
        without_subtree(l, root),
        "playlist"@,
        uids_of_playlists(l.playlists, in_subtree(l.playlists, root)),
        now,
        fresh,
    );
    kept_exactly(l.playlists, |p: PlaylistRowView| !holds(l.playlists, root, p.id), p);
    kept_exactly(
        l.playlist_tracks,
        |m: PlaylistTrackRowView| !holds(l.playlists, root, m.playlist_id),
        m,
    );
    crate::graph::root_is_reached(
        crate::tree::contains_directly(l.playlists),
        set![root],
        root,
    );
}

/// What lies in a folder hangs from it, at any depth; a node holds itself.
pub proof fn a_folder_holds_what_lies_in_it(playlists: Seq<PlaylistRowView>, a: i64, b: i64, i: int)
    requires
        0 <= i < playlists.len(),
        playlists[i].parent_id == Some(b),
        holds(playlists, a, b),
    ensures
        holds(playlists, a, playlists[i].id),
        holds(playlists, a, a),
{
    let edge = crate::tree::contains_directly(playlists);
    crate::graph::root_is_reached(edge, set![a], a);
    assert(edge(b, playlists[i].id));
    crate::graph::next_is_reached(edge, set![a], b, playlists[i].id);
}

/// Deleting tracks takes away these, wherever they stand, and nothing else: no other
/// track, no other place, no playlist.
pub proof fn deleting_tracks_takes_these_and_no_more(
    l: LibraryView,
    ids: Seq<i64>,
    now: i64,
    fresh: Seq<char>,
    t: TrackRowView,
    m: PlaylistTrackRowView,
)
    requires
        l.tracks.contains(t),
        l.playlist_tracks.contains(m),
    ensures
        ({
            let n = tracks_deleted(l, ids, now, fresh);
            &&& n.tracks.contains(t) <==> !ids.contains(t.id)
            &&& n.playlist_tracks.contains(m) <==> !ids.contains(m.track_id)
            &&& n.playlists == l.playlists
        }),
{
    recording_keeps_the_rest(
        without_tracks(l, ids),
        "track"@,
        picked(ids, track_uid_of(l)),
        now,
        fresh,
    );
    kept_exactly(l.tracks, |t: TrackRowView| !ids.contains(t.id), t);
    kept_exactly(l.playlist_tracks, |m: PlaylistTrackRowView| !ids.contains(m.track_id), m);
}

/// A node can be moved to the top, or into any folder that is there and does not hang
/// from it; each refusal says what stands against it.
pub proof fn a_move_is_refused_for_a_reason(
    playlists: Seq<PlaylistRowView>,
    id: i64,
    target: i64,
)
    ensures
        move_refused(playlists, id, None) is None,
        match row_with(playlists, playlist_id(), target) {
            None => move_refused(playlists, id, Some(target)) == Some(MoveError::NoSuchFolder),
            Some(row) => {
                &&& row.kind != "folder"@ ==> move_refused(playlists, id, Some(target)) == Some(
                    MoveError::NotAFolder,
                )
                &&& row.kind == "folder"@ && holds(playlists, id, target) ==> move_refused(
                    playlists,
                    id,
                    Some(target),
                ) == Some(MoveError::IntoItself)
                &&& row.kind == "folder"@ && !holds(playlists, id, target) ==> move_refused(
                    playlists,
                    id,
                    Some(target),
                ) is None
            },
        },
        row_with(playlists, playlist_id(), id) is Some ==> move_refused(playlists, id, Some(id))
            is Some,
{
    crate::graph::root_is_reached(crate::tree::contains_directly(playlists), set![id], id);
}

/// A deletion that is told of for the first time is kept with the moment at which it was
/// made; one that is known already keeps the moment that is known.
pub proof fn a_deletion_is_kept_with_its_moment(l: LibraryView, c: Seq<TombstoneView>, i: int)
    requires
        0 <= i < c.len(),
        forall|j: int|
            0 <= j < i ==> (#[trigger] c[j]).entity != c[i].entity || c[j].uid != c[i].uid,
    ensures
        ({
            let n = all_taken(l, c, tombstone_kept()).0;
            let was = row_with(l.tombstones, tombstone_key(), (c[i].entity, c[i].uid));
            match row_with(n.tombstones, tombstone_key(), (c[i].entity, c[i].uid)) {
                Some(t) => {
                    &&& was is Some ==> Some(t) == was
                    &&& was is None ==> t.deleted_at == c[i].deleted_at
                },
                None => false,
            }
        }),
    decreases c.len(),
{
    let t = c.drop_last();
    let x = c.last();
    let k = (c[i].entity, c[i].uid);
    let a = all_taken(l, t, tombstone_kept()).0;
    if i < t.len() {
        assert(t[i] == c[i]);
        assert forall|j: int| 0 <= j < i implies (#[trigger] t[j]).entity != t[i].entity || t[j].uid
            != t[i].uid by {
            assert(t[j] == c[j]);
        }
        a_deletion_is_kept_with_its_moment(l, t, i);
    } else {
        others_keep_it(l, t, k.0, k.1);
    }
    if !is_buried(a, x.entity, x.uid) {
        let row = crate::library::TombstoneRowView {
            entity: x.entity,
            uid: x.uid,
            deleted_at: x.deleted_at,
            device_uid: ""@,
        };
        row_with_push(a.tombstones, tombstone_key(), row, k);
    }
}

proof fn others_keep_it(l: LibraryView, c: Seq<TombstoneView>, entity: Seq<char>, uid: Seq<char>)
    requires
        forall|j: int|
            0 <= j < c.len() ==> (#[trigger] c[j]).entity != entity || c[j].uid != uid,
    ensures
        row_with(
            all_taken(l, c, tombstone_kept()).0.tombstones,
            tombstone_key(),
            (entity, uid),
        ) == row_with(l.tombstones, tombstone_key(), (entity, uid)),
    decreases c.len(),
{
    if c.len() > 0 {
        let t = c.drop_last();
        let x = c.last();
        assert forall|j: int| 0 <= j < t.len() implies (#[trigger] t[j]).entity != entity || t[j].uid
            != uid by {
            assert(t[j] == c[j]);
        }
        others_keep_it(l, t, entity, uid);
        assert(c[c.len() - 1] == x);
        let a = all_taken(l, t, tombstone_kept()).0;
        if !is_buried(a, x.entity, x.uid) {
            let row = crate::library::TombstoneRowView {
                entity: x.entity,
                uid: x.uid,
                deleted_at: x.deleted_at,
                device_uid: ""@,
            };
            row_with_push(a.tombstones, tombstone_key(), row, (entity, uid));
        }
    }
}

proof fn no_such_playlist_comes(l: LibraryView, c: Seq<PlaylistEntryView>, uid: Seq<char>)
    requires
        is_buried(l, "playlist"@, uid),
        row_with(l.playlists, playlist_uid_key(), Some(uid)) is None,
    ensures
        row_with(
            all_taken(l, c, playlist_taken()).0.playlists,
            playlist_uid_key(),
            Some(uid),
        ) is None,
        all_taken(l, c, playlist_taken()).0.tombstones == l.tombstones,
    decreases c.len(),
{
    if c.len() > 0 {
        let t = c.drop_last();
        let x = c.last();
        no_such_playlist_comes(l, t, uid);
        let a = all_taken(l, t, playlist_taken()).0;
        let n = playlist_taken()(a, x).0;
        found_by_key(a.playlists, playlist_uid_key(), Some(uid));
        found_by_key(n.playlists, playlist_uid_key(), Some(uid));
        first_where_is_first(a.playlists, keyed(playlist_uid_key(), Some(x.uid)));
        if let Some(i) = first_where(n.playlists, keyed(playlist_uid_key(), Some(uid))) {
            if i < a.playlists.len() {
                assert(playlist_uid_key()(a.playlists[i]) != Some(uid));
                assert(n.playlists[i].uid == a.playlists[i].uid);
            }
        }
    }
}

/// A playlist that was deleted here does not come back, whatever another device tells.
pub proof fn a_deleted_playlist_does_not_come_back(l: LibraryView, c: ChangesView, uid: Seq<char>)
    requires
        is_buried(l, "playlist"@, uid),
        row_with(l.playlists, playlist_uid_key(), Some(uid)) is None,
    ensures
        row_with(joined(l, c).library.playlists, playlist_uid_key(), Some(uid)) is None,
{
    let l1 = all_taken(l, c.tracks, metadata_taken()).0;
    let l2 = all_taken(l1, c.playlists, playlist_taken()).0;
    let l3 = all_taken(l2, newer_ones(l1, c.playlists), parent_taken()).0;
    metadata_keeps_the_rest(l, c.tracks);
    no_such_playlist_comes(l1, c.playlists, uid);
    parents_keep_clocks(l2, newer_ones(l1, c.playlists));
    places_keep_tracks(l3, c.memberships);
    found_by_key(l2.playlists, playlist_uid_key(), Some(uid));
    found_by_key(l3.playlists, playlist_uid_key(), Some(uid));
    if let Some(i) = first_where(l3.playlists, keyed(playlist_uid_key(), Some(uid))) {
        assert(playlist_uid_key()(l2.playlists[i]) != Some(uid));
        assert(l3.playlists[i].uid == l2.playlists[i].uid);
    }
}

/// A deletion moves a file away exactly where it is of a track that is here.
pub proof fn only_deleted_tracks_move_their_files(l: LibraryView, t: TombstoneView)
    ensures
        deletes_a_track(l)(t) <==> t.entity == "track"@ && exists|i: int|
            0 <= i < l.tracks.len() && (#[trigger] l.tracks[i]).uid == Some(t.uid),
{
    found_by_key(l.tracks, track_uid_key(), Some(t.uid));
    if let Some(i) = first_where(l.tracks, keyed(track_uid_key(), Some(t.uid))) {
        assert(l.tracks[i].uid == Some(t.uid));
    } else {
        assert forall|i: int| 0 <= i < l.tracks.len() implies (#[trigger] l.tracks[i]).uid != Some(
            t.uid,
        ) by {
            assert(track_uid_key()(l.tracks[i]) != Some(t.uid));
        }
    }
}

/// What is looked up for some ids comes in their order, those left out that have none.
pub proof fn what_is_looked_up_comes_in_order(
    ids: Seq<i64>,
    f: spec_fn(i64) -> Option<Seq<char>>,
    id: i64,
)
    ensures
        picked(Seq::empty(), f) == Seq::<Seq<char>>::empty(),
        f(id) is None ==> picked(ids.push(id), f) == picked(ids, f),
        f(id) is Some ==> picked(ids.push(id), f) == picked(ids, f).push(f(id)->0),
{
    assert(ids.push(id).drop_last() =~= ids);
    assert(ids.push(id).last() == id);
}

/// The children of a folder are the nodes that name it, in the order in which the tree
/// shows them.
pub proof fn children_stand_as_they_are_shown(nodes: Seq<PlaylistNodeView>, parent: Option<i64>)
    ensures
        children(nodes, parent) == nodes.filter(|n: PlaylistNodeView| n.parent_id == parent),
        children(nodes, parent).len() <= nodes.len(),
{
    let p = |n: PlaylistNodeView| n.parent_id == parent;
    crate::seqs::filter_same(nodes, crate::export_xml::node_parent(parent), p);
    nodes.lemma_filter_len(p);
}

} // verus!
