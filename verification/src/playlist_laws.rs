//! Where playlists and their tracks stand, and how they are shown.

use crate::library::{
    filter_is_part, playlist_id, LibraryView, PlaylistRowView, PlaylistTrackRowView, TrackRowView,
};
use crate::rank::{is_fraction, is_rank, midpoint_lies_between, past_comes_after, rank_between};
use crate::seqs::{count, filter_step};
use crate::sync_laws::filtered_is_there;
use crate::table::{ordered, ordered_is_in_order, weak_order};
use crate::text::{before, before_asymmetric, before_irreflexive, before_total, before_transitive};
use crate::tracks::{
    by_rank, places, places_are_members, tracks_in, all_tracks, appended, by_artist_album_title,
    is_member, last_place, track_of, TrackView,
};
use crate::tree::{
    by_parent_and_rank, greatest_is_greatest, has_parent, is_child_of, last_rank, moved,
    new_playlist, next_playlist_id_is_new, node_of, placed_in, rank_before, ranks_of_children,
    renamed, touched, tree_of,
};
use vstd::prelude::*;

verus! {

// ---------------------------------------------------------------------------
// Tracks as they are shown
// ---------------------------------------------------------------------------

/// A track is shown with what its row says, and as present exactly where its row says
/// that its file is.
pub proof fn a_track_is_shown_as_its_row(t: TrackRowView)
    ensures
        track_of(t).id == t.id,
        track_of(t).path == t.path,
        track_of(t).title == t.title,
        track_of(t).artist == t.artist,
        track_of(t).album == t.album,
        track_of(t).genre == t.genre,
        track_of(t).duration_ms == t.duration_ms,
        track_of(t).bpm == t.bpm,
        track_of(t).uid == t.uid,
        track_of(t).present <==> t.local_state == "present"@,
{
}

proof fn artist_album_title_is_an_order()
    ensures
        weak_order(by_artist_album_title()),
{
    let lt = by_artist_album_title();
    assert forall|a: TrackView, b: TrackView| #[trigger] lt(a, b) implies !lt(b, a) by {
        before_asymmetric(a.artist, b.artist);
        before_asymmetric(a.album, b.album);
        before_asymmetric(a.title, b.title);
        before_irreflexive(a.artist);
        before_irreflexive(a.album);
    }
    assert forall|a: TrackView, b: TrackView, c: TrackView|
        !#[trigger] lt(b, a) && !#[trigger] lt(c, b) implies !lt(c, a) by {
        not_after(a.artist, b.artist, c.artist);
        not_after(a.album, b.album, c.album);
        not_after(a.title, b.title, c.title);
    }
}

/// How three texts can stand to each other.
pub(crate) proof fn not_after(a: Seq<char>, b: Seq<char>, c: Seq<char>)
    ensures
        before(a, b) || a == b || before(b, a),
        before(b, c) || b == c || before(c, b),
        before(a, c) || a == c || before(c, a),
        before(a, b) ==> !before(b, a),
        before(b, c) ==> !before(c, b),
        before(a, c) ==> !before(c, a),
        before(a, b) && before(b, c) ==> before(a, c),
        before(c, b) && before(b, a) ==> before(c, a),
        before(a, c) && before(c, b) ==> before(a, b),
        before(b, a) && before(a, c) ==> before(b, c),
        !before(a, a),
{
    before_total(a, b);
    before_total(b, c);
    before_total(a, c);
    before_irreflexive(a);
    before_irreflexive(b);
    before_irreflexive(c);
    if before(a, b) {
        before_asymmetric(a, b);
    }
    if before(b, c) {
        before_asymmetric(b, c);
    }
    if before(a, c) {
        before_asymmetric(a, c);
    }
    if before(a, b) && before(b, c) {
        before_transitive(a, b, c);
    }
    if before(c, b) && before(b, a) {
        before_transitive(c, b, a);
    }
    if before(a, c) && before(c, b) {
        before_transitive(a, c, b);
    }
    if before(b, a) && before(a, c) {
        before_transitive(b, a, c);
    }
}

/// The library shows every track, by artist; those of one artist by album, and those of
/// one album by title.
pub proof fn the_library_is_shown_by_artist_album_and_title(l: LibraryView)
    ensures
        ({
            let shown = all_tracks(l);
            &&& shown.to_multiset() == l.tracks.map_values(
                |t: TrackRowView| track_of(t),
            ).to_multiset()
            &&& forall|i: int, j: int|
                0 <= i < j < shown.len() ==> {
                    let a = #[trigger] shown[i];
                    let b = #[trigger] shown[j];
                    &&& !before(b.artist, a.artist)
                    &&& a.artist == b.artist ==> !before(b.album, a.album)
                    &&& a.artist == b.artist && a.album == b.album ==> !before(b.title, a.title)
                }
        }),
{
    artist_album_title_is_an_order();
    ordered_is_in_order(
        l.tracks.map_values(|t: TrackRowView| track_of(t)),
        by_artist_album_title(),
    );
    let shown = all_tracks(l);
    let lt = by_artist_album_title();
    assert forall|i: int, j: int| 0 <= i < j < shown.len() implies {
        let a = #[trigger] shown[i];
        let b = #[trigger] shown[j];
        &&& !before(b.artist, a.artist)
        &&& a.artist == b.artist ==> !before(b.album, a.album)
        &&& a.artist == b.artist && a.album == b.album ==> !before(b.title, a.title)
    } by {
        assert(!lt(shown[j], shown[i]));
    }
}

// ---------------------------------------------------------------------------
// New tracks in a playlist
// ---------------------------------------------------------------------------

/// Where every rank of a playlist is a fraction, tracks that are added come after all
/// that were in it, in the order in which they are given: the ranks go up, one after
/// another, and each track that was not in it gets one place, with the moment of adding.
pub proof fn added_tracks_come_last_in_their_order(
    members: Seq<PlaylistTrackRowView>,
    playlist: i64,
    ids: Seq<i64>,
    now: i64,
)
    requires
        ids.no_duplicates(),
        forall|i: int|
            0 <= i < members.len() && (#[trigger] members[i]).playlist_id == playlist
                ==> is_fraction(members[i].rank),
    ensures
        ({
            let after = appended(members, playlist, ids, now).0;
            let new = ids.filter(|id: i64| !is_member(members, playlist, id));
            &&& after.len() == members.len() + new.len()
            &&& forall|i: int| 0 <= i < members.len() ==> #[trigger] after[i] == members[i]
            &&& forall|i: int|
                members.len() <= i < after.len() ==> (#[trigger] after[i]).playlist_id == playlist
                    && after[i].track_id == new[i - members.len()] && after[i].added_at == now
            &&& forall|i: int, j: int|
                0 <= i < j < after.len() && members.len() <= j && (#[trigger] after[i]).playlist_id
                    == playlist ==> before(after[i].rank, (#[trigger] after[j]).rank)
        }),
{
    appended_step(members, playlist, ids, now);
}

proof fn appended_step(
    members: Seq<PlaylistTrackRowView>,
    playlist: i64,
    ids: Seq<i64>,
    now: i64,
)
    requires
        ids.no_duplicates(),
        forall|i: int|
            0 <= i < members.len() && (#[trigger] members[i]).playlist_id == playlist
                ==> is_fraction(members[i].rank),
    ensures
        ({
            let (after, last) = appended(members, playlist, ids, now);
            let new = ids.filter(|id: i64| !is_member(members, playlist, id));
            &&& after.len() == members.len() + new.len()
            &&& forall|i: int| 0 <= i < members.len() ==> #[trigger] after[i] == members[i]
            &&& forall|i: int|
                members.len() <= i < after.len() ==> (#[trigger] after[i]).playlist_id == playlist
                    && after[i].track_id == new[i - members.len()] && after[i].added_at == now
            &&& forall|i: int, j: int|
                0 <= i < j < after.len() && members.len() <= j && (#[trigger] after[i]).playlist_id
                    == playlist ==> before(after[i].rank, (#[trigger] after[j]).rank)
            // The last rank is that of the last one, and none is higher.
            &&& last is None ==> forall|i: int|
                0 <= i < after.len() ==> (#[trigger] after[i]).playlist_id != playlist
            &&& last is Some ==> is_fraction(last->0) && forall|i: int|
                0 <= i < after.len() && (#[trigger] after[i]).playlist_id == playlist ==> !before(
                    last->0,
                    after[i].rank,
                )
        }),
    decreases ids.len(),
{
    let fresh = |id: i64| !is_member(members, playlist, id);
    reveal(Seq::filter);
    if ids.len() == 0 {
        let p = placed_in(playlist);
        let f = |m: PlaylistTrackRowView| m.rank;
        let kept = members.filter(p);
        let ranks = kept.map_values(f);
        greatest_is_greatest(ranks);
        filter_is_part(members, p);
        let last = last_place(members, playlist);
        assert forall|i: int|
            0 <= i < members.len() && (#[trigger] members[i]).playlist_id == playlist implies last
            is Some && !before(last->0, members[i].rank) by {
            let k = filtered_is_there(members, p, i);
            assert(ranks[k] == members[i].rank);
        }
        if last is Some {
            let k = choose|k: int| 0 <= k < ranks.len() && ranks[k] == last->0;
            assert(members.contains(kept[k]));
            assert(p(kept[k]));
        }
    } else {
        let head = ids.drop_last();
        let x = ids.last();
        assert(head.no_duplicates());
        appended_step(members, playlist, head, now);
        let (so_far, last) = appended(members, playlist, head, now);
        let new = head.filter(fresh);
        // It is in already if it was.
        if is_member(so_far, playlist, x) {
            let k = choose|k: int|
                0 <= k < so_far.len() && (#[trigger] so_far[k]).playlist_id == playlist
                    && so_far[k].track_id == x;
            if k >= members.len() {
                filter_is_part(head, fresh);
                assert(head.contains(new[k - members.len()]));
                let h = choose|h: int| 0 <= h < head.len() && head[h] == x;
                assert(ids[h] == ids[ids.len() - 1]);
            }
            assert(members[k].track_id == x);
            assert(is_member(members, playlist, x));
        } else {
            if is_member(members, playlist, x) {
                let k = choose|k: int|
                    0 <= k < members.len() && (#[trigger] members[k]).playlist_id == playlist
                        && members[k].track_id == x;
                assert(so_far[k] == members[k]);
            }
            let rank = rank_between(last, None);
            let low = match last {
                Some(p) => p,
                None => Seq::empty(),
            };
            past_comes_after(low);
            before_irreflexive(rank);
            let (after, now_last) = appended(members, playlist, ids, now);
            assert forall|i: int|
                0 <= i < so_far.len() && (#[trigger] so_far[i]).playlist_id == playlist implies before(
                so_far[i].rank,
                rank,
            ) by {
                not_after(so_far[i].rank, low, rank);
            }
            assert forall|i: int| 0 <= i < after.len() && (#[trigger] after[i]).playlist_id
                == playlist implies !before(rank, after[i].rank) by {
                if i < so_far.len() {
                    before_asymmetric(so_far[i].rank, rank);
                }
            }
        }
    }
}

// ---------------------------------------------------------------------------
// Playlists and folders
// ---------------------------------------------------------------------------

/// A playlist that is marked as changed has that moment on its clock and nothing else
/// new; the others stay.
pub proof fn marking_a_change_moves_one_clock(
    playlists: Seq<PlaylistRowView>,
    id: i64,
    now: i64,
    i: int,
)
    requires
        0 <= i < playlists.len(),
    ensures
        ({
            let was = playlists[i];
            let is = touched(playlists, id, now)[i];
            &&& touched(playlists, id, now).len() == playlists.len()
            &&& was.id == id ==> is.updated_at == now
            &&& was.id != id ==> is == was
            &&& is.id == was.id && is.uid == was.uid && is.name == was.name && is.kind == was.kind
            &&& is.parent_id == was.parent_id && is.rank == was.rank
        }),
{
}

/// A playlist that is renamed has the new name and that moment on its clock, and stays
/// where it is; the others stay as they are.
pub proof fn renaming_changes_one_name(
    playlists: Seq<PlaylistRowView>,
    id: i64,
    name: Seq<char>,
    now: i64,
    i: int,
)
    requires
        0 <= i < playlists.len(),
    ensures
        ({
            let was = playlists[i];
            let is = renamed(playlists, id, name, now)[i];
            &&& renamed(playlists, id, name, now).len() == playlists.len()
            &&& was.id == id ==> is.name == name && is.updated_at == now
            &&& was.id != id ==> is == was
            &&& is.id == was.id && is.uid == was.uid && is.kind == was.kind
            &&& is.parent_id == was.parent_id && is.rank == was.rank
        }),
{
}

/// A new playlist is what it was asked to be, under an id of its own, and where the ranks
/// of its siblings are fractions it comes after all of them.
pub proof fn a_new_playlist_comes_last(
    l: LibraryView,
    name: Seq<char>,
    kind: Seq<char>,
    parent: Option<i64>,
    uid: Seq<char>,
    now: i64,
)
    requires
        crate::tree::room_for_playlist(l),
        forall|i: int|
            0 <= i < l.playlists.len() && (#[trigger] l.playlists[i]).parent_id == parent
                ==> is_fraction(l.playlists[i].rank),
    ensures
        ({
            let row = new_playlist(l, name, kind, parent, uid, now);
            &&& row.name == name
            &&& row.kind == kind
            &&& row.parent_id == parent
            &&& row.uid == Some(uid)
            &&& row.updated_at == now
            &&& is_rank(row.rank)
            &&& forall|i: int|
                0 <= i < l.playlists.len() ==> (#[trigger] l.playlists[i]).id != row.id
            &&& forall|i: int|
                0 <= i < l.playlists.len() && (#[trigger] l.playlists[i]).parent_id == parent
                    ==> before(l.playlists[i].rank, row.rank)
        }),
{
    next_playlist_id_is_new(l.playlists);
    let row = new_playlist(l, name, kind, parent, uid, now);
    let p = is_child_of(parent);
    let f = |p: PlaylistRowView| p.rank;
    let kept = l.playlists.filter(p);
    let ranks = kept.map_values(f);
    let last = last_rank(l.playlists, parent);
    greatest_is_greatest(ranks);
    filter_is_part(l.playlists, p);
    if last is Some {
        let k = choose|k: int| 0 <= k < ranks.len() && ranks[k] == last->0;
        assert(l.playlists.contains(kept[k]));
        assert(p(kept[k]));
    }
    let low = match last {
        Some(x) => x,
        None => Seq::empty(),
    };
    past_comes_after(low);
    assert forall|i: int|
        0 <= i < l.playlists.len() && (#[trigger] l.playlists[i]).parent_id == parent implies before(
        l.playlists[i].rank,
        row.rank,
    ) by {
        let k = filtered_is_there(l.playlists, p, i);
        assert(ranks[k] == l.playlists[i].rank);
        not_after(l.playlists[i].rank, low, row.rank);
    }
}

/// A node that is moved lies in the folder it was moved to, at the place asked for: where
/// the ranks of the others there are fractions and go up, it comes after the first
/// `index` of them and before the rest. Nothing else of it changes but its clock, and no
/// other node does.
pub proof fn a_moved_node_stands_where_it_was_put(
    playlists: Seq<PlaylistRowView>,
    id: i64,
    new_parent: Option<i64>,
    index: i64,
    now: i64,
    i: int,
)
    requires
        0 <= i < playlists.len(),
        playlists[i].id == id,
        ({
            let others = ranks_of_children(playlists, new_parent, Some(id));
            &&& forall|k: int| 0 <= k < others.len() ==> is_rank(#[trigger] others[k])
            &&& forall|k: int, h: int|
                0 <= k < h < others.len() ==> before(#[trigger] others[k], #[trigger] others[h])
        }),
    ensures
        ({
            let was = playlists[i];
            let after = moved(playlists, id, new_parent, index, now);
            let is = after[i];
            let others = ranks_of_children(playlists, new_parent, Some(id));
            &&& after.len() == playlists.len()
            &&& is.parent_id == new_parent
            &&& is.updated_at == now
            &&& is.id == id && is.name == was.name && is.kind == was.kind && is.uid == was.uid
            &&& is_rank(is.rank)
            &&& forall|k: int|
                0 <= k < others.len() && k < index ==> before(#[trigger] others[k], is.rank)
            &&& forall|k: int|
                0 <= k < others.len() && k >= index ==> before(is.rank, #[trigger] others[k])
            &&& forall|k: int|
                0 <= k < playlists.len() && (#[trigger] playlists[k]).id != id ==> after[k]
                    == playlists[k]
        }),
{
    let others = ranks_of_children(playlists, new_parent, Some(id));
    let is = moved(playlists, id, new_parent, index, now)[i];
    let n = others.len() as int;
    let at = if index <= 0 {
        0
    } else if index > n {
        n
    } else {
        index as int
    };
    let a = if at > 0 {
        others[at - 1]
    } else {
        Seq::empty()
    };
    if at < n {
        assert(is_rank(others[at]));
        if at > 0 {
            assert(before(others[at - 1], others[at]));
        }
        midpoint_lies_between(a, others[at]);
    } else {
        past_comes_after(a);
    }
    if at > 0 {
        assert(is_rank(others[at - 1]));
        assert(before(others[at - 1], is.rank));
    }
    assert forall|k: int| 0 <= k < others.len() && k < index implies before(
        #[trigger] others[k],
        is.rank,
    ) by {
        if k < at - 1 {
            before_transitive(others[k], others[at - 1], is.rank);
        }
    }
    assert forall|k: int| 0 <= k < others.len() && k >= index implies before(
        is.rank,
        #[trigger] others[k],
    ) by {
        if k > at {
            before_transitive(is.rank, others[at], others[k]);
        }
    }
}

/// The ranks of the children of a folder are those of the rows that name it, one aside,
/// from the lowest to the highest.
pub proof fn ranks_of_children_are_theirs(
    playlists: Seq<PlaylistRowView>,
    parent: Option<i64>,
    but: Option<i64>,
)
    ensures
        ({
            let r = ranks_of_children(playlists, parent, but);
            &&& forall|i: int, j: int|
                0 <= i < j < r.len() ==> !before(#[trigger] r[j], #[trigger] r[i])
            &&& forall|i: int|
                0 <= i < playlists.len() && (#[trigger] playlists[i]).parent_id == parent && Some(
                    playlists[i].id,
                ) != but ==> r.contains(playlists[i].rank)
            &&& r.len() == count(
                playlists,
                |p: PlaylistRowView| p.parent_id == parent && Some(p.id) != but,
            )
        }),
{
    broadcast use vstd::seq_lib::group_to_multiset_ensures;

    let p = |p: PlaylistRowView| p.parent_id == parent && Some(p.id) != but;
    let kept = playlists.filter(p);
    let ranks = kept.map_values(|p: PlaylistRowView| p.rank);
    let lt = rank_before();
    assert(weak_order(lt)) by {
        assert forall|a: Seq<char>, b: Seq<char>| #[trigger] lt(a, b) implies !lt(b, a) by {
            before_asymmetric(a, b);
        }
        assert forall|a: Seq<char>, b: Seq<char>, c: Seq<char>|
            !#[trigger] lt(b, a) && !#[trigger] lt(c, b) implies !lt(c, a) by {
            not_after(a, b, c);
        }
    }
    ordered_is_in_order(ranks, lt);
    let r = ranks_of_children(playlists, parent, but);
    assert forall|i: int, j: int| 0 <= i < j < r.len() implies !before(
        #[trigger] r[j],
        #[trigger] r[i],
    ) by {
        assert(!lt(r[j], r[i]));
    }
    assert forall|i: int|
        0 <= i < playlists.len() && (#[trigger] playlists[i]).parent_id == parent && Some(
            playlists[i].id,
        ) != but implies r.contains(playlists[i].rank) by {
        let k = filtered_is_there(playlists, p, i);
        assert(ranks[k] == playlists[i].rank);
        assert(ranks.to_multiset().count(ranks[k]) > 0);
        assert(r.to_multiset().count(ranks[k]) > 0);
    }
}

// ---------------------------------------------------------------------------
// The tree as it is shown
// ---------------------------------------------------------------------------

/// A node shows its row, and how many places it has, with how many of them filled.
pub proof fn a_node_is_shown_as_its_row(l: LibraryView, p: PlaylistRowView)
    requires
        l.playlist_tracks.len() <= i64::MAX,
    ensures
        node_of(l, p).id == p.id,
        node_of(l, p).uid == p.uid,
        node_of(l, p).name == p.name,
        node_of(l, p).kind == p.kind,
        node_of(l, p).parent_id == p.parent_id,
        node_of(l, p).track_count == l.playlist_tracks.filter(
            |m: PlaylistTrackRowView| m.playlist_id == p.id,
        ).len(),
        node_of(l, p).present_count == l.playlist_tracks.filter(
            |m: PlaylistTrackRowView|
                m.playlist_id == p.id && exists|i: int|
                    0 <= i < l.tracks.len() && (#[trigger] l.tracks[i]).id == m.track_id
                        && l.tracks[i].local_state == "present"@,
        ).len(),
{
    let q = |m: PlaylistTrackRowView| m.playlist_id == p.id;
    let s = |m: PlaylistTrackRowView|
        m.playlist_id == p.id && exists|i: int|
            0 <= i < l.tracks.len() && (#[trigger] l.tracks[i]).id == m.track_id
                && l.tracks[i].local_state == "present"@;
    crate::seqs::filter_same(l.playlist_tracks, placed_in(p.id), q);
    crate::seqs::filter_same(l.playlist_tracks, crate::tree::present_in(l, p.id), s);
    l.playlist_tracks.lemma_filter_len(q);
    l.playlist_tracks.lemma_filter_len(s);
}

proof fn parent_and_rank_is_an_order()
    ensures
        weak_order(by_parent_and_rank()),
{
    let lt = by_parent_and_rank();
    assert forall|a: PlaylistRowView, b: PlaylistRowView| #[trigger] lt(a, b) implies !lt(b, a) by {
        not_after(a.rank, b.rank, b.rank);
    }
    assert forall|a: PlaylistRowView, b: PlaylistRowView, c: PlaylistRowView|
        !#[trigger] lt(b, a) && !#[trigger] lt(c, b) implies !lt(c, a) by {
        not_after(a.rank, b.rank, c.rank);
    }
}

/// Of two children of one folder, the one with the lower rank is shown first, and has
/// the lower position.
pub proof fn siblings_are_shown_by_rank(l: LibraryView, i: int, j: int, x: int, y: int)
    requires
        l.wf(),
        l.playlists.len() <= i64::MAX,
        0 <= i < l.playlists.len(),
        0 <= j < l.playlists.len(),
        l.playlists[i].parent_id == l.playlists[j].parent_id,
        before(l.playlists[i].rank, l.playlists[j].rank),
        0 <= x < tree_of(l).len(),
        0 <= y < tree_of(l).len(),
        tree_of(l)[x].id == l.playlists[i].id,
        tree_of(l)[y].id == l.playlists[j].id,
    ensures
        x < y,
        tree_of(l)[x].position < tree_of(l)[y].position,
        tree_of(l)[x].name == l.playlists[i].name,
        tree_of(l)[x].kind == l.playlists[i].kind,
        tree_of(l)[x].parent_id == l.playlists[i].parent_id,
{
    broadcast use vstd::seq_lib::group_to_multiset_ensures;

    let lt = by_parent_and_rank();
    let rows = ordered(l.playlists, lt);
    parent_and_rank_is_an_order();
    ordered_is_in_order(l.playlists, lt);
    row_of_node(l, x, i);
    row_of_node(l, y, j);
    before_irreflexive(l.playlists[i].rank);
    if y < x {
        assert(!lt(rows[x], rows[y]));
    }
    assert(x != y);
    let p = has_parent(l.playlists[i].parent_id);
    count_grows(rows, p, x + 1, y);
    filter_step(rows, p, x);
    assert(count(rows.take(y), p) <= y) by {
        rows.take(y).lemma_filter_len(p);
    }
}

proof fn row_of_node(l: LibraryView, x: int, i: int)
    requires
        l.wf(),
        0 <= i < l.playlists.len(),
        0 <= x < tree_of(l).len(),
        tree_of(l)[x].id == l.playlists[i].id,
    ensures
        ordered(l.playlists, by_parent_and_rank())[x] == l.playlists[i],
{
    broadcast use vstd::seq_lib::group_to_multiset_ensures;

    let rows = ordered(l.playlists, by_parent_and_rank());
    parent_and_rank_is_an_order();
    ordered_is_in_order(l.playlists, by_parent_and_rank());
    assert(rows.to_multiset().count(rows[x]) > 0);
    assert(l.playlists.to_multiset().count(rows[x]) > 0);
    assert(l.playlists.contains(rows[x]));
    let k = choose|k: int| 0 <= k < l.playlists.len() && l.playlists[k] == rows[x];
    assert(playlist_id()(l.playlists[k]) == playlist_id()(l.playlists[i]));
    assert(k == i);
}

proof fn count_grows<A>(s: Seq<A>, p: spec_fn(A) -> bool, a: int, b: int)
    requires
        0 <= a <= b <= s.len(),
    ensures
        count(s.take(a), p) <= count(s.take(b), p),
    decreases b - a,
{
    if a < b {
        count_grows(s, p, a, b - 1);
        filter_step(s, p, b - 1);
    }
}

/// What stands at the top is shown before what lies in a folder.
pub proof fn the_top_is_shown_first(l: LibraryView, x: int, y: int)
    requires
        0 <= x < y < tree_of(l).len(),
        tree_of(l)[y].parent_id is None,
    ensures
        tree_of(l)[x].parent_id is None,
{
    let lt = by_parent_and_rank();
    let rows = ordered(l.playlists, lt);
    parent_and_rank_is_an_order();
    ordered_is_in_order(l.playlists, lt);
    assert(!lt(rows[y], rows[x]));
}

/// A playlist shows the places that it has, all of them and no others, from the lowest
/// rank to the highest; each with the track that stands there.
pub proof fn a_playlist_is_shown_by_rank(l: LibraryView, playlist: i64)
    requires
        l.wf(),
    ensures
        ({
            let shown = places(l.playlist_tracks, playlist);
            &&& forall|i: int, j: int|
                0 <= i < j < shown.len() ==> !before(
                    (#[trigger] shown[j]).rank,
                    (#[trigger] shown[i]).rank,
                )
            &&& shown.to_multiset() == l.playlist_tracks.filter(
                |m: PlaylistTrackRowView| m.playlist_id == playlist,
            ).to_multiset()
            &&& tracks_in(l, playlist).len() == shown.len()
            &&& forall|i: int|
                0 <= i < shown.len() ==> (#[trigger] tracks_in(l, playlist)[i]).id
                    == shown[i].track_id
        }),
{
    places_are_members(l.playlist_tracks, playlist);
    let shown = places(l.playlist_tracks, playlist);
    let p = |m: PlaylistTrackRowView| m.playlist_id == playlist;
    crate::seqs::filter_same(l.playlist_tracks, placed_in(playlist), p);
    assert forall|i: int, j: int| 0 <= i < j < shown.len() implies !before(
        (#[trigger] shown[j]).rank,
        (#[trigger] shown[i]).rank,
    ) by {
        assert(!by_rank()(shown[j], shown[i]));
    }
    assert forall|i: int| 0 <= i < shown.len() implies (#[trigger] tracks_in(l, playlist)[i]).id
        == shown[i].track_id by {
        assert(l.playlist_tracks.contains(shown[i]));
        let k = choose|k: int| 0 <= k < l.playlist_tracks.len() && l.playlist_tracks[k] == shown[i];
        assert(crate::library::is_track(l.tracks, l.playlist_tracks[k].track_id));
        crate::merge_laws::found_by_key(
            l.tracks,
            crate::library::track_id(),
            shown[i].track_id,
        );
    }
}

} // verus!
