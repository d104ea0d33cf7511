//! What holds between two devices that tell each other what changed.

use crate::library::{
    distinct_filter, distinct_some_filter, distinct_where_some, filter_is_part, pair_of,
    playlist_id, playlist_uid_key, tombstone_key, track_id, track_uid_key, LibraryView,
    PlaylistRowView, PlaylistTrackRowView, TrackRowView,
};
use crate::manifest::{
    both_have_uids, has_tombstone_for, key_of, manifest_of, membership_entry, pair_key_of,
    playlist_entry, playlist_entry_uid, playlist_has_uid, tombstone_entry, tombstone_entry_key,
    track_entry, track_entry_uid, track_has_uid, MembershipView, PlaylistEntryView, TrackEntryView,
};
use crate::merge::{
    all_taken, deleted_at_in, is_buried, joined, last_membership, membership_is_news,
    membership_taken, metadata_taken, newer_ones, news_for, parent_taken, playlist_is_news,
    playlist_taken, track_is_news, with_metadata,
};
use crate::merge_laws::{
    found_by_key, metadata_never_goes_back, playlist_is_old, playlists_never_go_back,
    same_keys_same_first,
};
use crate::table::{first_where, first_where_at, first_where_is_first, keyed, row_with};
use vstd::prelude::*;

verus! {

// ---------------------------------------------------------------------------
// Rows and the entries made of them
// ---------------------------------------------------------------------------

/// What is found among the entries made of some rows is the entry of the row that is
/// found among these.
pub(crate) proof fn entry_of_the_row<R, E>(
    rows: Seq<R>,
    named: spec_fn(R) -> bool,
    entry: spec_fn(R) -> E,
    row_key: spec_fn(R) -> Option<Seq<char>>,
    entry_key: spec_fn(E) -> Seq<char>,
    k: Seq<char>,
)
    requires
        forall|r: R| #[trigger] named(r) <==> row_key(r) is Some,
        forall|r: R| named(r) ==> row_key(r) == Some(entry_key(#[trigger] entry(r))),
    ensures
        row_with(rows.filter(named).map_values(entry), entry_key, k) == match row_with(
            rows,
            row_key,
            Some(k),
        ) {
            Some(r) => Some(entry(r)),
            None => None,
        },
    decreases rows.len(),
{
    reveal(Seq::filter);
    let es = rows.filter(named).map_values(entry);
    if rows.len() == 0 {
        assert(es =~= Seq::empty());
    } else {
        let t = rows.drop_last();
        let x = rows.last();
        entry_of_the_row(t, named, entry, row_key, entry_key, k);
        let te = t.filter(named).map_values(entry);
        first_where_is_first(t, keyed(row_key, Some(k)));
        first_where_is_first(te, keyed(entry_key, k));
        assert forall|i: int| 0 <= i < t.len() implies rows[i] == #[trigger] t[i] by {}
        if named(x) {
            assert(es =~= te.push(entry(x)));
            assert(es.drop_last() =~= te);
            assert(entry_key(entry(x)) == k <==> row_key(x) == Some(k));
        }
        match first_where(t, keyed(row_key, Some(k))) {
            Some(i) => {
                assert(rows[i] == t[i]);
                if named(x) {
                    let j = first_where(te, keyed(entry_key, k))->0;
                    assert(es[j] == te[j]);
                }
            },
            None => {},
        }
    }
}

/// The entry of a row is among the entries.
pub(crate) proof fn row_has_its_entry<R, E>(
    rows: Seq<R>,
    named: spec_fn(R) -> bool,
    entry: spec_fn(R) -> E,
    i: int,
) -> (k: int)
    requires
        0 <= i < rows.len(),
        named(rows[i]),
    ensures
        0 <= k < rows.filter(named).map_values(entry).len(),
        rows.filter(named).map_values(entry)[k] == entry(rows[i]),
    decreases rows.len(),
{
    reveal(Seq::filter);
    let t = rows.drop_last();
    let es = rows.filter(named).map_values(entry);
    if i == rows.len() - 1 {
        es.len() - 1
    } else {
        let k = row_has_its_entry(t, named, entry, i);
        assert(es[k] == t.filter(named).map_values(entry)[k]);
        k
    }
}

pub(crate) proof fn filtered_is_there<A>(s: Seq<A>, p: spec_fn(A) -> bool, i: int) -> (k: int)
    requires
        0 <= i < s.len(),
        p(s[i]),
    ensures
        0 <= k < s.filter(p).len(),
        s.filter(p)[k] == s[i],
    decreases s.len(),
{
    reveal(Seq::filter);
    if i == s.len() - 1 {
        s.filter(p).len() - 1
    } else {
        let k = filtered_is_there(s.drop_last(), p, i);
        assert(s.filter(p)[k] == s.drop_last().filter(p)[k]);
        k
    }
}

// ---------------------------------------------------------------------------
// Metadata
// ---------------------------------------------------------------------------

/// No two entries are of the same track.
pub(crate) open spec fn one_each(c: Seq<TrackEntryView>) -> bool {
    forall|i: int, j: int| 0 <= i < j < c.len() ==> (#[trigger] c[i]).uid != (#[trigger] c[j]).uid
}

proof fn only_its_entry_counts(l: LibraryView, c: Seq<TrackEntryView>, i: int, e: TrackEntryView)
    requires
        0 <= i < l.tracks.len(),
        l.tracks[i].uid == Some(e.uid),
        first_where(l.tracks, keyed(track_uid_key(), Some(e.uid))) == Some(i),
        forall|k: int| 0 <= k < c.len() && (#[trigger] c[k]).uid == e.uid ==> c[k] == e,
        one_each(c),
    ensures
        ({
            let m = all_taken(l, c, metadata_taken()).0;
            &&& m.tracks.len() == l.tracks.len()
            &&& forall|k: int|
                0 <= k < l.tracks.len() ==> (#[trigger] m.tracks[k]).uid == l.tracks[k].uid
            &&& m.tracks[i] == if (exists|k: int| 0 <= k < c.len() && #[trigger] c[k] == e)
                && e.updated_at > l.tracks[i].updated_at {
                with_metadata(l.tracks[i], e)
            } else {
                l.tracks[i]
            }
        }),
    decreases c.len(),
{
    if c.len() > 0 {
        let t = c.drop_last();
        let x = c.last();
        assert forall|k: int| 0 <= k < t.len() && (#[trigger] t[k]).uid == e.uid implies t[k]
            == e by {
            assert(t[k] == c[k]);
        }
        assert(one_each(t)) by {
            assert forall|a: int, b: int| 0 <= a < b < t.len() implies (#[trigger] t[a]).uid != (
            #[trigger] t[b]).uid by {
                assert(c[a].uid != c[b].uid);
            }
        }
        only_its_entry_counts(l, t, i, e);
        let m = all_taken(l, t, metadata_taken()).0;
        let n = all_taken(l, c, metadata_taken()).0;
        let q = keyed(track_uid_key(), Some(x.uid));
        first_where_is_first(m.tracks, q);
        let in_t = exists|k: int| 0 <= k < t.len() && #[trigger] t[k] == e;
        let in_c = exists|k: int| 0 <= k < c.len() && #[trigger] c[k] == e;
        if in_t {
            let k = choose|k: int| 0 <= k < t.len() && #[trigger] t[k] == e;
            assert(c[k] == e);
            assert(c[k].uid != c[c.len() - 1].uid);
        }
        if x.uid == e.uid {
            assert(c[c.len() - 1] == e);
            assert(!in_t);
            first_where_is_first(l.tracks, keyed(track_uid_key(), Some(e.uid)));
            assert forall|j: int| 0 <= j < i implies !q(#[trigger] m.tracks[j]) by {
                assert(!keyed(track_uid_key(), Some(e.uid))(l.tracks[j]));
            }
            first_where_at(m.tracks, q, i);
        } else {
            if in_c && !in_t {
                let k = choose|k: int| 0 <= k < c.len() && #[trigger] c[k] == e;
                if k < t.len() {
                    assert(t[k] == e);
                }
            }
            assert(n.tracks[i] == m.tracks[i]);
        }
    }
}

pub(crate) proof fn nothing_else_changes_tracks(l: LibraryView, c: crate::merge::ChangesView)
    ensures
        joined(l, c).library.tracks == all_taken(l, c.tracks, metadata_taken()).0.tracks,
{
    let l1 = all_taken(l, c.tracks, metadata_taken()).0;
    let l2 = all_taken(l1, c.playlists, playlist_taken()).0;
    playlists_never_go_back(l1, c.playlists);
    parents_keep_tracks(l2, newer_ones(l1, c.playlists));
    let l3 = all_taken(l2, newer_ones(l1, c.playlists), parent_taken()).0;
    places_keep_tracks(l3, c.memberships);
}

proof fn parents_keep_tracks(l: LibraryView, c: Seq<PlaylistEntryView>)
    ensures
        all_taken(l, c, parent_taken()).0.tracks == l.tracks,
        all_taken(l, c, parent_taken()).0.playlist_tracks == l.playlist_tracks,
        all_taken(l, c, parent_taken()).0.tombstones == l.tombstones,
    decreases c.len(),
{
    if c.len() > 0 {
        parents_keep_tracks(l, c.drop_last());
    }
}

pub(crate) proof fn places_keep_tracks(l: LibraryView, c: Seq<crate::manifest::MembershipView>)
    ensures
        all_taken(l, c, membership_taken()).0.tracks == l.tracks,
        all_taken(l, c, membership_taken()).0.playlists == l.playlists,
    decreases c.len(),
{
    if c.len() > 0 {
        places_keep_tracks(l, c.drop_last());
    }
}

pub(crate) proof fn entries_differ(rows: Seq<TrackRowView>)
    requires
        distinct_where_some(rows, track_uid_key()),
    ensures
        one_each(rows.filter(track_has_uid()).map_values(|t: TrackRowView| track_entry(t))),
{
    let kept = rows.filter(track_has_uid());
    let es = kept.map_values(|t: TrackRowView| track_entry(t));
    distinct_some_filter(rows, track_has_uid(), track_uid_key());
    filter_is_part(rows, track_has_uid());
    assert forall|i: int, j: int| 0 <= i < j < es.len() implies (#[trigger] es[i]).uid != (
    #[trigger] es[j]).uid by {
        assert(track_has_uid()(kept[i]) && track_has_uid()(kept[j]));
        assert(track_uid_key()(kept[i]) is Some);
        assert(track_uid_key()(kept[i]) != track_uid_key()(kept[j]));
    }
}

pub(crate) proof fn part_of_one_each(c: Seq<TrackEntryView>, p: spec_fn(TrackEntryView) -> bool)
    requires
        one_each(c),
    ensures
        one_each(c.filter(p)),
        forall|k: int| 0 <= k < c.filter(p).len() ==> c.contains(#[trigger] c.filter(p)[k]),
{
    let s = c.filter(p);
    assert forall|i: int, j: int| 0 <= i < j < c.len() implies track_entry_uid()(#[trigger] c[i])
        != track_entry_uid()(#[trigger] c[j]) by {
        assert(c[i].uid != c[j].uid);
    }
    distinct_filter(c, p, track_entry_uid());
    filter_is_part(c, p);
    assert forall|i: int, j: int| 0 <= i < j < s.len() implies (#[trigger] s[i]).uid != (
    #[trigger] s[j]).uid by {
        assert(track_entry_uid()(s[i]) != track_entry_uid()(s[j]));
    }
}

/// The newest metadata wins: once `b` has taken in what `a` told it, a track that
/// both have carries the metadata of `a` where these are newer, and its own where
/// they are not.
pub proof fn the_newest_metadata_wins(
    a: LibraryView,
    b: LibraryView,
    name_a: Seq<char>,
    name_b: Seq<char>,
    i: int,
    j: int,
)
    requires
        a.wf(),
        b.wf(),
        0 <= i < a.tracks.len(),
        0 <= j < b.tracks.len(),
        a.tracks[i].uid is Some,
        b.tracks[j].uid == a.tracks[i].uid,
    ensures
        ({
            let told = news_for(manifest_of(a, name_a), manifest_of(b, name_b));
            joined(b, told).library.tracks[j] == if a.tracks[i].updated_at
                > b.tracks[j].updated_at {
                with_metadata(b.tracks[j], track_entry(a.tracks[i]))
            } else {
                b.tracks[j]
            }
        }),
{
    let ma = manifest_of(a, name_a);
    let mb = manifest_of(b, name_b);
    let told = news_for(ma, mb);
    let f = |t: TrackRowView| track_entry(t);
    let e = track_entry(a.tracks[i]);
    let u = a.tracks[i].uid->0;
    let p = track_is_news(mb);
    nothing_else_changes_tracks(b, told);
    // The row of `b` is the one that is found.
    let key = keyed(track_uid_key(), Some(u));
    assert forall|k: int| 0 <= k < j implies !key(#[trigger] b.tracks[k]) by {
        if key(b.tracks[k]) {
            assert(track_uid_key()(b.tracks[k]) is Some);
            assert(track_uid_key()(b.tracks[k]) != track_uid_key()(b.tracks[j]));
        }
    }
    first_where_at(b.tracks, key, j);
    entry_of_the_row(b.tracks, track_has_uid(), f, track_uid_key(), track_entry_uid(), u);
    // The entries of `a`.
    entries_differ(a.tracks);
    part_of_one_each(ma.tracks, p);
    let at = row_has_its_entry(a.tracks, track_has_uid(), f, i);
    assert(ma.tracks[at] == e);
    assert forall|k: int| 0 <= k < told.tracks.len() && (#[trigger] told.tracks[k]).uid
        == e.uid implies told.tracks[k] == e by {
        let n = choose|n: int| 0 <= n < ma.tracks.len() && ma.tracks[n] == told.tracks[k];
        if n < at {
            assert(ma.tracks[n].uid != ma.tracks[at].uid);
        } else if at < n {
            assert(ma.tracks[at].uid != ma.tracks[n].uid);
        }
    }
    only_its_entry_counts(b, told.tracks, j, e);
    if a.tracks[i].updated_at > b.tracks[j].updated_at {
        assert(p(ma.tracks[at]));
        let k = filtered_is_there(ma.tracks, p, at);
        assert(told.tracks[k] == e);
    }
}

/// The metadata of a track.
pub open spec fn same_metadata(x: TrackRowView, y: TrackRowView) -> bool {
    &&& x.title == y.title
    &&& x.artist == y.artist
    &&& x.album == y.album
    &&& x.genre == y.genre
    &&& x.duration_ms == y.duration_ms
    &&& x.bpm == y.bpm
    &&& x.updated_at == y.updated_at
}

/// Two devices that told each other what changed end up with the same metadata of a
/// track that both have, unless they changed it at the very same moment.
pub proof fn both_sides_end_up_alike(
    a: LibraryView,
    b: LibraryView,
    name_a: Seq<char>,
    name_b: Seq<char>,
    i: int,
    j: int,
)
    requires
        a.wf(),
        b.wf(),
        0 <= i < a.tracks.len(),
        0 <= j < b.tracks.len(),
        a.tracks[i].uid is Some,
        b.tracks[j].uid == a.tracks[i].uid,
        a.tracks[i].updated_at != b.tracks[j].updated_at || same_metadata(a.tracks[i], b.tracks[j]),
    ensures
        ({
            let ma = manifest_of(a, name_a);
            let mb = manifest_of(b, name_b);
            same_metadata(
                joined(a, news_for(mb, ma)).library.tracks[i],
                joined(b, news_for(ma, mb)).library.tracks[j],
            )
        }),
{
    the_newest_metadata_wins(a, b, name_a, name_b, i, j);
    the_newest_metadata_wins(b, a, name_b, name_a, j, i);
}

// ---------------------------------------------------------------------------
// Playlists
// ---------------------------------------------------------------------------

/// Every playlist of `a` that `b` has not deleted is on `b`, and no older, once it has
/// taken in what `a` told it.
pub proof fn every_playlist_arrives(
    a: LibraryView,
    b: LibraryView,
    name_a: Seq<char>,
    name_b: Seq<char>,
    i: int,
)
    requires
        0 <= i < a.playlists.len(),
        a.playlists[i].uid is Some,
        !is_buried(b, "playlist"@, a.playlists[i].uid->0),
    ensures
        ({
            let told = news_for(manifest_of(a, name_a), manifest_of(b, name_b));
            match row_with(
                joined(b, told).library.playlists,
                playlist_uid_key(),
                a.playlists[i].uid,
            ) {
                Some(p) => p.updated_at >= a.playlists[i].updated_at,
                None => false,
            }
        }),
{
    let ma = manifest_of(a, name_a);
    let mb = manifest_of(b, name_b);
    let told = news_for(ma, mb);
    let u = a.playlists[i].uid->0;
    let e = playlist_entry(a)(a.playlists[i]);
    let p = playlist_is_news(mb);
    let l1 = all_taken(b, told.tracks, metadata_taken()).0;
    let l2 = all_taken(l1, told.playlists, playlist_taken()).0;
    let l3 = all_taken(l2, newer_ones(l1, told.playlists), parent_taken()).0;
    metadata_keeps_the_rest(b, told.tracks);
    playlists_never_go_back(l1, told.playlists);
    parents_keep_clocks(l2, newer_ones(l1, told.playlists));
    places_keep_tracks(l3, told.memberships);
    let l4 = joined(b, told).library;
    assert(l4.playlists == l3.playlists);
    let key = keyed(playlist_uid_key(), Some(u));
    let at = row_has_its_entry(a.playlists, playlist_has_uid(), playlist_entry(a), i);
    assert(ma.playlists[at] == e);
    entry_of_the_row(
        b.playlists,
        playlist_has_uid(),
        playlist_entry(b),
        playlist_uid_key(),
        playlist_entry_uid(),
        u,
    );
    first_where_is_first(b.tombstones, keyed(tombstone_key(), ("playlist"@, u)));
    assert(!has_tombstone_for(mb.tombstones, "playlist"@, u)) by {
        if has_tombstone_for(mb.tombstones, "playlist"@, u) {
            let k = choose|k: int|
                0 <= k < mb.tombstones.len() && (#[trigger] mb.tombstones[k]).entity == "playlist"@
                    && mb.tombstones[k].uid == u;
            assert(mb.tombstones[k] == tombstone_entry()(b.tombstones[k]));
            assert(!keyed(tombstone_key(), ("playlist"@, u))(b.tombstones[k]));
        }
    }
    first_where_is_first(b.playlists, key);
    first_where_is_first(l2.playlists, key);
    if p(e) {
        let k = filtered_is_there(ma.playlists, p, at);
        assert(playlist_is_old(l2, told.playlists[k]));
        assert(!is_buried(l2, "playlist"@, u));
    } else {
        // It is here already, and no older.
        let n = first_where(b.playlists, key)->0;
        assert(l2.playlists[n].uid == b.playlists[n].uid);
        assert forall|k: int| 0 <= k < n implies !key(#[trigger] l2.playlists[k]) by {
            assert(!key(b.playlists[k]));
            assert(l2.playlists[k].uid == b.playlists[k].uid);
        }
        first_where_at(l2.playlists, key, n);
    }
    let n = first_where(l2.playlists, key)->0;
    assert forall|k: int| 0 <= k < n implies !key(#[trigger] l3.playlists[k]) by {
        assert(!key(l2.playlists[k]));
        assert(l3.playlists[k].uid == l2.playlists[k].uid);
    }
    assert(l3.playlists[n].uid == l2.playlists[n].uid);
    first_where_at(l3.playlists, key, n);
}

pub(crate) proof fn metadata_keeps_the_rest(l: LibraryView, c: Seq<TrackEntryView>)
    ensures
        all_taken(l, c, metadata_taken()).0.playlist_tracks == l.playlist_tracks,
        all_taken(l, c, metadata_taken()).0.playlists == l.playlists,
        all_taken(l, c, metadata_taken()).0.tombstones == l.tombstones,
    decreases c.len(),
{
    if c.len() > 0 {
        metadata_keeps_the_rest(l, c.drop_last());
    }
}

pub(crate) proof fn parents_keep_clocks(l: LibraryView, c: Seq<PlaylistEntryView>)
    ensures
        all_taken(l, c, parent_taken()).0.playlists.len() == l.playlists.len(),
        forall|i: int|
            0 <= i < l.playlists.len() ==> (#[trigger] all_taken(
                l,
                c,
                parent_taken(),
            ).0.playlists[i]).uid == l.playlists[i].uid && all_taken(
                l,
                c,
                parent_taken(),
            ).0.playlists[i].id == l.playlists[i].id && all_taken(
                l,
                c,
                parent_taken(),
            ).0.playlists[i].updated_at == l.playlists[i].updated_at,
    decreases c.len(),
{
    if c.len() > 0 {
        let t = c.drop_last();
        parents_keep_clocks(l, t);
        let m = all_taken(l, t, parent_taken()).0;
        first_where_is_first(m.playlists, keyed(playlist_uid_key(), Some(c.last().uid)));
    }
}

// ---------------------------------------------------------------------------
// What is in playlists
// ---------------------------------------------------------------------------

/// The track of one uid stands in the playlist of another.
pub open spec fn stands_in(l: LibraryView, playlist_uid: Seq<char>, track_uid: Seq<char>) -> bool {
    &&& row_with(l.playlists, playlist_uid_key(), Some(playlist_uid)) is Some
    &&& row_with(l.tracks, track_uid_key(), Some(track_uid)) is Some
    &&& pair_there(
        l.playlist_tracks,
        (row_with(l.playlists, playlist_uid_key(), Some(playlist_uid))->0).id,
        (row_with(l.tracks, track_uid_key(), Some(track_uid))->0).id,
    )
}

pub open spec fn pair_there(rows: Seq<PlaylistTrackRowView>, playlist: i64, track: i64) -> bool {
    exists|i: int|
        0 <= i < rows.len() && (#[trigger] rows[i]).playlist_id == playlist && rows[i].track_id
            == track
}

pub open spec fn has_colon(s: Seq<char>) -> bool {
    exists|i: int| 0 <= i < s.len() && #[trigger] s[i] == ':'
}

/// No playlist has a uid with a colon in it: the name of a pair then tells its two
/// uids apart.
pub open spec fn plain_uids(rows: Seq<PlaylistRowView>) -> bool {
    forall|i: int|
        0 <= i < rows.len() && (#[trigger] rows[i]).uid is Some ==> !has_colon(rows[i].uid->0)
}

pub(crate) proof fn pair_names_tell_apart(p: Seq<char>, t: Seq<char>, q: Seq<char>, u: Seq<char>)
    requires
        !has_colon(p),
        !has_colon(q),
        pair_key_of(p, t) == pair_key_of(q, u),
    ensures
        p == q,
        t == u,
{
    let k = pair_key_of(p, t);
    let j = pair_key_of(q, u);
    reveal_strlit(":");
    assert(k[p.len() as int] == ':');
    assert(j[q.len() as int] == ':');
    if p.len() < q.len() {
        assert(j[p.len() as int] == q[p.len() as int]);
        assert(has_colon(q));
    }
    if q.len() < p.len() {
        assert(k[q.len() as int] == p[q.len() as int]);
        assert(has_colon(p));
    }
    assert(k.take(p.len() as int) =~= p);
    assert(j.take(q.len() as int) =~= q);
    assert(k.skip(p.len() as int + 1) =~= t);
    assert(j.skip(q.len() as int + 1) =~= u);
}

/// A pair that is there stays while memberships are taken in, and one of the changes
/// that nothing holds back is there afterwards.
proof fn places_add_up(
    l: LibraryView,
    c: Seq<MembershipView>,
    m: MembershipView,
    playlist: i64,
    track: i64,
)
    requires
        match row_with(l.playlists, playlist_uid_key(), Some(m.playlist_uid)) {
            Some(p) => p.id == playlist,
            None => false,
        },
        match row_with(l.tracks, track_uid_key(), Some(m.track_uid)) {
            Some(t) => t.id == track,
            None => false,
        },
        !held_back(l, m),
    ensures
        ({
            let n = all_taken(l, c, membership_taken()).0;
            &&& n.playlists == l.playlists
            &&& n.tracks == l.tracks
            &&& !held_back(n, m)
            &&& pair_there(l.playlist_tracks, playlist, track) ==> pair_there(
                n.playlist_tracks,
                playlist,
                track,
            )
            &&& (exists|k: int| 0 <= k < c.len() && #[trigger] c[k] == m) ==> pair_there(
                n.playlist_tracks,
                playlist,
                track,
            )
        }),
    decreases c.len(),
{
    if c.len() > 0 {
        let t = c.drop_last();
        let x = c.last();
        places_add_up(l, t, m, playlist, track);
        let a = all_taken(l, t, membership_taken()).0;
        let n = membership_taken()(a, x).0;
        place_stays(a, x, playlist, track);
        fewer_graves(a, x, m);
        if exists|k: int| 0 <= k < c.len() && #[trigger] c[k] == m {
            let k = choose|k: int| 0 <= k < c.len() && #[trigger] c[k] == m;
            if k < t.len() {
                assert(t[k] == m);
            } else {
                let key = keyed(pair_of(), (playlist, track));
                first_where_is_first(a.playlist_tracks, key);
                match first_where(a.playlist_tracks, key) {
                    Some(i) => {
                        assert(n.playlist_tracks[i].playlist_id == playlist);
                    },
                    None => {
                        assert(n.playlist_tracks[a.playlist_tracks.len() as int].playlist_id
                            == playlist);
                    },
                }
            }
        }
    }
}

/// A deletion here that is not older holds the membership back.
pub open spec fn held_back(l: LibraryView, m: MembershipView) -> bool {
    match row_with(l.tombstones, tombstone_key(), ("playlist_track"@, key_of(m))) {
        Some(t) => t.deleted_at >= m.added_at,
        None => false,
    }
}

proof fn place_stays(l: LibraryView, x: MembershipView, playlist: i64, track: i64)
    ensures
        pair_there(l.playlist_tracks, playlist, track) ==> pair_there(
            membership_taken()(l, x).0.playlist_tracks,
            playlist,
            track,
        ),
{
    let n = membership_taken()(l, x).0;
    if pair_there(l.playlist_tracks, playlist, track) {
        let i = choose|i: int|
            0 <= i < l.playlist_tracks.len() && (#[trigger] l.playlist_tracks[i]).playlist_id
                == playlist && l.playlist_tracks[i].track_id == track;
        let p = row_with(l.playlists, playlist_uid_key(), Some(x.playlist_uid));
        let t = row_with(l.tracks, track_uid_key(), Some(x.track_uid));
        if p is Some && t is Some {
            first_where_is_first(l.playlist_tracks, keyed(pair_of(), (p->0.id, t->0.id)));
        }
        assert(n.playlist_tracks[i].playlist_id == playlist);
    }
}

/// Taking a membership in digs up graves, and digs no new ones.
pub(crate) proof fn fewer_graves(l: LibraryView, x: MembershipView, m: MembershipView)
    requires
        !held_back(l, m),
    ensures
        !held_back(membership_taken()(l, x).0, m),
{
    let n = membership_taken()(l, x).0;
    let k = ("playlist_track"@, key_of(m));
    let keep = crate::db::other_than("playlist_track"@, key_of(x));
    if n.tombstones != l.tombstones {
        assert(n.tombstones == l.tombstones.filter(keep));
        if key_of(x) == key_of(m) {
            found_by_key(n.tombstones, tombstone_key(), k);
            if let Some(i) = first_where(n.tombstones, keyed(tombstone_key(), k)) {
                filter_is_part(l.tombstones, keep);
                assert(keep(n.tombstones[i]));
            }
        } else {
            crate::merge_laws::row_with_after_filter(l.tombstones, keep, tombstone_key(), k);
        }
    }
}

pub(crate) proof fn nothing_else_changes_places(l: LibraryView, c: crate::merge::ChangesView)
    ensures
        ({
            let l1 = all_taken(l, c.tracks, metadata_taken()).0;
            let l2 = all_taken(l1, c.playlists, playlist_taken()).0;
            let l3 = all_taken(l2, newer_ones(l1, c.playlists), parent_taken()).0;
            &&& l3.playlist_tracks == l.playlist_tracks
            &&& l3.tombstones == l.tombstones
            &&& l3.tracks == l1.tracks
            &&& l1.playlists == l.playlists
        }),
{
    let l1 = all_taken(l, c.tracks, metadata_taken()).0;
    let l2 = all_taken(l1, c.playlists, playlist_taken()).0;
    metadata_keeps_the_rest(l, c.tracks);
    playlists_never_go_back(l1, c.playlists);
    parents_keep_tracks(l2, newer_ones(l1, c.playlists));
}

/// The entry of a membership that is named as a pair is of that pair.
pub(crate) proof fn last_is_there(s: Seq<MembershipView>, key: Seq<char>) -> (k: int)
    requires
        last_membership(s, key) is Some,
    ensures
        0 <= k < s.len(),
        key_of(s[k]) == key,
        last_membership(s, key) == Some(s[k]),
    decreases s.len(),
{
    if key_of(s.last()) == key {
        s.len() - 1
    } else {
        let k = last_is_there(s.drop_last(), key);
        assert(s.drop_last()[k] == s[k]);
        k
    }
}

pub(crate) proof fn entry_has_its_row<R, E>(
    rows: Seq<R>,
    named: spec_fn(R) -> bool,
    entry: spec_fn(R) -> E,
    k: int,
) -> (i: int)
    requires
        0 <= k < rows.filter(named).map_values(entry).len(),
    ensures
        0 <= i < rows.len(),
        named(rows[i]),
        rows.filter(named).map_values(entry)[k] == entry(rows[i]),
    decreases rows.len(),
{
    reveal(Seq::filter);
    let t = rows.drop_last();
    let es = rows.filter(named);
    if named(rows.last()) && k == es.len() - 1 {
        rows.len() - 1
    } else {
        assert(es[k] == t.filter(named)[k]);
        let i = entry_has_its_row(t, named, entry, k);
        assert(t[i] == rows[i]);
        i
    }
}

/// Every track that `a` has in a playlist is in it on `b` too, once `b` has taken in
/// what `a` told it: unless `b` lacks the track, deleted the playlist, or took the
/// track out of it after it was put there.
pub proof fn every_place_arrives(
    a: LibraryView,
    b: LibraryView,
    name_a: Seq<char>,
    name_b: Seq<char>,
    i: int,
)
    requires
        a.wf(),
        b.wf(),
        plain_uids(a.playlists),
        plain_uids(b.playlists),
        0 <= i < a.playlist_tracks.len(),
        both_have_uids(a)(a.playlist_tracks[i]),
        ({
            let m = membership_entry(a)(a.playlist_tracks[i]);
            &&& row_with(b.tracks, track_uid_key(), Some(m.track_uid)) is Some
            &&& !is_buried(b, "playlist"@, m.playlist_uid)
            &&& !held_back(b, m)
        }),
    ensures
        ({
            let m = membership_entry(a)(a.playlist_tracks[i]);
            let told = news_for(manifest_of(a, name_a), manifest_of(b, name_b));
            stands_in(joined(b, told).library, m.playlist_uid, m.track_uid)
        }),
{
    let row = a.playlist_tracks[i];
    let m = membership_entry(a)(row);
    let ma = manifest_of(a, name_a);
    let mb = manifest_of(b, name_b);
    let told = news_for(ma, mb);
    let l1 = all_taken(b, told.tracks, metadata_taken()).0;
    let l2 = all_taken(l1, told.playlists, playlist_taken()).0;
    let l3 = all_taken(l2, newer_ones(l1, told.playlists), parent_taken()).0;
    let l4 = joined(b, told).library;
    nothing_else_changes_places(b, told);
    places_keep_tracks(l3, told.memberships);
    // The playlist is there.
    found_by_key(a.playlists, playlist_id(), row.playlist_id);
    let pa = first_where(a.playlists, keyed(playlist_id(), row.playlist_id))->0;
    assert(a.playlists[pa].uid == Some(m.playlist_uid));
    every_playlist_arrives(a, b, name_a, name_b, pa);
    // The track is there, under the id it had.
    metadata_never_goes_back(b, told.tracks);
    assert forall|k: int| 0 <= k < b.tracks.len() implies track_uid_key()(#[trigger] b.tracks[k])
        == track_uid_key()(l1.tracks[k]) by {
        assert(l1.tracks[k].uid == b.tracks[k].uid);
    }
    same_keys_same_first(b.tracks, l1.tracks, track_uid_key(), Some(m.track_uid));
    found_by_key(b.tracks, track_uid_key(), Some(m.track_uid));
    let playlist = (row_with(l3.playlists, playlist_uid_key(), Some(m.playlist_uid))->0).id;
    let track = (row_with(l3.tracks, track_uid_key(), Some(m.track_uid))->0).id;
    places_add_up(l3, told.memberships, m, playlist, track);
    // Either `b` has the pair already, or it is told of it.
    let at = row_has_its_entry(a.playlist_tracks, both_have_uids(a), membership_entry(a), i);
    let p = membership_is_news(ma, mb);
    if p(m) {
        let k = filtered_is_there(ma.memberships, p, at);
        assert(told.memberships[k] == m);
    } else {
        graves_are_told(b, name_b, m);
        let k = last_is_there(mb.memberships, key_of(m));
        let j = entry_has_its_row(b.playlist_tracks, both_have_uids(b), membership_entry(b), k);
        let other = membership_entry(b)(b.playlist_tracks[j]);
        let pid = b.playlist_tracks[j].playlist_id;
        let tid = b.playlist_tracks[j].track_id;
        found_by_key(b.playlists, playlist_id(), pid);
        let pb = first_where(b.playlists, keyed(playlist_id(), pid))->0;
        assert(b.playlists[pb].uid == Some(other.playlist_uid));
        pair_names_tell_apart(m.playlist_uid, m.track_uid, other.playlist_uid, other.track_uid);
        // The playlist of that uid is the one of that id, before and after.
        uid_finds_it(b.playlists, l3.playlists, pb, told, b);
        // So is the track.
        found_by_key(b.tracks, track_id(), tid);
        let tb = first_where(b.tracks, keyed(track_id(), tid))->0;
        assert(b.tracks[tb].uid == Some(m.track_uid));
        let tf = first_where(b.tracks, keyed(track_uid_key(), Some(m.track_uid)))->0;
        if tf < tb {
            assert(track_uid_key()(b.tracks[tf]) is Some);
            assert(track_uid_key()(b.tracks[tf]) != track_uid_key()(b.tracks[tb]));
        } else if tb < tf {
            assert(track_uid_key()(b.tracks[tb]) is Some);
            assert(track_uid_key()(b.tracks[tb]) != track_uid_key()(b.tracks[tf]));
        }
        assert(l1.tracks[tf].id == b.tracks[tf].id);
        assert(l3.playlist_tracks[j].playlist_id == playlist);
        assert(pair_there(l3.playlist_tracks, playlist, track));
    }
}

/// What `b` tells of its deletions is what it has of them.
pub(crate) proof fn graves_are_told(b: LibraryView, name_b: Seq<char>, m: MembershipView)
    requires
        !held_back(b, m),
    ensures
        ({
            let d = deleted_at_in(manifest_of(b, name_b), "playlist_track"@, key_of(m));
            !(d is Some && d->0 >= m.added_at)
        }),
{
    let k = ("playlist_track"@, key_of(m));
    let ts = manifest_of(b, name_b).tombstones;
    found_by_key(b.tombstones, tombstone_key(), k);
    found_by_key(ts, tombstone_entry_key(), k);
    first_where_is_first(b.tombstones, keyed(tombstone_key(), k));
    first_where_is_first(ts, keyed(tombstone_entry_key(), k));
    assert forall|i: int| 0 <= i < ts.len() implies (#[trigger] ts[i]) == tombstone_entry()(
        b.tombstones[i],
    ) by {}
    match first_where(ts, keyed(tombstone_entry_key(), k)) {
        Some(i) => {
            assert(tombstone_key()(b.tombstones[i]) == k);
            assert forall|j: int| 0 <= j < i implies !keyed(tombstone_key(), k)(
                #[trigger] b.tombstones[j],
            ) by {
                assert(!keyed(tombstone_entry_key(), k)(ts[j]));
            }
            first_where_at(b.tombstones, keyed(tombstone_key(), k), i);
        },
        None => {},
    }
}

/// A playlist of `b` is still found by its uid, under its id, once the others came.
pub(crate) proof fn uid_finds_it(
    before: Seq<PlaylistRowView>,
    after: Seq<PlaylistRowView>,
    j: int,
    told: crate::merge::ChangesView,
    b: LibraryView,
)
    requires
        b.wf(),
        before == b.playlists,
        0 <= j < before.len(),
        before[j].uid is Some,
        after == all_taken(
            all_taken(
                all_taken(b, told.tracks, metadata_taken()).0,
                told.playlists,
                playlist_taken(),
            ).0,
            newer_ones(all_taken(b, told.tracks, metadata_taken()).0, told.playlists),
            parent_taken(),
        ).0.playlists,
    ensures
        match row_with(after, playlist_uid_key(), before[j].uid) {
            Some(p) => p.id == before[j].id,
            None => false,
        },
{
    let l1 = all_taken(b, told.tracks, metadata_taken()).0;
    let l2 = all_taken(l1, told.playlists, playlist_taken()).0;
    metadata_keeps_the_rest(b, told.tracks);
    playlists_never_go_back(l1, told.playlists);
    parents_keep_clocks(l2, newer_ones(l1, told.playlists));
    let k = keyed(playlist_uid_key(), before[j].uid);
    assert forall|n: int| 0 <= n < j implies !k(#[trigger] after[n]) by {
        assert(after[n].uid == l2.playlists[n].uid);
        assert(l2.playlists[n].uid == before[n].uid);
        if before[n].uid == before[j].uid {
            assert(playlist_uid_key()(before[n]) is Some);
            assert(playlist_uid_key()(before[n]) != playlist_uid_key()(before[j]));
        }
    }
    assert(after[j].uid == l2.playlists[j].uid);
    assert(l2.playlists[j].uid == before[j].uid);
    first_where_at(after, k, j);
}

} // verus!
