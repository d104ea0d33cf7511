//! What holds of taking changes in, whatever the changes.

use crate::library::{
    pair_of, playlist_id, playlist_uid_key, tombstone_key, track_id, track_uid_key, LibraryView,
    PlaylistRowView, PlaylistTrackRowView, TombstoneRowView, TrackRowView,
};
use crate::manifest::{key_of, MembershipView, PlaylistEntryView, TombstoneView, TrackEntryView};
use crate::merge::{
    all_taken, colon_at, deletion_taken, id_of_playlist, is_buried, joined, joined_and_recorded,
    membership_taken, membership_taken_wf, metadata_taken, newer_ones, parent_taken,
    parent_taken_wf, place_survives, playlist_taken, room_for, taken, tombstone_kept,
    tombstone_kept_wf, ChangesView, DeletePolicy,
};
use crate::table::{first_where, first_where_at, first_where_is_first, keyed, row_with};
use crate::tracks::without_tracks;
use vstd::prelude::*;

verus! {

// ---------------------------------------------------------------------------
// Finding rows in tables that changed
// ---------------------------------------------------------------------------

pub(crate) proof fn same_keys_same_first<A, K>(a: Seq<A>, b: Seq<A>, key: spec_fn(A) -> K, k: K)
    requires
        a.len() == b.len(),
        forall|i: int| 0 <= i < a.len() ==> key(#[trigger] a[i]) == key(b[i]),
    ensures
        first_where(a, keyed(key, k)) == first_where(b, keyed(key, k)),
{
    first_where_is_first(a, keyed(key, k));
    first_where_is_first(b, keyed(key, k));
    let p = keyed(key, k);
    match first_where(a, p) {
        Some(i) => {
            assert forall|j: int| 0 <= j < i implies !p(#[trigger] b[j]) by {
                assert(!p(a[j]));
                assert(key(a[j]) == key(b[j]));
            }
            assert(key(a[i]) == key(b[i]));
            first_where_at(b, p, i);
        },
        None => {
            assert forall|j: int| 0 <= j < b.len() implies !p(#[trigger] b[j]) by {
                assert(!p(a[j]));
                assert(key(a[j]) == key(b[j]));
            }
        },
    }
}

/// A row found stays found, at the same place, when rows are added at the end.
proof fn first_stays_after_push<A>(s: Seq<A>, x: A, p: spec_fn(A) -> bool)
    ensures
        first_where(s, p) is Some ==> first_where(s.push(x), p) == first_where(s, p),
        first_where(s, p) is None && !p(x) ==> first_where(s.push(x), p) is None,
        first_where(s, p) is None && p(x) ==> first_where(s.push(x), p) == Some(s.len() as int),
{
    assert(s.push(x).drop_last() =~= s);
    assert(s.push(x).last() == x);
}

/// Dropping rows of another kind does not change which row is found.
pub(crate) proof fn row_with_after_filter<A, K>(
    s: Seq<A>,
    keep: spec_fn(A) -> bool,
    key: spec_fn(A) -> K,
    k: K,
)
    requires
        forall|i: int| 0 <= i < s.len() && key(#[trigger] s[i]) == k ==> keep(s[i]),
    ensures
        row_with(s.filter(keep), key, k) == row_with(s, key, k),
    decreases s.len(),
{
    reveal(Seq::filter);
    if s.len() > 0 {
        let t = s.drop_last();
        assert forall|i: int| 0 <= i < t.len() && key(#[trigger] t[i]) == k implies keep(t[i]) by {
            assert(t[i] == s[i]);
        }
        row_with_after_filter(t, keep, key, k);
        let p = keyed(key, k);
        first_where_is_first(t, p);
        first_where_is_first(t.filter(keep), p);
        assert(s =~= t.push(s.last()));
        first_stays_after_push(t, s.last(), p);
        first_stays_after_push(t.filter(keep), s.last(), p);
        assert(s[s.len() - 1] == s.last());
    }
}

pub(crate) proof fn found_by_key<A, K>(s: Seq<A>, key: spec_fn(A) -> K, k: K)
    ensures
        match first_where(s, keyed(key, k)) {
            Some(i) => 0 <= i < s.len() && key(s[i]) == k && row_with(s, key, k) == Some(s[i]),
            None => row_with(s, key, k) is None && forall|j: int|
                0 <= j < s.len() ==> key(#[trigger] s[j]) != k,
        },
{
    first_where_is_first(s, keyed(key, k));
    if first_where(s, keyed(key, k)) is None {
        assert forall|j: int| 0 <= j < s.len() implies key(#[trigger] s[j]) != k by {
            assert(!keyed(key, k)(s[j]));
        }
    }
}

// ---------------------------------------------------------------------------
// Metadata
// ---------------------------------------------------------------------------

/// The track of the entry is not here, or is as new as the entry.
pub open spec fn metadata_is_old(l: LibraryView, e: TrackEntryView) -> bool {
    match first_where(l.tracks, keyed(track_uid_key(), Some(e.uid))) {
        Some(i) => l.tracks[i].updated_at >= e.updated_at,
        None => true,
    }
}

/// The same tracks, none of them with an older clock.
pub open spec fn no_older(a: Seq<TrackRowView>, b: Seq<TrackRowView>) -> bool {
    &&& a.len() == b.len()
    &&& forall|i: int|
        0 <= i < a.len() ==> (#[trigger] b[i]).id == a[i].id && b[i].path == a[i].path && b[i].uid
            == a[i].uid && b[i].updated_at >= a[i].updated_at
}

proof fn metadata_step(l: LibraryView, e: TrackEntryView)
    ensures
        no_older(l.tracks, metadata_taken()(l, e).0.tracks),
        metadata_is_old(metadata_taken()(l, e).0, e),
        metadata_is_old(l, e) ==> metadata_taken()(l, e) == (l, 0nat),
{
    let m = metadata_taken()(l, e).0;
    let p = keyed(track_uid_key(), Some(e.uid));
    first_where_is_first(l.tracks, p);
    same_keys_same_first(l.tracks, m.tracks, track_uid_key(), Some(e.uid));
}

proof fn old_metadata_stays_old(a: LibraryView, b: LibraryView, e: TrackEntryView)
    requires
        no_older(a.tracks, b.tracks),
        metadata_is_old(a, e),
    ensures
        metadata_is_old(b, e),
{
    assert forall|i: int| 0 <= i < a.tracks.len() implies track_uid_key()(#[trigger] a.tracks[i])
        == track_uid_key()(b.tracks[i]) by {
        assert(b.tracks[i].uid == a.tracks[i].uid);
    }
    same_keys_same_first(a.tracks, b.tracks, track_uid_key(), Some(e.uid));
    first_where_is_first(a.tracks, keyed(track_uid_key(), Some(e.uid)));
}

/// Taking metadata in changes no track's identity, turns no clock back, and leaves
/// every track of the changes that is here at least as new as they are.
pub proof fn metadata_never_goes_back(l: LibraryView, c: Seq<TrackEntryView>)
    ensures
        no_older(l.tracks, all_taken(l, c, metadata_taken()).0.tracks),
        forall|i: int|
            0 <= i < c.len() ==> metadata_is_old(
                all_taken(l, c, metadata_taken()).0,
                #[trigger] c[i],
            ),
    decreases c.len(),
{
    if c.len() > 0 {
        let t = c.drop_last();
        metadata_never_goes_back(l, t);
        let m = all_taken(l, t, metadata_taken()).0;
        let n = metadata_taken()(m, c.last()).0;
        metadata_step(m, c.last());
        assert(no_older(l.tracks, n.tracks)) by {
            assert forall|i: int| 0 <= i < l.tracks.len() implies (#[trigger] n.tracks[i]).id
                == l.tracks[i].id && n.tracks[i].path == l.tracks[i].path && n.tracks[i].uid
                == l.tracks[i].uid && n.tracks[i].updated_at >= l.tracks[i].updated_at by {
                assert(m.tracks[i].id == l.tracks[i].id);
            }
        }
        assert forall|i: int| 0 <= i < c.len() implies metadata_is_old(n, #[trigger] c[i]) by {
            if i < t.len() {
                assert(t[i] == c[i]);
                old_metadata_stays_old(m, n, c[i]);
            }
        }
    }
}

proof fn old_metadata_changes_nothing(l: LibraryView, c: Seq<TrackEntryView>)
    requires
        forall|i: int| 0 <= i < c.len() ==> metadata_is_old(l, #[trigger] c[i]),
    ensures
        all_taken(l, c, metadata_taken()) == (l, 0nat),
    decreases c.len(),
{
    if c.len() > 0 {
        let t = c.drop_last();
        assert forall|i: int| 0 <= i < t.len() implies metadata_is_old(l, #[trigger] t[i]) by {
            assert(t[i] == c[i]);
        }
        old_metadata_changes_nothing(l, t);
        assert(metadata_is_old(l, c[c.len() - 1]));
        metadata_step(l, c.last());
    }
}

// ---------------------------------------------------------------------------
// Playlists
// ---------------------------------------------------------------------------

/// The playlist of the entry was deleted here, or is here and as new.
pub open spec fn playlist_is_old(l: LibraryView, p: PlaylistEntryView) -> bool {
    ||| is_buried(l, "playlist"@, p.uid)
    ||| match first_where(l.playlists, keyed(playlist_uid_key(), Some(p.uid))) {
        Some(i) => l.playlists[i].updated_at >= p.updated_at,
        None => false,
    }
}

/// The playlists of `a` are in `b`, at the same place, none with an older clock.
pub open spec fn playlists_grow(a: Seq<PlaylistRowView>, b: Seq<PlaylistRowView>) -> bool {
    &&& a.len() <= b.len()
    &&& forall|i: int|
        0 <= i < a.len() ==> (#[trigger] b[i]).id == a[i].id && b[i].uid == a[i].uid
            && b[i].updated_at >= a[i].updated_at
}

proof fn old_playlist_stays_old(a: LibraryView, b: LibraryView, p: PlaylistEntryView)
    requires
        playlists_grow(a.playlists, b.playlists),
        is_buried(a, "playlist"@, p.uid) ==> is_buried(b, "playlist"@, p.uid),
        playlist_is_old(a, p),
    ensures
        playlist_is_old(b, p),
{
    let k = keyed(playlist_uid_key(), Some(p.uid));
    first_where_is_first(a.playlists, k);
    if !is_buried(b, "playlist"@, p.uid) {
        let i = first_where(a.playlists, k)->0;
        assert forall|j: int| 0 <= j < i implies !k(#[trigger] b.playlists[j]) by {
            assert(!k(a.playlists[j]));
        }
        assert(b.playlists[i].uid == a.playlists[i].uid);
        first_where_at(b.playlists, k, i);
    }
}

proof fn playlist_step(l: LibraryView, p: PlaylistEntryView)
    ensures
        playlists_grow(l.playlists, playlist_taken()(l, p).0.playlists),
        playlist_taken()(l, p).0.tombstones == l.tombstones,
        playlist_taken()(l, p).0.tracks == l.tracks,
        playlist_taken()(l, p).0.playlist_tracks == l.playlist_tracks,
        playlist_is_old(playlist_taken()(l, p).0, p),
        playlist_is_old(l, p) ==> playlist_taken()(l, p) == (l, 0nat),
{
    let m = playlist_taken()(l, p).0;
    let k = keyed(playlist_uid_key(), Some(p.uid));
    first_where_is_first(l.playlists, k);
    if !is_buried(l, "playlist"@, p.uid) {
        match first_where(l.playlists, k) {
            Some(i) => {
                same_keys_same_first(l.playlists, m.playlists, playlist_uid_key(), Some(p.uid));
            },
            None => {
                first_stays_after_push(l.playlists, m.playlists.last(), k);
                assert(m.playlists =~= l.playlists.push(m.playlists.last()));
            },
        }
    }
}

/// Taking playlists in drops none and turns no clock back, and leaves every
/// playlist of the changes deleted here or at least as new as they are.
pub proof fn playlists_never_go_back(l: LibraryView, c: Seq<PlaylistEntryView>)
    ensures
        ({
            let m = all_taken(l, c, playlist_taken()).0;
            &&& playlists_grow(l.playlists, m.playlists)
            &&& m.tombstones == l.tombstones
            &&& m.tracks == l.tracks
            &&& m.playlist_tracks == l.playlist_tracks
            &&& forall|i: int| 0 <= i < c.len() ==> playlist_is_old(m, #[trigger] c[i])
        }),
    decreases c.len(),
{
    if c.len() > 0 {
        let t = c.drop_last();
        playlists_never_go_back(l, t);
        let m = all_taken(l, t, playlist_taken()).0;
        let n = playlist_taken()(m, c.last()).0;
        playlist_step(m, c.last());
        assert forall|i: int| 0 <= i < l.playlists.len() implies (#[trigger] n.playlists[i]).id
            == l.playlists[i].id && n.playlists[i].uid == l.playlists[i].uid
            && n.playlists[i].updated_at >= l.playlists[i].updated_at by {
            assert(m.playlists[i].id == l.playlists[i].id);
        }
        assert forall|i: int| 0 <= i < c.len() implies playlist_is_old(n, #[trigger] c[i]) by {
            if i < t.len() {
                assert(t[i] == c[i]);
                old_playlist_stays_old(m, n, c[i]);
            }
        }
    }
}

proof fn old_playlists_change_nothing(l: LibraryView, c: Seq<PlaylistEntryView>)
    requires
        forall|i: int| 0 <= i < c.len() ==> playlist_is_old(l, #[trigger] c[i]),
    ensures
        all_taken(l, c, playlist_taken()) == (l, 0nat),
    decreases c.len(),
{
    if c.len() > 0 {
        let t = c.drop_last();
        assert forall|i: int| 0 <= i < t.len() implies playlist_is_old(l, #[trigger] t[i]) by {
            assert(t[i] == c[i]);
        }
        old_playlists_change_nothing(l, t);
        assert(playlist_is_old(l, c[c.len() - 1]));
        playlist_step(l, c.last());
    }
}

/// The same playlists, but for where they hang.
pub open spec fn only_parents_differ(a: LibraryView, b: LibraryView) -> bool {
    &&& a.tracks == b.tracks
    &&& a.playlist_tracks == b.playlist_tracks
    &&& a.tombstones == b.tombstones
    &&& a.playlists.len() == b.playlists.len()
    &&& forall|i: int|
        0 <= i < a.playlists.len() ==> (#[trigger] b.playlists[i]) == (PlaylistRowView {
            parent_id: b.playlists[i].parent_id,
            ..a.playlists[i]
        })
}

proof fn parents_step(l: LibraryView, p: PlaylistEntryView)
    ensures
        only_parents_differ(l, parent_taken()(l, p).0),
{
    first_where_is_first(l.playlists, keyed(playlist_uid_key(), Some(p.uid)));
}

proof fn parents_all(l: LibraryView, c: Seq<PlaylistEntryView>)
    ensures
        only_parents_differ(l, all_taken(l, c, parent_taken()).0),
        l.wf() ==> all_taken(l, c, parent_taken()).0.wf(),
    decreases c.len(),
{
    if c.len() > 0 {
        let t = c.drop_last();
        parents_all(l, t);
        let m = all_taken(l, t, parent_taken()).0;
        let n = parent_taken()(m, c.last()).0;
        parents_step(m, c.last());
        if l.wf() {
            parent_taken_wf(m, c.last());
        }
        assert forall|i: int| 0 <= i < l.playlists.len() implies (#[trigger] n.playlists[i]) == (
        PlaylistRowView { parent_id: n.playlists[i].parent_id, ..l.playlists[i] }) by {
            assert(m.playlists[i].id == l.playlists[i].id);
        }
    }
}

proof fn ids_found_alike(a: LibraryView, b: LibraryView, uid: Option<Seq<char>>)
    requires
        only_parents_differ(a, b),
    ensures
        id_of_playlist(a, uid) == id_of_playlist(b, uid),
        first_where(a.playlists, keyed(playlist_uid_key(), uid)) == first_where(
            b.playlists,
            keyed(playlist_uid_key(), uid),
        ),
{
    assert forall|i: int| 0 <= i < a.playlists.len() implies playlist_uid_key()(
        #[trigger] a.playlists[i],
    ) == playlist_uid_key()(b.playlists[i]) by {
        assert(b.playlists[i].uid == a.playlists[i].uid);
    }
    same_keys_same_first(a.playlists, b.playlists, playlist_uid_key(), uid);
    first_where_is_first(a.playlists, keyed(playlist_uid_key(), uid));
    if let Some(i) = first_where(a.playlists, keyed(playlist_uid_key(), uid)) {
        assert(b.playlists[i].id == a.playlists[i].id);
    }
}

/// An entry of another playlist leaves the row of this one as it was.
proof fn other_entry_keeps_row(l: LibraryView, p: PlaylistEntryView, uid: Seq<char>)
    requires
        p.uid != uid,
    ensures
        row_with(playlist_taken()(l, p).0.playlists, playlist_uid_key(), Some(uid)) == row_with(
            l.playlists,
            playlist_uid_key(),
            Some(uid),
        ),
{
    let m = playlist_taken()(l, p).0;
    let k = keyed(playlist_uid_key(), Some(p.uid));
    let u = keyed(playlist_uid_key(), Some(uid));
    first_where_is_first(l.playlists, k);
    first_where_is_first(l.playlists, u);
    if !is_buried(l, "playlist"@, p.uid) {
        match first_where(l.playlists, k) {
            Some(i) => {
                same_keys_same_first(l.playlists, m.playlists, playlist_uid_key(), Some(uid));
            },
            None => {
                let row = m.playlists.last();
                assert(m.playlists =~= l.playlists.push(row));
                match first_where(l.playlists, u) {
                    Some(j) => {
                        assert forall|n: int| 0 <= n < j implies !u(#[trigger] m.playlists[n]) by {
                            assert(!u(l.playlists[n]));
                        }
                        first_where_at(m.playlists, u, j);
                    },
                    None => {
                        first_where_is_first(m.playlists, u);
                        assert(!u(row));
                        if let Some(j) = first_where(m.playlists, u) {
                            assert(u(m.playlists[j]));
                            assert(!u(l.playlists[j]));
                        }
                    },
                }
            },
        }
    }
}

/// Entries of other playlists leave the row of this one as it was.
pub(crate) proof fn other_entries_keep_row(l: LibraryView, c: Seq<PlaylistEntryView>, uid: Seq<char>)
    requires
        forall|j: int| 0 <= j < c.len() ==> (#[trigger] c[j]).uid != uid,
    ensures
        row_with(
            all_taken(l, c, playlist_taken()).0.playlists,
            playlist_uid_key(),
            Some(uid),
        ) == row_with(l.playlists, playlist_uid_key(), Some(uid)),
        all_taken(l, c, playlist_taken()).0.tombstones == l.tombstones,
    decreases c.len(),
{
    if c.len() > 0 {
        let t = c.drop_last();
        assert forall|j: int| 0 <= j < t.len() implies (#[trigger] t[j]).uid != uid by {
            assert(t[j] == c[j]);
        }
        other_entries_keep_row(l, t, uid);
        let m = all_taken(l, t, playlist_taken()).0;
        assert(c[c.len() - 1].uid != uid);
        other_entry_keeps_row(m, c.last(), uid);
        playlist_step(m, c.last());
    }
}

/// No two entries are of the same playlist.
pub open spec fn entries_differ(c: Seq<PlaylistEntryView>) -> bool {
    forall|j: int, k: int|
        0 <= j < k < c.len() ==> (#[trigger] c[j]).uid != (#[trigger] c[k]).uid
}

/// Of entries of different playlists, the newer ones are as different.
proof fn newer_ones_differ(l: LibraryView, c: Seq<PlaylistEntryView>)
    requires
        entries_differ(c),
    ensures
        entries_differ(newer_ones(l, c)),
        forall|k: int|
            0 <= k < newer_ones(l, c).len() ==> c.contains(#[trigger] newer_ones(l, c)[k]),
    decreases c.len(),
{
    if c.len() > 0 {
        let t = c.drop_last();
        assert forall|j: int, k: int| 0 <= j < k < t.len() implies (#[trigger] t[j]).uid != (
        #[trigger] t[k]).uid by {
            assert(t[j] == c[j] && t[k] == c[k]);
        }
        newer_ones_differ(l, t);
        let before = newer_ones(l, t);
        let all = newer_ones(l, c);
        assert forall|k: int| 0 <= k < all.len() implies c.contains(#[trigger] all[k]) by {
            if k < before.len() {
                assert(t.contains(before[k]));
                let n = choose|n: int| 0 <= n < t.len() && t[n] == before[k];
                assert(c[n] == all[k]);
            } else {
                assert(c[c.len() - 1] == all[k]);
            }
        }
        assert forall|j: int, k: int| 0 <= j < k < all.len() implies (#[trigger] all[j]).uid != (
        #[trigger] all[k]).uid by {
            assert(all[j] == before[j]);
            if k < before.len() {
                assert(all[k] == before[k]);
            } else {
                assert(t.contains(before[j]));
                let n = choose|n: int| 0 <= n < t.len() && t[n] == before[j];
                assert(c[n] == t[n]);
                assert(c[n].uid != c[c.len() - 1].uid);
            }
        }
    }
}

/// An entry that is news here is among the newer ones.
proof fn news_are_newer(l: LibraryView, c: Seq<PlaylistEntryView>, i: int) -> (k: int)
    requires
        0 <= i < c.len(),
        entries_differ(c),
        !playlist_is_old(l, c[i]),
    ensures
        0 <= k < newer_ones(l, c).len(),
        newer_ones(l, c)[k] == c[i],
    decreases c.len(),
{
    let t = c.drop_last();
    assert forall|j: int, k: int| 0 <= j < k < t.len() implies (#[trigger] t[j]).uid != (
    #[trigger] t[k]).uid by {
        assert(t[j] == c[j] && t[k] == c[k]);
    }
    if i < t.len() {
        assert(t[i] == c[i]);
        news_are_newer(l, t, i)
    } else {
        let m = all_taken(l, t, playlist_taken()).0;
        let u = c[i].uid;
        assert forall|j: int| 0 <= j < t.len() implies (#[trigger] t[j]).uid != u by {
            assert(t[j] == c[j]);
            assert(c[j].uid != c[i].uid);
        }
        other_entries_keep_row(l, t, u);
        found_by_key(l.playlists, playlist_uid_key(), Some(u));
        found_by_key(m.playlists, playlist_uid_key(), Some(u));
        newer_ones(l, t).len() as int
    }
}

/// The order in which folders and their contents arrive does not matter: once all
/// are here, each that is news hangs under the parent its entry names, which is
/// found wherever among the entries it comes.
pub proof fn parents_are_found_in_any_order(l: LibraryView, c: Seq<PlaylistEntryView>, i: int)
    requires
        0 <= i < c.len(),
        entries_differ(c),
        !playlist_is_old(l, c[i]),
    ensures
        ({
            let all_here = all_taken(l, c, playlist_taken()).0;
            let hung = all_taken(all_here, newer_ones(l, c), parent_taken()).0;
            let row = row_with(hung.playlists, playlist_uid_key(), Some(c[i].uid));
            &&& row is Some
            &&& row->0.parent_id == id_of_playlist(hung, c[i].parent_uid)
            &&& (c[i].parent_uid is Some && exists|j: int|
                0 <= j < c.len() && (#[trigger] c[j]).uid == c[i].parent_uid->0 && !is_buried(
                    l,
                    "playlist"@,
                    c[j].uid,
                )) ==> row->0.parent_id is Some
        }),
{
    let all_here = all_taken(l, c, playlist_taken()).0;
    let newer = newer_ones(l, c);
    let hung = all_taken(all_here, newer, parent_taken()).0;
    playlists_never_go_back(l, c);
    parents_all(all_here, newer);
    assert(playlist_is_old(all_here, c[i]));
    newer_ones_differ(l, c);
    let n = news_are_newer(l, c, i);
    parents_hold(all_here, newer, n);
    found_by_key(hung.playlists, playlist_uid_key(), Some(c[i].uid));
    ids_found_alike(all_here, hung, c[i].parent_uid);
    if c[i].parent_uid is Some {
        let u = c[i].parent_uid->0;
        if exists|j: int|
            0 <= j < c.len() && (#[trigger] c[j]).uid == u && !is_buried(l, "playlist"@, c[j].uid) {
            let j = choose|j: int|
                0 <= j < c.len() && (#[trigger] c[j]).uid == u && !is_buried(
                    l,
                    "playlist"@,
                    c[j].uid,
                );
            assert(playlist_is_old(all_here, c[j]));
        }
    }
}

/// The newest wins: a playlist of which the changes know something newer, or which
/// is not here, has the name, the kind and the place that they give it.
pub proof fn the_newest_playlist_wins(l: LibraryView, c: Seq<PlaylistEntryView>, i: int)
    requires
        0 <= i < c.len(),
        entries_differ(c),
        !playlist_is_old(l, c[i]),
    ensures
        ({
            let all_here = all_taken(l, c, playlist_taken()).0;
            let hung = all_taken(all_here, newer_ones(l, c), parent_taken()).0;
            gives(c[i], row_with(hung.playlists, playlist_uid_key(), Some(c[i].uid)))
        }),
{
    let all_here = all_taken(l, c, playlist_taken()).0;
    let hung = all_taken(all_here, newer_ones(l, c), parent_taken()).0;
    let uid = Some(c[i].uid);
    news_are_given(l, c, i);
    parents_all(all_here, newer_ones(l, c));
    ids_found_alike(all_here, hung, uid);
    found_by_key(all_here.playlists, playlist_uid_key(), uid);
    found_by_key(hung.playlists, playlist_uid_key(), uid);
}

/// The row is what the entry says, but for its id and where it hangs.
pub open spec fn gives(p: PlaylistEntryView, row: Option<PlaylistRowView>) -> bool {
    &&& row is Some
    &&& row->0.uid == Some(p.uid)
    &&& row->0.name == p.name
    &&& row->0.kind == p.kind
    &&& row->0.rank == p.rank
    &&& row->0.updated_at == p.updated_at
}

proof fn news_are_given(l: LibraryView, c: Seq<PlaylistEntryView>, i: int)
    requires
        0 <= i < c.len(),
        entries_differ(c),
        !playlist_is_old(l, c[i]),
    ensures
        gives(
            c[i],
            row_with(
                all_taken(l, c, playlist_taken()).0.playlists,
                playlist_uid_key(),
                Some(c[i].uid),
            ),
        ),
    decreases c.len(),
{
    let t = c.drop_last();
    let m = all_taken(l, t, playlist_taken()).0;
    let p = c.last();
    let u = c[i].uid;
    assert forall|j: int, k: int| 0 <= j < k < t.len() implies (#[trigger] t[j]).uid != (
    #[trigger] t[k]).uid by {
        assert(t[j] == c[j] && t[k] == c[k]);
    }
    if i < t.len() {
        assert(t[i] == c[i]);
        news_are_given(l, t, i);
        assert(c[i].uid != c[c.len() - 1].uid);
        other_entry_keeps_row(m, p, u);
    } else {
        assert forall|j: int| 0 <= j < t.len() implies (#[trigger] t[j]).uid != u by {
            assert(t[j] == c[j]);
            assert(c[j].uid != c[i].uid);
        }
        other_entries_keep_row(l, t, u);
        found_by_key(l.playlists, playlist_uid_key(), Some(u));
        found_by_key(m.playlists, playlist_uid_key(), Some(u));
        let n = playlist_taken()(m, p).0;
        let k = keyed(playlist_uid_key(), Some(u));
        first_where_is_first(m.playlists, k);
        match first_where(m.playlists, k) {
            Some(j) => {
                same_keys_same_first(m.playlists, n.playlists, playlist_uid_key(), Some(u));
            },
            None => {
                let row = n.playlists.last();
                assert(n.playlists =~= m.playlists.push(row));
                first_stays_after_push(m.playlists, row, k);
            },
        }
        found_by_key(n.playlists, playlist_uid_key(), Some(u));
    }
}

/// A playlist of which the changes know nothing newer keeps its name, its kind, its
/// place and the folder it lies in.
pub proof fn newer_playlists_stay_as_they_are(l: LibraryView, c: Seq<PlaylistEntryView>, uid: Seq<char>)
    requires
        forall|i: int|
            0 <= i < c.len() && (#[trigger] c[i]).uid == uid ==> playlist_is_old(l, c[i]),
    ensures
        ({
            let all_here = all_taken(l, c, playlist_taken()).0;
            let hung = all_taken(all_here, newer_ones(l, c), parent_taken()).0;
            row_with(hung.playlists, playlist_uid_key(), Some(uid)) == row_with(
                l.playlists,
                playlist_uid_key(),
                Some(uid),
            )
        }),
{
    let all_here = all_taken(l, c, playlist_taken()).0;
    old_entries_keep_row(l, c, uid);
    others_hang_elsewhere(all_here, newer_ones(l, c), uid);
}

/// Old entries, and those of others, leave a row as it was, and are not among the
/// newer ones.
proof fn old_entries_keep_row(l: LibraryView, c: Seq<PlaylistEntryView>, uid: Seq<char>)
    requires
        forall|i: int|
            0 <= i < c.len() && (#[trigger] c[i]).uid == uid ==> playlist_is_old(l, c[i]),
    ensures
        row_with(
            all_taken(l, c, playlist_taken()).0.playlists,
            playlist_uid_key(),
            Some(uid),
        ) == row_with(l.playlists, playlist_uid_key(), Some(uid)),
        forall|k: int|
            0 <= k < newer_ones(l, c).len() ==> (#[trigger] newer_ones(l, c)[k]).uid != uid,
    decreases c.len(),
{
    if c.len() > 0 {
        let t = c.drop_last();
        let p = c.last();
        assert forall|i: int| 0 <= i < t.len() && (#[trigger] t[i]).uid == uid implies
            playlist_is_old(l, t[i]) by {
            assert(t[i] == c[i]);
        }
        old_entries_keep_row(l, t, uid);
        playlists_never_go_back(l, t);
        let m = all_taken(l, t, playlist_taken()).0;
        if p.uid == uid {
            assert(playlist_is_old(l, c[c.len() - 1]));
            old_playlist_stays_old(l, m, p);
            playlist_step(m, p);
        } else {
            other_entry_keeps_row(m, p, uid);
        }
    }
}

/// Hanging other playlists leaves a row as it was.
proof fn others_hang_elsewhere(l: LibraryView, c: Seq<PlaylistEntryView>, uid: Seq<char>)
    requires
        forall|k: int| 0 <= k < c.len() ==> (#[trigger] c[k]).uid != uid,
    ensures
        row_with(
            all_taken(l, c, parent_taken()).0.playlists,
            playlist_uid_key(),
            Some(uid),
        ) == row_with(l.playlists, playlist_uid_key(), Some(uid)),
    decreases c.len(),
{
    if c.len() > 0 {
        let t = c.drop_last();
        let p = c.last();
        assert forall|k: int| 0 <= k < t.len() implies (#[trigger] t[k]).uid != uid by {
            assert(t[k] == c[k]);
        }
        others_hang_elsewhere(l, t, uid);
        let m = all_taken(l, t, parent_taken()).0;
        let n = parent_taken()(m, p).0;
        assert(c[c.len() - 1].uid != uid);
        parents_step(m, p);
        ids_found_alike(m, n, Some(uid));
        first_where_is_first(m.playlists, keyed(playlist_uid_key(), Some(p.uid)));
        first_where_is_first(m.playlists, keyed(playlist_uid_key(), Some(uid)));
    }
}

proof fn parents_hold(l: LibraryView, c: Seq<PlaylistEntryView>, i: int)
    requires
        0 <= i < c.len(),
        entries_differ(c),
        !is_buried(l, "playlist"@, c[i].uid),
        first_where(l.playlists, keyed(playlist_uid_key(), Some(c[i].uid))) is Some,
    ensures
        ({
            let n = all_taken(l, c, parent_taken()).0;
            let at = first_where(n.playlists, keyed(playlist_uid_key(), Some(c[i].uid)));
            &&& at is Some
            &&& n.playlists[at->0].parent_id == id_of_playlist(l, c[i].parent_uid)
        }),
    decreases c.len(),
{
    let t = c.drop_last();
    let m = all_taken(l, t, parent_taken()).0;
    let n = parent_taken()(m, c.last()).0;
    parents_all(l, t);
    parents_step(m, c.last());
    ids_found_alike(l, m, Some(c[i].uid));
    ids_found_alike(m, n, Some(c[i].uid));
    ids_found_alike(l, m, c.last().parent_uid);
    let k = keyed(playlist_uid_key(), Some(c[i].uid));
    first_where_is_first(m.playlists, k);
    if i < t.len() {
        assert forall|j: int, k: int| 0 <= j < k < t.len() implies (#[trigger] t[j]).uid != (
        #[trigger] t[k]).uid by {
            assert(t[j] == c[j] && t[k] == c[k]);
        }
        assert(t[i] == c[i]);
        parents_hold(l, t, i);
        assert(c[i].uid != c[c.len() - 1].uid);
        first_where_is_first(m.playlists, keyed(playlist_uid_key(), Some(c.last().uid)));
    } else {
        assert(c[i] == c.last());
    }
}

// ---------------------------------------------------------------------------
// Memberships
// ---------------------------------------------------------------------------

pub open spec fn grave_of(l: LibraryView, m: MembershipView) -> Option<TombstoneRowView> {
    row_with(l.tombstones, tombstone_key(), ("playlist_track"@, key_of(m)))
}

pub open spec fn playlist_of(l: LibraryView, m: MembershipView) -> Option<PlaylistRowView> {
    row_with(l.playlists, playlist_uid_key(), Some(m.playlist_uid))
}

pub open spec fn track_of(l: LibraryView, m: MembershipView) -> Option<TrackRowView> {
    row_with(l.tracks, track_uid_key(), Some(m.track_uid))
}

/// The membership has nothing to say here: a tombstone holds it back, its playlist
/// or track is not here, or it stands where it says.
pub open spec fn membership_is_old(l: LibraryView, m: MembershipView) -> bool {
    ||| grave_of(l, m) is Some && grave_of(l, m)->0.deleted_at >= m.added_at
    ||| playlist_of(l, m) is None
    ||| track_of(l, m) is None
    ||| match first_where(
        l.playlist_tracks,
        keyed(pair_of(), (playlist_of(l, m)->0.id, track_of(l, m)->0.id)),
    ) {
        Some(i) => l.playlist_tracks[i].rank == m.rank,
        None => false,
    }
}

proof fn old_membership_changes_nothing(l: LibraryView, m: MembershipView)
    requires
        membership_is_old(l, m),
    ensures
        membership_taken()(l, m).1 == 0,
        membership_taken()(l, m).0 == (LibraryView {
            tombstones: membership_taken()(l, m).0.tombstones,
            ..l
        }),
{
}

proof fn membership_keeps_tables(l: LibraryView, m: MembershipView)
    ensures
        membership_taken()(l, m).0.playlists == l.playlists,
        membership_taken()(l, m).0.tracks == l.tracks,
{
}

proof fn taken_membership_is_old(l: LibraryView, m: MembershipView)
    ensures
        membership_is_old(membership_taken()(l, m).0, m),
{
    let n = membership_taken()(l, m).0;
    membership_keeps_tables(l, m);
    if !(grave_of(l, m) is Some && grave_of(l, m)->0.deleted_at >= m.added_at) && playlist_of(
        l,
        m,
    ) is Some && track_of(l, m) is Some {
        let k = keyed(pair_of(), (playlist_of(l, m)->0.id, track_of(l, m)->0.id));
        first_where_is_first(l.playlist_tracks, k);
        match first_where(l.playlist_tracks, k) {
            Some(i) => {
                same_keys_same_first(
                    l.playlist_tracks,
                    n.playlist_tracks,
                    pair_of(),
                    (playlist_of(l, m)->0.id, track_of(l, m)->0.id),
                );
            },
            None => {
                first_stays_after_push(l.playlist_tracks, n.playlist_tracks.last(), k);
                assert(n.playlist_tracks =~= l.playlist_tracks.push(n.playlist_tracks.last()));
            },
        }
    }
}

/// Two memberships are of the same pair.
pub open spec fn same_pair(m: MembershipView, o: MembershipView) -> bool {
    m.playlist_uid == o.playlist_uid && m.track_uid == o.track_uid
}

/// Two memberships of different pairs concern different rows.
proof fn different_pairs_different_rows(l: LibraryView, m: MembershipView, o: MembershipView)
    requires
        l.wf(),
        !same_pair(m, o),
        playlist_of(l, m) is Some,
        track_of(l, m) is Some,
        playlist_of(l, o) is Some,
        track_of(l, o) is Some,
    ensures
        (playlist_of(l, m)->0.id, track_of(l, m)->0.id) != (
            playlist_of(l, o)->0.id,
            track_of(l, o)->0.id,
        ),
{
    found_by_key(l.playlists, playlist_uid_key(), Some(m.playlist_uid));
    found_by_key(l.playlists, playlist_uid_key(), Some(o.playlist_uid));
    found_by_key(l.tracks, track_uid_key(), Some(m.track_uid));
    found_by_key(l.tracks, track_uid_key(), Some(o.track_uid));
    let a = first_where(l.playlists, keyed(playlist_uid_key(), Some(m.playlist_uid)))->0;
    let b = first_where(l.playlists, keyed(playlist_uid_key(), Some(o.playlist_uid)))->0;
    let c = first_where(l.tracks, keyed(track_uid_key(), Some(m.track_uid)))->0;
    let d = first_where(l.tracks, keyed(track_uid_key(), Some(o.track_uid)))->0;
    if l.playlists[a].id == l.playlists[b].id && l.tracks[c].id == l.tracks[d].id {
        if a < b {
            assert(playlist_id()(l.playlists[a]) != playlist_id()(l.playlists[b]));
        } else if b < a {
            assert(playlist_id()(l.playlists[b]) != playlist_id()(l.playlists[a]));
        }
        if c < d {
            assert(track_id()(l.tracks[c]) != track_id()(l.tracks[d]));
        } else if d < c {
            assert(track_id()(l.tracks[d]) != track_id()(l.tracks[c]));
        }
    }
}

/// An old membership stays old while another one is taken in.
proof fn old_membership_stays_old(l: LibraryView, m: MembershipView, o: MembershipView)
    requires
        l.wf(),
        membership_is_old(l, m),
        !same_pair(m, o),
        key_of(m) == key_of(o) ==> grave_of(l, m) is None,
    ensures
        membership_is_old(membership_taken()(l, o).0, m),
{
    let n = membership_taken()(l, o).0;
    membership_keeps_tables(l, o);
    if key_of(m) != key_of(o) {
        row_with_after_filter(
            l.tombstones,
            crate::db::other_than("playlist_track"@, key_of(o)),
            tombstone_key(),
            ("playlist_track"@, key_of(m)),
        );
    }
    assert(grave_of(n, m) == grave_of(l, m));
    let held = grave_of(l, m) is Some && grave_of(l, m)->0.deleted_at >= m.added_at;
    if !held && playlist_of(l, m) is Some && track_of(l, m) is Some {
        let pair = (playlist_of(l, m)->0.id, track_of(l, m)->0.id);
        let k = keyed(pair_of(), pair);
        first_where_is_first(l.playlist_tracks, k);
        let i = first_where(l.playlist_tracks, k)->0;
        if playlist_of(l, o) is Some && track_of(l, o) is Some {
            different_pairs_different_rows(l, m, o);
            let other = (playlist_of(l, o)->0.id, track_of(l, o)->0.id);
            let q = keyed(pair_of(), other);
            first_where_is_first(l.playlist_tracks, q);
            if n.playlist_tracks != l.playlist_tracks {
                match first_where(l.playlist_tracks, q) {
                    Some(j) => {
                        assert(j != i);
                        same_keys_same_first(
                            l.playlist_tracks,
                            n.playlist_tracks,
                            pair_of(),
                            pair,
                        );
                    },
                    None => {
                        let row = n.playlist_tracks.last();
                        assert(n.playlist_tracks =~= l.playlist_tracks.push(row));
                        first_stays_after_push(l.playlist_tracks, row, k);
                    },
                }
            }
        }
    }
}

/// No two memberships are of the same pair, and no two that go by one name have a
/// tombstone of that name.
pub open spec fn apart(l: LibraryView, c: Seq<MembershipView>) -> bool {
    forall|i: int, j: int|
        0 <= i < j < c.len() ==> !same_pair(#[trigger] c[i], #[trigger] c[j]) && (key_of(c[i])
            == key_of(c[j]) ==> grave_of(l, c[i]) is None)
}

proof fn part_is_apart(l: LibraryView, c: Seq<MembershipView>)
    requires
        apart(l, c),
        c.len() > 0,
    ensures
        apart(l, c.drop_last()),
{
    let t = c.drop_last();
    assert forall|i: int, j: int| 0 <= i < j < t.len() implies !same_pair(
        #[trigger] t[i],
        #[trigger] t[j],
    ) && (key_of(t[i]) == key_of(t[j]) ==> grave_of(l, t[i]) is None) by {
        assert(t[i] == c[i] && t[j] == c[j]);
    }
}

/// Taking memberships in digs no grave.
proof fn no_grave_is_dug(l: LibraryView, c: Seq<MembershipView>, m: MembershipView)
    requires
        grave_of(l, m) is None,
    ensures
        grave_of(all_taken(l, c, membership_taken()).0, m) is None,
    decreases c.len(),
{
    if c.len() > 0 {
        let t = c.drop_last();
        no_grave_is_dug(l, t, m);
        let n = all_taken(l, t, membership_taken()).0;
        let p = crate::db::other_than("playlist_track"@, key_of(c.last()));
        let k = ("playlist_track"@, key_of(m));
        crate::library::filter_is_part(n.tombstones, p);
        found_by_key(n.tombstones, tombstone_key(), k);
        found_by_key(n.tombstones.filter(p), tombstone_key(), k);
        if let Some(i) = first_where(n.tombstones.filter(p), keyed(tombstone_key(), k)) {
            let x = n.tombstones.filter(p)[i];
            assert(n.tombstones.contains(x));
            let j = choose|j: int| 0 <= j < n.tombstones.len() && n.tombstones[j] == x;
            assert(tombstone_key()(n.tombstones[j]) != k);
        }
    }
}

/// Taking memberships in keeps the playlists and tracks, and leaves every
/// membership of the changes with nothing more to say.
proof fn memberships_get_old(l: LibraryView, c: Seq<MembershipView>)
    requires
        l.wf(),
        apart(l, c),
    ensures
        ({
            let n = all_taken(l, c, membership_taken()).0;
            &&& n.wf()
            &&& n.playlists == l.playlists
            &&& n.tracks == l.tracks
            &&& forall|i: int| 0 <= i < c.len() ==> membership_is_old(n, #[trigger] c[i])
        }),
    decreases c.len(),
{
    if c.len() > 0 {
        let t = c.drop_last();
        part_is_apart(l, c);
        memberships_get_old(l, t);
        let m = all_taken(l, t, membership_taken()).0;
        let n = membership_taken()(m, c.last()).0;
        membership_taken_wf(m, c.last());
        membership_keeps_tables(m, c.last());
        taken_membership_is_old(m, c.last());
        assert forall|i: int| 0 <= i < c.len() implies membership_is_old(n, #[trigger] c[i]) by {
            if i < t.len() {
                assert(t[i] == c[i]);
                assert(!same_pair(c[i], c[c.len() - 1]));
                if key_of(c[i]) == key_of(c.last()) {
                    no_grave_is_dug(l, t, c[i]);
                }
                old_membership_stays_old(m, c[i], c.last());
            }
        }
    }
}

proof fn old_memberships_change_nothing(l: LibraryView, c: Seq<MembershipView>)
    requires
        l.wf(),
        apart(l, c),
        forall|i: int| 0 <= i < c.len() ==> membership_is_old(l, #[trigger] c[i]),
    ensures
        ({
            let (n, k) = all_taken(l, c, membership_taken());
            &&& k == 0
            &&& n.wf()
            &&& n == (LibraryView { tombstones: n.tombstones, ..l })
        }),
    decreases c.len(),
{
    if c.len() > 0 {
        let t = c.drop_last();
        part_is_apart(l, c);
        assert forall|i: int| 0 <= i < t.len() implies membership_is_old(l, #[trigger] t[i]) by {
            assert(t[i] == c[i]);
        }
        old_memberships_change_nothing(l, t);
        let m = all_taken(l, t, membership_taken()).0;
        assert(membership_is_old(l, c[c.len() - 1]));
        assert forall|i: int| 0 <= i < t.len() implies !same_pair(#[trigger] t[i], c.last()) && (
        key_of(t[i]) == key_of(c.last()) ==> grave_of(l, c.last()) is None) by {
            assert(t[i] == c[i]);
            assert(!same_pair(c[i], c[c.len() - 1]));
        }
        one_stays_old(l, t, c.last());
        old_membership_changes_nothing(m, c.last());
        membership_taken_wf(m, c.last());
        membership_keeps_tables(m, c.last());
    }
}

proof fn one_stays_old(l: LibraryView, c: Seq<MembershipView>, m: MembershipView)
    requires
        l.wf(),
        membership_is_old(l, m),
        forall|i: int|
            0 <= i < c.len() ==> !same_pair(#[trigger] c[i], m) && (key_of(c[i]) == key_of(m)
                ==> grave_of(l, m) is None),
    ensures
        membership_is_old(all_taken(l, c, membership_taken()).0, m),
        all_taken(l, c, membership_taken()).0.wf(),
    decreases c.len(),
{
    if c.len() > 0 {
        let t = c.drop_last();
        assert forall|i: int| 0 <= i < t.len() implies !same_pair(#[trigger] t[i], m) && (key_of(
            t[i],
        ) == key_of(m) ==> grave_of(l, m) is None) by {
            assert(t[i] == c[i]);
        }
        one_stays_old(l, t, m);
        assert(!same_pair(c[c.len() - 1], m));
        let n = all_taken(l, t, membership_taken()).0;
        if key_of(c.last()) == key_of(m) {
            no_grave_is_dug(l, t, m);
        }
        old_membership_stays_old(n, m, c.last());
        membership_taken_wf(n, c.last());
    }
}

/// The pair stands in the table, since the moment it says.
pub open spec fn still_placed(
    members: Seq<PlaylistTrackRowView>,
    row: PlaylistTrackRowView,
) -> bool {
    exists|i: int|
        0 <= i < members.len() && (#[trigger] members[i]).playlist_id == row.playlist_id
            && members[i].track_id == row.track_id && members[i].added_at == row.added_at
}

/// Joining memberships takes no track out of any playlist.
pub proof fn joining_takes_nothing_out(
    l: LibraryView,
    c: Seq<MembershipView>,
    row: PlaylistTrackRowView,
)
    requires
        still_placed(l.playlist_tracks, row),
    ensures
        still_placed(all_taken(l, c, membership_taken()).0.playlist_tracks, row),
    decreases c.len(),
{
    if c.len() > 0 {
        let t = c.drop_last();
        joining_takes_nothing_out(l, t, row);
        let m = all_taken(l, t, membership_taken()).0;
        let n = membership_taken()(m, c.last()).0;
        let i = choose|i: int|
            0 <= i < m.playlist_tracks.len() && (#[trigger] m.playlist_tracks[i]).playlist_id
                == row.playlist_id && m.playlist_tracks[i].track_id == row.track_id
                && m.playlist_tracks[i].added_at == row.added_at;
        if playlist_of(m, c.last()) is Some && track_of(m, c.last()) is Some {
            let pair = (playlist_of(m, c.last())->0.id, track_of(m, c.last())->0.id);
            first_where_is_first(m.playlist_tracks, keyed(pair_of(), pair));
        }
        assert(n.playlist_tracks[i].playlist_id == row.playlist_id);
    }
}

// ---------------------------------------------------------------------------
// Tombstones
// ---------------------------------------------------------------------------

proof fn burying_keeps_graves(l: LibraryView, t: TombstoneView, entity: Seq<char>, uid: Seq<char>)
    ensures
        is_buried(l, entity, uid) ==> is_buried(tombstone_kept()(l, t).0, entity, uid),
        is_buried(l, entity, uid) ==> row_with(
            tombstone_kept()(l, t).0.tombstones,
            tombstone_key(),
            (entity, uid),
        ) == row_with(l.tombstones, tombstone_key(), (entity, uid)),
        is_buried(tombstone_kept()(l, t).0, t.entity, t.uid),
{
    let n = tombstone_kept()(l, t).0;
    if !is_buried(l, t.entity, t.uid) {
        let row = n.tombstones.last();
        assert(n.tombstones =~= l.tombstones.push(row));
        first_stays_after_push(l.tombstones, row, keyed(tombstone_key(), (entity, uid)));
        first_stays_after_push(l.tombstones, row, keyed(tombstone_key(), (t.entity, t.uid)));
        first_where_is_first(l.tombstones, keyed(tombstone_key(), (entity, uid)));
    }
}

proof fn all_buried(l: LibraryView, c: Seq<TombstoneView>, entity: Seq<char>, uid: Seq<char>)
    ensures
        ({
            let n = all_taken(l, c, tombstone_kept()).0;
            &&& is_buried(l, entity, uid) ==> is_buried(n, entity, uid) && row_with(
                n.tombstones,
                tombstone_key(),
                (entity, uid),
            ) == row_with(l.tombstones, tombstone_key(), (entity, uid))
            &&& forall|i: int|
                0 <= i < c.len() ==> is_buried(n, (#[trigger] c[i]).entity, c[i].uid)
            &&& n.tracks == l.tracks
            &&& n.playlists == l.playlists
            &&& n.playlist_tracks == l.playlist_tracks
            &&& l.wf() ==> n.wf()
        }),
    decreases c.len(),
{
    if c.len() > 0 {
        let t = c.drop_last();
        all_buried(l, t, entity, uid);
        let m = all_taken(l, t, tombstone_kept()).0;
        let n = tombstone_kept()(m, c.last()).0;
        burying_keeps_graves(m, c.last(), entity, uid);
        if l.wf() {
            tombstone_kept_wf(m, c.last());
        }
        assert forall|i: int| 0 <= i < c.len() implies is_buried(n, (#[trigger] c[i]).entity, c[i].uid) by {
            if i < t.len() {
                assert(t[i] == c[i]);
                burying_keeps_graves(m, c.last(), c[i].entity, c[i].uid);
            }
        }
    }
}

proof fn deleting_keeps_graves(l: LibraryView, kept: Set<Seq<char>>, c: Seq<TombstoneView>)
    ensures
        all_taken(l, c, deletion_taken(kept)).0.tombstones == l.tombstones,
    decreases c.len(),
{
    if c.len() > 0 {
        deleting_keeps_graves(l, kept, c.drop_last());
    }
}

/// Every tombstone that arrives is kept, whatever the policy does with it.
pub proof fn tombstones_are_always_kept(
    l: LibraryView,
    c: ChangesView,
    policy: DeletePolicy,
    kept: Set<Seq<char>>,
    i: int,
)
    requires
        0 <= i < c.tombstones.len(),
    ensures
        is_buried(
            taken(l, c, policy, kept).library,
            c.tombstones[i].entity,
            c.tombstones[i].uid,
        ),
{
    all_buried(joined(l, c).library, c.tombstones, Seq::empty(), Seq::empty());
    deleting_keeps_graves(joined_and_recorded(l, c), kept, c.tombstones);
}

/// Unless deletions are propagated, nothing is deleted.
pub proof fn only_propagated_deletions_delete(
    l: LibraryView,
    c: ChangesView,
    policy: DeletePolicy,
    kept: Set<Seq<char>>,
)
    requires
        policy != DeletePolicy::Propagate,
    ensures
        taken(l, c, policy, kept).deleted == 0,
        taken(l, c, policy, kept).library == joined_and_recorded(l, c),
{
}

// ---------------------------------------------------------------------------
// Twice in a row
// ---------------------------------------------------------------------------

proof fn same_length_filter_is_all<A>(s: Seq<A>, p: spec_fn(A) -> bool)
    requires
        s.filter(p).len() == s.len(),
    ensures
        s.filter(p) == s,
    decreases s.len(),
{
    reveal(Seq::filter);
    if s.len() > 0 {
        let t = s.drop_last();
        t.lemma_filter_len(p);
        same_length_filter_is_all(t, p);
        assert(t.push(s.last()) =~= s);
    } else {
        assert(s.filter(p) =~= s);
    }
}

/// Of the deletions that arrive, none but those of tracks deletes anything when its
/// turn comes.
pub open spec fn only_tracks_go(
    l: LibraryView,
    c: Seq<TombstoneView>,
    kept: Set<Seq<char>>,
) -> bool {
    forall|i: int|
        0 <= i < c.len() && (#[trigger] c[i]).entity != "track"@ ==> deletion_taken(kept)(
            all_taken(l, c.take(i), deletion_taken(kept)).0,
            c[i],
        ).1 == 0
}

/// Leaving tracks out, and then more of them, is leaving out all of them.
proof fn leaving_out_more<A>(
    s: Seq<A>,
    p: spec_fn(A) -> bool,
    q: spec_fn(A) -> bool,
    both: spec_fn(A) -> bool,
)
    requires
        forall|x: A| #[trigger] both(x) == (p(x) && q(x)),
    ensures
        s.filter(p).filter(q) == s.filter(both),
    decreases s.len(),
{
    reveal(Seq::filter);
    if s.len() > 0 {
        let t = s.drop_last();
        leaving_out_more(t, p, q, both);
        let x = s.last();
        assert(both(x) == (p(x) && q(x)));
        if p(x) {
            assert(t.filter(p).push(x).drop_last() =~= t.filter(p));
        }
    }
}

proof fn without_more_tracks(l: LibraryView, a: Seq<i64>, id: i64)
    ensures
        without_tracks(without_tracks(l, a), seq![id]) == without_tracks(l, a.push(id)),
{
    assert forall|x: i64| #[trigger] a.push(id).contains(x) == (a.contains(x) || seq![id].contains(x)) by {
        if a.contains(x) {
            let k = choose|k: int| 0 <= k < a.len() && a[k] == x;
            assert(a.push(id)[k] == x);
        }
        if seq![id].contains(x) {
            assert(a.push(id)[a.len() as int] == x);
        }
        if a.push(id).contains(x) {
            let k = choose|k: int| 0 <= k < a.push(id).len() && a.push(id)[k] == x;
            if k == a.len() {
                assert(seq![id][0] == x);
            } else {
                assert(a[k] == x);
            }
        }
    }
    leaving_out_more(
        l.tracks,
        |t: TrackRowView| !a.contains(t.id),
        |t: TrackRowView| !seq![id].contains(t.id),
        |t: TrackRowView| !a.push(id).contains(t.id),
    );
    leaving_out_more(
        l.playlist_tracks,
        |m: PlaylistTrackRowView| !a.contains(m.track_id),
        |m: PlaylistTrackRowView| !seq![id].contains(m.track_id),
        |m: PlaylistTrackRowView| !a.push(id).contains(m.track_id),
    );
}

/// A deletion that deletes nothing changes nothing.
proof fn idle_deletion(a: LibraryView, kept: Set<Seq<char>>, t: TombstoneView)
    requires
        deletion_taken(kept)(a, t).1 == 0,
    ensures
        deletion_taken(kept)(a, t).0 == a,
{
    if t.entity != "track"@ && t.entity != "playlist"@ && t.entity == "playlist_track"@ {
        if let Some(c) = colon_at(t.uid) {
            let pu = t.uid.subrange(0, c);
            let tu = t.uid.subrange(c + 1, t.uid.len() as int);
            let p = place_survives(a, pu, tu, t.deleted_at);
            a.playlist_tracks.lemma_filter_len(p);
            same_length_filter_is_all(a.playlist_tracks, p);
            assert(a == LibraryView { playlist_tracks: a.playlist_tracks, ..a });
        }
    }
}

/// A row that is left is the one that was there.
proof fn what_is_left_was_there(l: LibraryView, ids: Seq<i64>, uid: Seq<char>)
    requires
        l.wf(),
    ensures
        ({
            let left = row_with(without_tracks(l, ids).tracks, track_uid_key(), Some(uid));
            left is Some ==> left == row_with(l.tracks, track_uid_key(), Some(uid)) && !ids.contains(
                left->0.id,
            )
        }),
{
    let p = |t: TrackRowView| !ids.contains(t.id);
    let some = l.tracks.filter(p);
    crate::library::filter_is_part(l.tracks, p);
    found_by_key(some, track_uid_key(), Some(uid));
    found_by_key(l.tracks, track_uid_key(), Some(uid));
    if let Some(i) = first_where(some, keyed(track_uid_key(), Some(uid))) {
        let x = some[i];
        assert(l.tracks.contains(x) && p(x));
        let j = choose|j: int| 0 <= j < l.tracks.len() && l.tracks[j] == x;
        assert(track_uid_key()(l.tracks[j]) == Some(uid));
        let k = first_where(l.tracks, keyed(track_uid_key(), Some(uid)))->0;
        if k < j {
            assert(track_uid_key()(l.tracks[k]) is Some);
            assert(track_uid_key()(l.tracks[k]) != track_uid_key()(l.tracks[j]));
        } else if j < k {
            assert(track_uid_key()(l.tracks[j]) is Some);
            assert(track_uid_key()(l.tracks[j]) != track_uid_key()(l.tracks[k]));
        }
    }
}

/// The track that was deleted is not there any more.
proof fn deleted_is_gone(l: LibraryView, ids: Seq<i64>, uid: Seq<char>)
    requires
        l.wf(),
        row_with(l.tracks, track_uid_key(), Some(uid)) is Some ==> ids.contains(
            row_with(l.tracks, track_uid_key(), Some(uid))->0.id,
        ),
    ensures
        row_with(without_tracks(l, ids).tracks, track_uid_key(), Some(uid)) is None,
{
    what_is_left_was_there(l, ids, uid);
}

/// Which tracks are gone once deletions were taken in that deleted nothing else.
proof fn tracks_that_go(l: LibraryView, c: Seq<TombstoneView>, kept: Set<Seq<char>>) -> (ids: Seq<
    i64,
>)
    requires
        l.wf(),
        only_tracks_go(l, c, kept),
    ensures
        all_taken(l, c, deletion_taken(kept)).0 == without_tracks(l, ids),
        forall|i: int|
            0 <= i < c.len() && (#[trigger] c[i]).entity == "track"@ && !kept.contains(c[i].uid)
                && row_with(l.tracks, track_uid_key(), Some(c[i].uid)) is Some ==> ids.contains(
                row_with(l.tracks, track_uid_key(), Some(c[i].uid))->0.id,
            ),
    decreases c.len(),
{
    if c.len() == 0 {
        let none = Seq::<i64>::empty();
        crate::seqs::filter_all(l.tracks, |t: TrackRowView| !none.contains(t.id));
        crate::seqs::filter_all(
            l.playlist_tracks,
            |m: PlaylistTrackRowView| !none.contains(m.track_id),
        );
        assert(without_tracks(l, none) == l);
        none
    } else {
        let t = c.drop_last();
        let x = c.last();
        assert forall|i: int| 0 <= i < t.len() && (#[trigger] t[i]).entity != "track"@ implies
            deletion_taken(kept)(all_taken(l, t.take(i), deletion_taken(kept)).0, t[i]).1 == 0 by {
            assert(t[i] == c[i]);
            assert(t.take(i) =~= c.take(i));
        }
        let before = tracks_that_go(l, t, kept);
        let m = without_tracks(l, before);
        assert(c.take(c.len() - 1) =~= t);
        assert(c[c.len() - 1] == x);
        let row = row_with(m.tracks, track_uid_key(), Some(x.uid));
        let ids = if x.entity == "track"@ && row is Some && !kept.contains(x.uid) {
            before.push(row->0.id)
        } else {
            before
        };
        what_is_left_was_there(l, before, x.uid);
        if x.entity == "track"@ && row is Some && !kept.contains(x.uid) {
            without_more_tracks(l, before, row->0.id);
        } else if x.entity != "track"@ {
            idle_deletion(m, kept, x);
        }
        assert forall|i: int|
            0 <= i < c.len() && (#[trigger] c[i]).entity == "track"@ && !kept.contains(c[i].uid)
                && row_with(l.tracks, track_uid_key(), Some(c[i].uid)) is Some implies ids.contains(
            row_with(l.tracks, track_uid_key(), Some(c[i].uid))->0.id,
        ) by {
            let id = row_with(l.tracks, track_uid_key(), Some(c[i].uid))->0.id;
            if i < t.len() {
                assert(t[i] == c[i]);
                let k = choose|k: int| 0 <= k < before.len() && before[k] == id;
                assert(ids[k] == id);
            } else if row is Some {
                assert(ids[before.len() as int] == id);
            } else if !before.contains(id) {
                stays_unless_left_out(l, before, c[i].uid);
            } else {
                let k = choose|k: int| 0 <= k < before.len() && before[k] == id;
                assert(ids[k] == id);
            }
        }
        ids
    }
}

/// A track that is not left out stays.
proof fn stays_unless_left_out(l: LibraryView, ids: Seq<i64>, uid: Seq<char>)
    requires
        row_with(l.tracks, track_uid_key(), Some(uid)) is Some,
        !ids.contains(row_with(l.tracks, track_uid_key(), Some(uid))->0.id),
    ensures
        row_with(without_tracks(l, ids).tracks, track_uid_key(), Some(uid)) is Some,
{
    let p = |t: TrackRowView| !ids.contains(t.id);
    let some = l.tracks.filter(p);
    found_by_key(l.tracks, track_uid_key(), Some(uid));
    let k = first_where(l.tracks, keyed(track_uid_key(), Some(uid)))->0;
    l.tracks.lemma_filter_contains(p, k);
    found_by_key(some, track_uid_key(), Some(uid));
    let j = choose|j: int| 0 <= j < some.len() && some[j] == l.tracks[k];
    assert(track_uid_key()(some[j]) == Some(uid));
}

/// Where deletions deleted nothing but tracks, they delete nothing the next time.
proof fn deletions_are_done(
    l: LibraryView,
    b: LibraryView,
    kept: Set<Seq<char>>,
    c: Seq<TombstoneView>,
    n: int,
)
    requires
        l.wf(),
        only_tracks_go(l, c, kept),
        b == (LibraryView {
            tombstones: b.tombstones,
            ..all_taken(l, c, deletion_taken(kept)).0
        }),
        0 <= n <= c.len(),
    ensures
        all_taken(b, c.take(n), deletion_taken(kept)) == (b, 0nat),
    decreases n,
{
    if n == 0 {
        assert(c.take(0) =~= Seq::empty());
    } else {
        deletions_are_done(l, b, kept, c, n - 1);
        assert(c.take(n).drop_last() =~= c.take(n - 1));
        assert(c.take(n).last() == c[n - 1]);
        one_deletion_is_done(l, b, kept, c, n - 1);
    }
}

proof fn one_deletion_is_done(
    l: LibraryView,
    b: LibraryView,
    kept: Set<Seq<char>>,
    c: Seq<TombstoneView>,
    i: int,
)
    requires
        l.wf(),
        only_tracks_go(l, c, kept),
        b == (LibraryView {
            tombstones: b.tombstones,
            ..all_taken(l, c, deletion_taken(kept)).0
        }),
        0 <= i < c.len(),
    ensures
        deletion_taken(kept)(b, c[i]) == (b, 0nat),
{
    let x = c[i];
    let ids = tracks_that_go(l, c, kept);
    if x.entity == "track"@ {
        if !kept.contains(x.uid) {
            deleted_is_gone(l, ids, x.uid);
        }
    } else {
        // When its turn came, some of the tracks were gone already.
        let t = c.take(i);
        assert forall|k: int| 0 <= k < t.len() && (#[trigger] t[k]).entity != "track"@ implies
            deletion_taken(kept)(all_taken(l, t.take(k), deletion_taken(kept)).0, t[k]).1 == 0 by {
            assert(t[k] == c[k]);
            assert(t.take(k) =~= c.take(k));
        }
        let some = tracks_that_go(l, t, kept);
        let a = without_tracks(l, some);
        assert(deletion_taken(kept)(a, x).1 == 0);
        idle_deletion(a, kept, x);
        if x.entity != "playlist"@ && x.entity == "playlist_track"@ {
            if let Some(k) = colon_at(x.uid) {
                let pu = x.uid.subrange(0, k);
                let tu = x.uid.subrange(k + 1, x.uid.len() as int);
                let p = place_survives(a, pu, tu, x.deleted_at);
                let q = place_survives(b, pu, tu, x.deleted_at);
                deletions_go_on(l, c, kept, i);
                crate::library::filter_is_part(a.playlist_tracks, p);
                assert forall|j: int| 0 <= j < b.playlist_tracks.len() implies q(
                    #[trigger] b.playlist_tracks[j],
                ) by {
                    let m = b.playlist_tracks[j];
                    assert(a.playlist_tracks.contains(m));
                    let h = choose|h: int| 0 <= h < a.playlist_tracks.len() && a.playlist_tracks[h] == m;
                    assert(a.playlist_tracks.filter(p)[h] == m);
                    assert(p(m));
                    what_is_left_was_there(l, ids, tu);
                    if row_with(b.tracks, track_uid_key(), Some(tu)) is Some {
                        assert(row_with(a.tracks, track_uid_key(), Some(tu)) == row_with(
                            b.tracks,
                            track_uid_key(),
                            Some(tu),
                        ));
                    }
                }
                crate::seqs::filter_all(b.playlist_tracks, q);
            }
        }
    }
}

/// What is there when all deletions were taken in was there before the last ones.
proof fn deletions_go_on(l: LibraryView, c: Seq<TombstoneView>, kept: Set<Seq<char>>, i: int)
    requires
        l.wf(),
        only_tracks_go(l, c, kept),
        0 <= i <= c.len(),
    ensures
        ({
            let a = all_taken(l, c.take(i), deletion_taken(kept)).0;
            let b = all_taken(l, c, deletion_taken(kept)).0;
            &&& a.wf()
            &&& forall|j: int|
                0 <= j < b.playlist_tracks.len() ==> a.playlist_tracks.contains(
                    #[trigger] b.playlist_tracks[j],
                )
            &&& forall|uid: Seq<char>|
                (#[trigger] row_with(b.tracks, track_uid_key(), Some(uid))) is Some ==> row_with(
                    a.tracks,
                    track_uid_key(),
                    Some(uid),
                ) == row_with(b.tracks, track_uid_key(), Some(uid))
        }),
    decreases c.len(),
{
    let step = deletion_taken(kept);
    if i == c.len() {
        assert(c.take(i) =~= c);
        let ids = tracks_that_go(l, c, kept);
        crate::tracks::without_tracks_wf(l, ids);
    } else {
        let t = c.drop_last();
        let x = c.last();
        assert forall|k: int| 0 <= k < t.len() && (#[trigger] t[k]).entity != "track"@ implies
            step(all_taken(l, t.take(k), step).0, t[k]).1 == 0 by {
            assert(t[k] == c[k]);
            assert(t.take(k) =~= c.take(k));
        }
        deletions_go_on(l, t, kept, i);
        assert(t.take(i) =~= c.take(i));
        let a = all_taken(l, c.take(i), step).0;
        let m = all_taken(l, t, step).0;
        let b = all_taken(l, c, step).0;
        let before = tracks_that_go(l, t, kept);
        crate::tracks::without_tracks_wf(l, before);
        assert(c.take(c.len() - 1) =~= t);
        assert(c[c.len() - 1] == x);
        let row = row_with(m.tracks, track_uid_key(), Some(x.uid));
        if x.entity == "track"@ && row is Some && !kept.contains(x.uid) {
            let ids = seq![row->0.id];
            crate::library::filter_is_part(
                m.playlist_tracks,
                |p: PlaylistTrackRowView| !ids.contains(p.track_id),
            );
            assert forall|j: int| 0 <= j < b.playlist_tracks.len() implies a.playlist_tracks.contains(
                #[trigger] b.playlist_tracks[j],
            ) by {
                let y = b.playlist_tracks[j];
                assert(m.playlist_tracks.contains(y));
                let h = choose|h: int| 0 <= h < m.playlist_tracks.len() && m.playlist_tracks[h] == y;
                assert(a.playlist_tracks.contains(m.playlist_tracks[h]));
            }
            assert forall|uid: Seq<char>|
                (#[trigger] row_with(b.tracks, track_uid_key(), Some(uid))) is Some implies row_with(
                a.tracks,
                track_uid_key(),
                Some(uid),
            ) == row_with(b.tracks, track_uid_key(), Some(uid)) by {
                what_is_left_was_there(m, ids, uid);
                assert(row_with(m.tracks, track_uid_key(), Some(uid)) is Some);
            }
        } else if x.entity != "track"@ {
            idle_deletion(m, kept, x);
        }
    }
}

/// Old playlists and memberships stay old while tombstones are kept.
proof fn burying_keeps_old(l: LibraryView, c: Seq<TombstoneView>, m: MembershipView)
    requires
        membership_is_old(l, m),
    ensures
        membership_is_old(all_taken(l, c, tombstone_kept()).0, m),
{
    all_buried(l, c, "playlist_track"@, key_of(m));
    found_by_key(l.tombstones, tombstone_key(), ("playlist_track"@, key_of(m)));
}

/// Metadata that was taken in is taken in once: no track counts as changed the second
/// time, whatever else the changes hold and whatever they deleted.
pub proof fn metadata_changes_once(
    l: LibraryView,
    c: ChangesView,
    policy: DeletePolicy,
    kept: Set<Seq<char>>,
)
    requires
        l.wf(),
        room_for(l, c),
    ensures
        ({
            let once = taken(l, c, policy, kept).library;
            let twice = taken(once, c, policy, kept);
            &&& twice.tracks == 0
            &&& all_taken(once, c.tracks, metadata_taken()).0 == once
        }),
{
    let l1 = all_taken(l, c.tracks, metadata_taken()).0;
    let l2 = all_taken(l1, c.playlists, playlist_taken()).0;
    let newer = newer_ones(l1, c.playlists);
    let l3 = all_taken(l2, newer, parent_taken()).0;
    let l5 = joined_and_recorded(l, c);
    let once = taken(l, c, policy, kept).library;
    metadata_never_goes_back(l, c.tracks);
    crate::merge::stages_wf(l, c);
    playlists_never_go_back(l1, c.playlists);
    parents_all(l2, newer);
    places_keep_wf(l3, c.memberships);
    all_buried(joined(l, c).library, c.tombstones, Seq::empty(), Seq::empty());
    assert forall|i: int| 0 <= i < c.tracks.len() implies metadata_is_old(
        once,
        #[trigger] c.tracks[i],
    ) by {
        let uid = c.tracks[i].uid;
        assert(metadata_is_old(l1, c.tracks[i]));
        found_by_key(l1.tracks, track_uid_key(), Some(uid));
        found_by_key(once.tracks, track_uid_key(), Some(uid));
        if policy == DeletePolicy::Propagate {
            tracks_only_go(l5, c.tombstones, kept, uid);
        }
    }
    old_metadata_changes_nothing(once, c.tracks);
}

proof fn places_keep_wf(l: LibraryView, c: Seq<MembershipView>)
    requires
        l.wf(),
    ensures
        all_taken(l, c, membership_taken()).0.wf(),
        all_taken(l, c, membership_taken()).0.tracks == l.tracks,
    decreases c.len(),
{
    if c.len() > 0 {
        places_keep_wf(l, c.drop_last());
        let m = all_taken(l, c.drop_last(), membership_taken()).0;
        membership_taken_wf(m, c.last());
        membership_keeps_tables(m, c.last());
    }
}

/// Deletions change no track: it stays as it was, or goes.
proof fn tracks_only_go(l: LibraryView, c: Seq<TombstoneView>, kept: Set<Seq<char>>, uid: Seq<char>)
    requires
        l.wf(),
    ensures
        ({
            let n = all_taken(l, c, deletion_taken(kept)).0;
            let left = row_with(n.tracks, track_uid_key(), Some(uid));
            &&& n.wf()
            &&& left is Some ==> left == row_with(l.tracks, track_uid_key(), Some(uid))
        }),
    decreases c.len(),
{
    if c.len() > 0 {
        let t = c.drop_last();
        tracks_only_go(l, t, kept, uid);
        let m = all_taken(l, t, deletion_taken(kept)).0;
        let x = c.last();
        crate::merge::deletion_taken_wf(m, kept, x);
        if x.entity == "track"@ {
            if let Some(row) = row_with(m.tracks, track_uid_key(), Some(x.uid)) {
                what_is_left_was_there(m, seq![row.id], uid);
            }
        }
    }
}

/// No two memberships of the changes are of the same pair, and no two that go by one
/// name have a tombstone of that name, here or in the changes.
pub open spec fn pairs_are_clear(l: LibraryView, c: ChangesView) -> bool {
    forall|i: int, j: int|
        0 <= i < j < c.memberships.len() ==> !same_pair(
            #[trigger] c.memberships[i],
            #[trigger] c.memberships[j],
        ) && (key_of(c.memberships[i]) == key_of(c.memberships[j]) ==> !is_buried(
            l,
            "playlist_track"@,
            key_of(c.memberships[i]),
        ) && !is_told_of(c.tombstones, key_of(c.memberships[i])))
}

/// One of the tombstones is of the pair of that name.
pub open spec fn is_told_of(c: Seq<TombstoneView>, key: Seq<char>) -> bool {
    exists|k: int|
        0 <= k < c.len() && (#[trigger] c[k]).entity == "playlist_track"@ && c[k].uid == key
}

/// Keeping tombstones digs no grave but those they are of.
proof fn no_other_grave_is_dug(l: LibraryView, c: Seq<TombstoneView>, key: Seq<char>)
    requires
        !is_buried(l, "playlist_track"@, key),
        !is_told_of(c, key),
    ensures
        !is_buried(all_taken(l, c, tombstone_kept()).0, "playlist_track"@, key),
    decreases c.len(),
{
    if c.len() > 0 {
        let t = c.drop_last();
        if is_told_of(t, key) {
            let k = choose|k: int|
                0 <= k < t.len() && (#[trigger] t[k]).entity == "playlist_track"@ && t[k].uid == key;
            assert(c[k] == t[k]);
        }
        no_other_grave_is_dug(l, t, key);
        let m = all_taken(l, t, tombstone_kept()).0;
        let n = tombstone_kept()(m, c.last()).0;
        assert(c[c.len() - 1] == c.last());
        if !is_buried(m, c.last().entity, c.last().uid) {
            let row = n.tombstones.last();
            assert(n.tombstones =~= m.tombstones.push(row));
            first_stays_after_push(
                m.tombstones,
                row,
                keyed(tombstone_key(), ("playlist_track"@, key)),
            );
        }
    }
}

/// Taking in the same changes twice changes nothing the second time, where the first
/// time deleted nothing but tracks: no track, playlist or membership counts as
/// changed, nothing is deleted, and all but the tombstones stays as it is. Where the
/// changes carry no tombstones, those stay too. (One of theirs that a newer membership
/// of the same changes overrules goes and comes back.)
pub proof fn the_same_changes_change_nothing_twice(
    l: LibraryView,
    c: ChangesView,
    policy: DeletePolicy,
    kept: Set<Seq<char>>,
)
    requires
        l.wf(),
        room_for(l, c),
        pairs_are_clear(l, c),
        policy == DeletePolicy::Propagate ==> only_tracks_go(
            joined_and_recorded(l, c),
            c.tombstones,
            kept,
        ),
    ensures
        ({
            let once = taken(l, c, policy, kept).library;
            let twice = taken(once, c, policy, kept);
            &&& twice.tracks == 0
            &&& twice.playlists == 0
            &&& twice.memberships == 0
            &&& twice.deleted == 0
            &&& twice.library == (LibraryView { tombstones: twice.library.tombstones, ..once })
            &&& c.tombstones.len() == 0 ==> twice.library == once
        }),
{
    // The first time.
    let l1 = all_taken(l, c.tracks, metadata_taken()).0;
    let l2 = all_taken(l1, c.playlists, playlist_taken()).0;
    let newer = newer_ones(l1, c.playlists);
    let l3 = all_taken(l2, newer, parent_taken()).0;
    let l4 = all_taken(l3, c.memberships, membership_taken()).0;
    let l5 = all_taken(l4, c.tombstones, tombstone_kept()).0;
    let once = taken(l, c, policy, kept).library;
    crate::merge::stages_wf(l, c);
    metadata_keeps_graves(l, c.tracks);
    playlists_never_go_back(l1, c.playlists);
    parents_all(l2, newer);
    assert(l3.tombstones == l.tombstones);
    pairs_are_apart(l, l3, c);
    memberships_get_old(l3, c.memberships);
    all_buried(l4, c.tombstones, Seq::empty(), Seq::empty());
    let ids = if policy == DeletePolicy::Propagate {
        tracks_that_go(l5, c.tombstones, kept)
    } else {
        let none = Seq::<i64>::empty();
        crate::seqs::filter_all(l5.tracks, |t: TrackRowView| !none.contains(t.id));
        crate::seqs::filter_all(
            l5.playlist_tracks,
            |m: PlaylistTrackRowView| !none.contains(m.track_id),
        );
        none
    };
    assert(once == without_tracks(l5, ids));
    crate::tracks::without_tracks_wf(l5, ids);
    // The second time.
    metadata_changes_once(l, c, policy, kept);
    assert forall|i: int| 0 <= i < c.playlists.len() implies playlist_is_old(
        once,
        #[trigger] c.playlists[i],
    ) by {
        let p = c.playlists[i];
        assert(playlist_is_old(l2, p));
        assert(playlist_is_old(l3, p)) by {
            old_playlist_stays_old(l2, l3, p);
        }
        graves_of_playlists_stay(l3, c.memberships, p.uid);
        old_playlist_stays_old(l3, l4, p);
        all_buried(l4, c.tombstones, "playlist"@, p.uid);
        old_playlist_stays_old(l4, l5, p);
    }
    old_playlists_change_nothing(once, c.playlists);
    none_is_newer(once, c.playlists);
    assert forall|i: int| 0 <= i < c.memberships.len() implies membership_is_old(
        once,
        #[trigger] c.memberships[i],
    ) by {
        let m = c.memberships[i];
        assert(membership_is_old(l4, m));
        burying_keeps_old(l4, c.tombstones, m);
        deleting_keeps_old(l5, ids, m);
    }
    assert forall|i: int, j: int| 0 <= i < j < c.memberships.len() implies !same_pair(
        #[trigger] c.memberships[i],
        #[trigger] c.memberships[j],
    ) && (key_of(c.memberships[i]) == key_of(c.memberships[j]) ==> grave_of(
        once,
        c.memberships[i],
    ) is None) by {
        let m = c.memberships[i];
        if key_of(m) == key_of(c.memberships[j]) {
            assert(grave_of(l3, m) is None);
            no_grave_is_dug(l3, c.memberships, m);
            no_other_grave_is_dug(l4, c.tombstones, key_of(m));
        }
    }
    assert(apart(once, c.memberships));
    old_memberships_change_nothing(once, c.memberships);
    let m4 = all_taken(once, c.memberships, membership_taken()).0;
    let m5 = all_taken(m4, c.tombstones, tombstone_kept()).0;
    only_graves_are_dug(m4, c.tombstones);
    assert(all_taken(once, newer_ones(once, c.playlists), parent_taken()).0 == once);
    assert(joined_and_recorded(once, c) == m5);
    if policy == DeletePolicy::Propagate {
        deletions_are_done(l5, m5, kept, c.tombstones, c.tombstones.len() as int);
        assert(c.tombstones.take(c.tombstones.len() as int) =~= c.tombstones);
    }
    if c.tombstones.len() == 0 {
        assert(once == l4);
        graves_are_settled(l3, c.memberships);
        settled_graves_stay(l4, c.memberships);
        assert(m4 == once);
        assert(m5 == m4);
    }
}

proof fn metadata_keeps_graves(l: LibraryView, c: Seq<TrackEntryView>)
    ensures
        all_taken(l, c, metadata_taken()).0.tombstones == l.tombstones,
    decreases c.len(),
{
    if c.len() > 0 {
        metadata_keeps_graves(l, c.drop_last());
    }
}

proof fn pairs_are_apart(l: LibraryView, b: LibraryView, c: ChangesView)
    requires
        pairs_are_clear(l, c),
        b.tombstones == l.tombstones,
    ensures
        apart(b, c.memberships),
{
}

/// An old membership stays old while tracks go.
proof fn deleting_keeps_old(l: LibraryView, ids: Seq<i64>, m: MembershipView)
    requires
        l.wf(),
        membership_is_old(l, m),
    ensures
        membership_is_old(without_tracks(l, ids), m),
{
    let n = without_tracks(l, ids);
    what_is_left_was_there(l, ids, m.track_uid);
    if playlist_of(l, m) is Some && track_of(n, m) is Some {
        let pair = (playlist_of(l, m)->0.id, track_of(l, m)->0.id);
        let q = |p: PlaylistTrackRowView| !ids.contains(p.track_id);
        row_with_after_filter(l.playlist_tracks, q, pair_of(), pair);
        found_by_key(l.playlist_tracks, pair_of(), pair);
        found_by_key(n.playlist_tracks, pair_of(), pair);
    }
}

/// No tombstone stands against the membership, or one that holds it back.
pub open spec fn grave_is_settled(l: LibraryView, m: MembershipView) -> bool {
    grave_of(l, m) is None || grave_of(l, m)->0.deleted_at >= m.added_at
}

proof fn other_grave_stays(l: LibraryView, m: MembershipView, o: MembershipView)
    requires
        key_of(m) != key_of(o),
    ensures
        grave_of(membership_taken()(l, o).0, m) == grave_of(l, m),
{
    row_with_after_filter(
        l.tombstones,
        crate::db::other_than("playlist_track"@, key_of(o)),
        tombstone_key(),
        ("playlist_track"@, key_of(m)),
    );
}

proof fn own_grave_is_settled(l: LibraryView, m: MembershipView)
    ensures
        grave_is_settled(membership_taken()(l, m).0, m),
        grave_is_settled(l, m) ==> membership_taken()(l, m).0.tombstones == l.tombstones,
{
    let p = crate::db::other_than("playlist_track"@, key_of(m));
    let left = l.tombstones.filter(p);
    crate::library::filter_is_part(l.tombstones, p);
    found_by_key(left, tombstone_key(), ("playlist_track"@, key_of(m)));
    if let Some(i) = first_where(left, keyed(tombstone_key(), ("playlist_track"@, key_of(m)))) {
        assert(p(left[i]));
    }
}

/// Once memberships were taken in, no tombstone stands against one of them that does
/// not hold it back.
proof fn graves_are_settled(l: LibraryView, c: Seq<MembershipView>)
    requires
        apart(l, c),
    ensures
        forall|i: int|
            0 <= i < c.len() ==> grave_is_settled(
                all_taken(l, c, membership_taken()).0,
                #[trigger] c[i],
            ),
    decreases c.len(),
{
    if c.len() > 0 {
        let t = c.drop_last();
        let m = all_taken(l, t, membership_taken()).0;
        let n = membership_taken()(m, c.last()).0;
        part_is_apart(l, c);
        graves_are_settled(l, t);
        own_grave_is_settled(m, c.last());
        assert forall|i: int| 0 <= i < c.len() implies grave_is_settled(n, #[trigger] c[i]) by {
            if i < t.len() {
                assert(t[i] == c[i]);
                assert(!same_pair(c[i], c[c.len() - 1]));
                if key_of(c[i]) == key_of(c.last()) {
                    no_grave_is_dug(l, c, c[i]);
                } else {
                    other_grave_stays(m, c[i], c.last());
                }
            }
        }
    }
}

/// Then taking them in again leaves the tombstones as they are.
proof fn settled_graves_stay(l: LibraryView, c: Seq<MembershipView>)
    requires
        forall|i: int| 0 <= i < c.len() ==> grave_is_settled(l, #[trigger] c[i]),
    ensures
        all_taken(l, c, membership_taken()).0.tombstones == l.tombstones,
    decreases c.len(),
{
    if c.len() > 0 {
        let t = c.drop_last();
        assert forall|i: int| 0 <= i < t.len() implies grave_is_settled(l, #[trigger] t[i]) by {
            assert(t[i] == c[i]);
        }
        settled_graves_stay(l, t);
        let m = all_taken(l, t, membership_taken()).0;
        assert(grave_is_settled(l, c[c.len() - 1]));
        own_grave_is_settled(m, c.last());
    }
}

pub(crate) proof fn only_graves_are_dug(l: LibraryView, c: Seq<TombstoneView>)
    ensures
        ({
            let n = all_taken(l, c, tombstone_kept()).0;
            n == (LibraryView { tombstones: n.tombstones, ..l })
        }),
    decreases c.len(),
{
    if c.len() > 0 {
        only_graves_are_dug(l, c.drop_last());
    }
}

proof fn none_is_newer(l: LibraryView, c: Seq<PlaylistEntryView>)
    requires
        forall|i: int| 0 <= i < c.len() ==> playlist_is_old(l, #[trigger] c[i]),
    ensures
        newer_ones(l, c) == Seq::<PlaylistEntryView>::empty(),
    decreases c.len(),
{
    if c.len() > 0 {
        let t = c.drop_last();
        assert forall|i: int| 0 <= i < t.len() implies playlist_is_old(l, #[trigger] t[i]) by {
            assert(t[i] == c[i]);
        }
        none_is_newer(l, t);
        old_playlists_change_nothing(l, t);
        assert(playlist_is_old(l, c[c.len() - 1]));
        playlist_step(l, c.last());
    }
}

proof fn graves_of_playlists_stay(l: LibraryView, c: Seq<MembershipView>, uid: Seq<char>)
    ensures
        is_buried(l, "playlist"@, uid) ==> is_buried(
            all_taken(l, c, membership_taken()).0,
            "playlist"@,
            uid,
        ),
    decreases c.len(),
{
    if c.len() > 0 {
        let t = c.drop_last();
        graves_of_playlists_stay(l, t, uid);
        let m = all_taken(l, t, membership_taken()).0;
        let p = crate::db::other_than("playlist_track"@, key_of(c.last()));
        reveal_strlit("playlist");
        reveal_strlit("playlist_track");
        assert("playlist"@.len() != "playlist_track"@.len());
        row_with_after_filter(m.tombstones, p, tombstone_key(), ("playlist"@, uid));
        found_by_key(m.tombstones, tombstone_key(), ("playlist"@, uid));
        found_by_key(m.tombstones.filter(p), tombstone_key(), ("playlist"@, uid));
    }
}

} // verus!
