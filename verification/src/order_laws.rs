//! What becomes of the order of a playlist when one device tells another of it.

use crate::library::{
    filter_is_part, pair_of, playlist_id, playlist_uid_key, tombstone_key, track_id, track_uid_key,
    LibraryView, PlaylistTrackRowView,
};
use crate::manifest::{
    both_have_uids, key_of, manifest_of, membership_entry, playlist_entry, playlist_entry_uid,
    playlist_has_uid, MembershipView, TombstoneView,
};
use crate::merge::{
    all_taken, deletion_taken, joined, joined_and_recorded, last_membership, membership_is_news,
    membership_taken, metadata_taken, newer_ones, news_for, parent_taken, playlist_taken, taken,
    colon_at, place_survives, DeletePolicy, room_for, stages_wf, membership_taken_wf,
};
use crate::merge_laws::{
    found_by_key, only_graves_are_dug, metadata_never_goes_back, same_keys_same_first,
};
use crate::sync_laws::{
    places_keep_tracks, entry_has_its_row, entry_of_the_row, fewer_graves, filtered_is_there,
    graves_are_told, held_back, last_is_there, nothing_else_changes_places, pair_names_tell_apart,
    plain_uids, row_has_its_entry, uid_finds_it,
};
use crate::table::{first_where, first_where_at, first_where_is_first, keyed, row_with};
use crate::text::{before, before_total};
use crate::tracks::{by_rank, places, places_are_members};
use vstd::prelude::*;

verus! {

/// A place in a library: where the track stands, in which playlist, and which track it
/// is, each by the number of its row.
pub struct PlaceAt {
    pub at: int,
    pub playlist: int,
    pub track: int,
}

impl PlaceAt {
    /// The three rows belong together, and both the playlist and the track are known by
    /// a uid.
    pub open spec fn is_in(self, l: LibraryView) -> bool {
        &&& 0 <= self.at < l.playlist_tracks.len()
        &&& 0 <= self.playlist < l.playlists.len()
        &&& 0 <= self.track < l.tracks.len()
        &&& l.playlist_tracks[self.at].playlist_id == l.playlists[self.playlist].id
        &&& l.playlist_tracks[self.at].track_id == l.tracks[self.track].id
        &&& l.playlists[self.playlist].uid is Some
        &&& l.tracks[self.track].uid is Some
    }
}

/// Two devices have the same track in the same playlist.
pub open spec fn same_place(a: LibraryView, x: PlaceAt, b: LibraryView, y: PlaceAt) -> bool {
    &&& x.is_in(a)
    &&& y.is_in(b)
    &&& a.playlists[x.playlist].uid == b.playlists[y.playlist].uid
    &&& a.tracks[x.track].uid == b.tracks[y.track].uid
}

/// `b` has a record that the track was taken out of the playlist at that moment or
/// later.
pub open spec fn removed_since(
    b: LibraryView,
    playlist_uid: Seq<char>,
    track_uid: Seq<char>,
    moment: i64,
) -> bool {
    exists|k: int|
        0 <= k < b.tombstones.len() && (#[trigger] b.tombstones[k]).entity == "playlist_track"@
            && b.tombstones[k].uid == playlist_uid + ":"@ + track_uid && b.tombstones[k].deleted_at
            >= moment
}

/// The playlist and the track of a place are found by id and by uid.
proof fn place_is_found(l: LibraryView, x: PlaceAt)
    requires
        l.wf(),
        x.is_in(l),
    ensures
        row_with(l.playlists, playlist_id(), l.playlists[x.playlist].id) == Some(
            l.playlists[x.playlist],
        ),
        row_with(l.playlists, playlist_uid_key(), l.playlists[x.playlist].uid) == Some(
            l.playlists[x.playlist],
        ),
        row_with(l.tracks, track_id(), l.tracks[x.track].id) == Some(l.tracks[x.track]),
        row_with(l.tracks, track_uid_key(), l.tracks[x.track].uid) == Some(l.tracks[x.track]),
        both_have_uids(l)(l.playlist_tracks[x.at]),
        membership_entry(l)(l.playlist_tracks[x.at]) == (MembershipView {
            playlist_uid: l.playlists[x.playlist].uid->0,
            track_uid: l.tracks[x.track].uid->0,
            rank: l.playlist_tracks[x.at].rank,
            added_at: l.playlist_tracks[x.at].added_at,
        }),
{
    let p = l.playlists[x.playlist];
    let t = l.tracks[x.track];
    assert forall|k: int| 0 <= k < x.playlist implies !keyed(playlist_id(), p.id)(
        #[trigger] l.playlists[k],
    ) by {
        assert(playlist_id()(l.playlists[k]) != playlist_id()(l.playlists[x.playlist]));
    }
    first_where_at(l.playlists, keyed(playlist_id(), p.id), x.playlist);
    assert forall|k: int| 0 <= k < x.playlist implies !keyed(playlist_uid_key(), p.uid)(
        #[trigger] l.playlists[k],
    ) by {
        if playlist_uid_key()(l.playlists[k]) is Some {
            assert(playlist_uid_key()(l.playlists[k]) != playlist_uid_key()(
                l.playlists[x.playlist],
            ));
        }
    }
    first_where_at(l.playlists, keyed(playlist_uid_key(), p.uid), x.playlist);
    assert forall|k: int| 0 <= k < x.track implies !keyed(track_id(), t.id)(
        #[trigger] l.tracks[k],
    ) by {
        assert(track_id()(l.tracks[k]) != track_id()(l.tracks[x.track]));
    }
    first_where_at(l.tracks, keyed(track_id(), t.id), x.track);
    assert forall|k: int| 0 <= k < x.track implies !keyed(track_uid_key(), t.uid)(
        #[trigger] l.tracks[k],
    ) by {
        if track_uid_key()(l.tracks[k]) is Some {
            assert(track_uid_key()(l.tracks[k]) != track_uid_key()(l.tracks[x.track]));
        }
    }
    first_where_at(l.tracks, keyed(track_uid_key(), t.uid), x.track);
}

/// Taking memberships in gives the row of a pair the rank that came for it, and leaves
/// it alone where none came.
proof fn rank_is_taken(
    l: LibraryView,
    c: Seq<MembershipView>,
    m: MembershipView,
    playlist: i64,
    track: i64,
    j: int,
)
    requires
        first_where(l.playlist_tracks, keyed(pair_of(), (playlist, track))) == Some(j),
        match row_with(l.playlists, playlist_uid_key(), Some(m.playlist_uid)) {
            Some(p) => p.id == playlist,
            None => false,
        },
        match row_with(l.tracks, track_uid_key(), Some(m.track_uid)) {
            Some(t) => t.id == track,
            None => false,
        },
        !held_back(l, m),
        forall|k: int| #![trigger c[k]]
            0 <= k < c.len() && is_of(l, c[k], playlist, track) ==> c[k] == m,
    ensures
        ({
            let n = all_taken(l, c, membership_taken()).0;
            &&& n.playlists == l.playlists
            &&& n.tracks == l.tracks
            &&& !held_back(n, m)
            &&& n.playlist_tracks.len() >= l.playlist_tracks.len()
            &&& first_where(n.playlist_tracks, keyed(pair_of(), (playlist, track))) == Some(j)
            &&& n.playlist_tracks[j] == (PlaylistTrackRowView {
                rank: if exists|k: int| 0 <= k < c.len() && #[trigger] c[k] == m {
                    m.rank
                } else {
                    l.playlist_tracks[j].rank
                },
                ..l.playlist_tracks[j]
            })
        }),
    decreases c.len(),
{
    let q = keyed(pair_of(), (playlist, track));
    first_where_is_first(l.playlist_tracks, q);
    if c.len() > 0 {
        let t = c.drop_last();
        let x = c.last();
        assert forall|k: int| #![trigger t[k]]
            0 <= k < t.len() && is_of(l, t[k], playlist, track) implies t[k] == m by {
            assert(t[k] == c[k]);
        }
        rank_is_taken(l, t, m, playlist, track, j);
        let a = all_taken(l, t, membership_taken()).0;
        let n = membership_taken()(a, x).0;
        fewer_graves(a, x, m);
        first_where_is_first(a.playlist_tracks, q);
        let in_t = exists|k: int| 0 <= k < t.len() && #[trigger] t[k] == m;
        let in_c = exists|k: int| 0 <= k < c.len() && #[trigger] c[k] == m;
        if in_t {
            let k = choose|k: int| 0 <= k < t.len() && #[trigger] t[k] == m;
            assert(c[k] == m);
        }
        if is_of(l, x, playlist, track) {
            assert(c[c.len() - 1] == m);
            assert forall|k: int| 0 <= k < j implies !q(#[trigger] n.playlist_tracks[k]) by {
                assert(!q(a.playlist_tracks[k]));
            }
            first_where_at(n.playlist_tracks, q, j);
        } else {
            if in_c && !in_t {
                let k = choose|k: int| 0 <= k < c.len() && #[trigger] c[k] == m;
                if k < t.len() {
                    assert(t[k] == m);
                }
                assert(x == m);
            }
            let p = row_with(a.playlists, playlist_uid_key(), Some(x.playlist_uid));
            let s = row_with(a.tracks, track_uid_key(), Some(x.track_uid));
            if p is Some && s is Some {
                first_where_is_first(
                    a.playlist_tracks,
                    keyed(pair_of(), (p->0.id, s->0.id)),
                );
            }
            assert(n.playlist_tracks[j] == a.playlist_tracks[j]);
            assert forall|k: int| 0 <= k < j implies !q(#[trigger] n.playlist_tracks[k]) by {
                assert(!q(a.playlist_tracks[k]));
            }
            first_where_at(n.playlist_tracks, q, j);
        }
    }
}

/// The membership is of the pair of those two ids.
spec fn is_of(l: LibraryView, m: MembershipView, playlist: i64, track: i64) -> bool {
    let p = row_with(l.playlists, playlist_uid_key(), Some(m.playlist_uid));
    let t = row_with(l.tracks, track_uid_key(), Some(m.track_uid));
    p is Some && t is Some && p->0.id == playlist && t->0.id == track
}

proof fn last_is_found(s: Seq<MembershipView>, key: Seq<char>, k: int)
    requires
        0 <= k < s.len(),
        key_of(s[k]) == key,
    ensures
        last_membership(s, key) is Some,
    decreases s.len(),
{
    if k < s.len() - 1 {
        assert(s.drop_last()[k] == s[k]);
        last_is_found(s.drop_last(), key, k);
    }
}

/// Two rows that are of the same playlist and the same track are the same row.
proof fn one_row_each(l: LibraryView, i: int, j: int)
    requires
        l.wf(),
        0 <= i < l.playlist_tracks.len(),
        0 <= j < l.playlist_tracks.len(),
        both_have_uids(l)(l.playlist_tracks[i]),
        both_have_uids(l)(l.playlist_tracks[j]),
        membership_entry(l)(l.playlist_tracks[i]).playlist_uid == membership_entry(l)(
            l.playlist_tracks[j],
        ).playlist_uid,
        membership_entry(l)(l.playlist_tracks[i]).track_uid == membership_entry(l)(
            l.playlist_tracks[j],
        ).track_uid,
    ensures
        i == j,
{
    let r = l.playlist_tracks[i];
    let s = l.playlist_tracks[j];
    found_by_key(l.playlists, playlist_id(), r.playlist_id);
    found_by_key(l.playlists, playlist_id(), s.playlist_id);
    found_by_key(l.tracks, track_id(), r.track_id);
    found_by_key(l.tracks, track_id(), s.track_id);
    let p = first_where(l.playlists, keyed(playlist_id(), r.playlist_id))->0;
    let q = first_where(l.playlists, keyed(playlist_id(), s.playlist_id))->0;
    let t = first_where(l.tracks, keyed(track_id(), r.track_id))->0;
    let u = first_where(l.tracks, keyed(track_id(), s.track_id))->0;
    assert(playlist_uid_key()(l.playlists[p]) == playlist_uid_key()(l.playlists[q]));
    assert(track_uid_key()(l.tracks[t]) == track_uid_key()(l.tracks[u]));
    assert(p == q);
    assert(t == u);
    assert(pair_of()(r) == pair_of()(s));
}

/// A row that is of a named playlist stands in a place.
proof fn row_is_a_place(l: LibraryView, i: int) -> (x: PlaceAt)
    requires
        l.wf(),
        0 <= i < l.playlist_tracks.len(),
        both_have_uids(l)(l.playlist_tracks[i]),
    ensures
        x.is_in(l),
        x.at == i,
{
    let r = l.playlist_tracks[i];
    found_by_key(l.playlists, playlist_id(), r.playlist_id);
    found_by_key(l.tracks, track_id(), r.track_id);
    PlaceAt {
        at: i,
        playlist: first_where(l.playlists, keyed(playlist_id(), r.playlist_id))->0,
        track: first_where(l.tracks, keyed(track_id(), r.track_id))->0,
    }
}

/// The order of a playlist comes from the device that touched it last: where both
/// devices have a track in a playlist, and `b` has not taken it out since `a` put it
/// there, then once `b` has taken in what `a` told it the track has the rank that it
/// has on `a`, if the playlist is newer there, and the rank that it had on `b`, if not.
/// Nothing else of the place changes.
pub proof fn the_newest_order_wins(
    a: LibraryView,
    b: LibraryView,
    name_a: Seq<char>,
    name_b: Seq<char>,
    x: PlaceAt,
    y: PlaceAt,
)
    requires
        a.wf(),
        b.wf(),
        plain_uids(a.playlists),
        plain_uids(b.playlists),
        room_for(b, news_for(manifest_of(a, name_a), manifest_of(b, name_b))),
        same_place(a, x, b, y),
        !removed_since(
            b,
            a.playlists[x.playlist].uid->0,
            a.tracks[x.track].uid->0,
            a.playlist_tracks[x.at].added_at,
        ),
    ensures
        ({
            let told = news_for(manifest_of(a, name_a), manifest_of(b, name_b));
            let after = joined(b, told).library.playlist_tracks;
            &&& y.at < after.len()
            &&& after[y.at].playlist_id == b.playlist_tracks[y.at].playlist_id
            &&& after[y.at].track_id == b.playlist_tracks[y.at].track_id
            &&& after[y.at].added_at == b.playlist_tracks[y.at].added_at
            &&& a.playlists[x.playlist].updated_at > b.playlists[y.playlist].updated_at
                ==> after[y.at].rank == a.playlist_tracks[x.at].rank
            &&& a.playlists[x.playlist].updated_at <= b.playlists[y.playlist].updated_at
                ==> after[y.at].rank == b.playlist_tracks[y.at].rank
            &&& forall|k: int|
                0 <= k < after.len() && (#[trigger] after[k]).playlist_id
                    == b.playlist_tracks[y.at].playlist_id && after[k].track_id
                    == b.playlist_tracks[y.at].track_id ==> k == y.at
        }),
{
    let ma = manifest_of(a, name_a);
    let mb = manifest_of(b, name_b);
    let told = news_for(ma, mb);
    let l1 = all_taken(b, told.tracks, metadata_taken()).0;
    let l2 = all_taken(l1, told.playlists, playlist_taken()).0;
    let l3 = all_taken(l2, newer_ones(l1, told.playlists), parent_taken()).0;
    let l4 = joined(b, told).library;
    let c = told.memberships;
    let pu = a.playlists[x.playlist].uid->0;
    let tu = a.tracks[x.track].uid->0;
    let m = membership_entry(a)(a.playlist_tracks[x.at]);
    let own = membership_entry(b)(b.playlist_tracks[y.at]);
    let playlist = b.playlists[y.playlist].id;
    let track = b.tracks[y.track].id;
    place_is_found(a, x);
    place_is_found(b, y);
    nothing_else_changes_places(b, told);
    stages_wf(b, told);
    // Where the pair is found, before and after.
    uid_finds_it(b.playlists, l3.playlists, y.playlist, told, b);
    metadata_never_goes_back(b, told.tracks);
    assert forall|k: int| 0 <= k < b.tracks.len() implies track_uid_key()(#[trigger] b.tracks[k])
        == track_uid_key()(l1.tracks[k]) by {
        assert(l1.tracks[k].uid == b.tracks[k].uid);
    }
    same_keys_same_first(b.tracks, l1.tracks, track_uid_key(), Some(tu));
    found_by_key(b.tracks, track_uid_key(), Some(tu));
    let tf = first_where(b.tracks, keyed(track_uid_key(), Some(tu)))->0;
    assert(l1.tracks[tf].id == b.tracks[tf].id);
    let q = keyed(pair_of(), (playlist, track));
    assert forall|k: int| 0 <= k < y.at implies !q(#[trigger] b.playlist_tracks[k]) by {
        assert(pair_of()(b.playlist_tracks[k]) != pair_of()(b.playlist_tracks[y.at]));
    }
    first_where_at(b.playlist_tracks, q, y.at);
    not_held_back(b, m);
    // What is told of the pair.
    assert forall|k: int| #![trigger c[k]]
        0 <= k < c.len() && is_of(l3, c[k], playlist, track) implies c[k] == m by {
        told_once(a, b, name_a, name_b, x, k);
        same_ids_same_uids(l3, c[k], m, playlist, track);
    }
    rank_is_taken(l3, c, m, playlist, track, y.at);
    the_other_side_is_known(a, b, name_a, name_b, x, y);
    let at = row_has_its_entry(a.playlist_tracks, both_have_uids(a), membership_entry(a), x.at);
    let p = membership_is_news(ma, mb);
    if p(m) {
        let k = filtered_is_there(ma.memberships, p, at);
        assert(c[k] == m);
    } else {
        assert forall|k: int| 0 <= k < c.len() implies #[trigger] c[k] != m by {
            filter_is_part(ma.memberships, p);
            assert(p(c[k]));
        }
    }
    // There is one row of the pair.
    places_stay_wf(l3, c);
    assert forall|k: int|
        0 <= k < l4.playlist_tracks.len() && (#[trigger] l4.playlist_tracks[k]).playlist_id
            == playlist && l4.playlist_tracks[k].track_id == track implies k == y.at by {
        assert(pair_of()(l4.playlist_tracks[k]) == pair_of()(l4.playlist_tracks[y.at]));
    }
}

proof fn not_held_back(b: LibraryView, m: MembershipView)
    requires
        !removed_since(b, m.playlist_uid, m.track_uid, m.added_at),
    ensures
        !held_back(b, m),
{
    found_by_key(b.tombstones, tombstone_key(), ("playlist_track"@, key_of(m)));
}

pub(crate) proof fn places_stay_wf(l: LibraryView, c: Seq<MembershipView>)
    requires
        l.wf(),
    ensures
        all_taken(l, c, membership_taken()).0.wf(),
    decreases c.len(),
{
    if c.len() > 0 {
        places_stay_wf(l, c.drop_last());
        membership_taken_wf(all_taken(l, c.drop_last(), membership_taken()).0, c.last());
    }
}

proof fn same_ids_same_uids(
    l: LibraryView,
    m: MembershipView,
    o: MembershipView,
    playlist: i64,
    track: i64,
)
    requires
        l.wf(),
        is_of(l, m, playlist, track),
        is_of(l, o, playlist, track),
    ensures
        m.playlist_uid == o.playlist_uid,
        m.track_uid == o.track_uid,
{
    found_by_key(l.playlists, playlist_uid_key(), Some(m.playlist_uid));
    found_by_key(l.playlists, playlist_uid_key(), Some(o.playlist_uid));
    found_by_key(l.tracks, track_uid_key(), Some(m.track_uid));
    found_by_key(l.tracks, track_uid_key(), Some(o.track_uid));
    let p = first_where(l.playlists, keyed(playlist_uid_key(), Some(m.playlist_uid)))->0;
    let q = first_where(l.playlists, keyed(playlist_uid_key(), Some(o.playlist_uid)))->0;
    let t = first_where(l.tracks, keyed(track_uid_key(), Some(m.track_uid)))->0;
    let u = first_where(l.tracks, keyed(track_uid_key(), Some(o.track_uid)))->0;
    assert(playlist_id()(l.playlists[p]) == playlist_id()(l.playlists[q]));
    assert(track_id()(l.tracks[t]) == track_id()(l.tracks[u]));
    assert(p == q && t == u);
}

/// `a` tells of a pair in one way only.
proof fn told_once(
    a: LibraryView,
    b: LibraryView,
    name_a: Seq<char>,
    name_b: Seq<char>,
    x: PlaceAt,
    k: int,
)
    requires
        a.wf(),
        x.is_in(a),
        0 <= k < news_for(manifest_of(a, name_a), manifest_of(b, name_b)).memberships.len(),
    ensures
        ({
            let c = news_for(manifest_of(a, name_a), manifest_of(b, name_b)).memberships;
            let m = membership_entry(a)(a.playlist_tracks[x.at]);
            c[k].playlist_uid == m.playlist_uid && c[k].track_uid == m.track_uid ==> c[k] == m
        }),
{
    let ma = manifest_of(a, name_a);
    let p = membership_is_news(ma, manifest_of(b, name_b));
    let c = ma.memberships.filter(p);
    place_is_found(a, x);
    filter_is_part(ma.memberships, p);
    assert(ma.memberships.contains(c[k]));
    let n = choose|n: int| 0 <= n < ma.memberships.len() && ma.memberships[n] == c[k];
    let i = entry_has_its_row(a.playlist_tracks, both_have_uids(a), membership_entry(a), n);
    let m = membership_entry(a)(a.playlist_tracks[x.at]);
    if c[k].playlist_uid == m.playlist_uid && c[k].track_uid == m.track_uid {
        one_row_each(a, i, x.at);
    }
}

/// Where `b` has the pair, the membership is news if the ranks differ and the playlist
/// is newer on `a`.
proof fn the_other_side_is_known(
    a: LibraryView,
    b: LibraryView,
    name_a: Seq<char>,
    name_b: Seq<char>,
    x: PlaceAt,
    y: PlaceAt,
)
    requires
        a.wf(),
        b.wf(),
        plain_uids(a.playlists),
        plain_uids(b.playlists),
        same_place(a, x, b, y),
        !held_back(b, membership_entry(a)(a.playlist_tracks[x.at])),
    ensures
        membership_is_news(manifest_of(a, name_a), manifest_of(b, name_b))(
            membership_entry(a)(a.playlist_tracks[x.at]),
        ) <==> (a.playlist_tracks[x.at].rank != b.playlist_tracks[y.at].rank
            && a.playlists[x.playlist].updated_at > b.playlists[y.playlist].updated_at),
{
    let ma = manifest_of(a, name_a);
    let mb = manifest_of(b, name_b);
    let m = membership_entry(a)(a.playlist_tracks[x.at]);
    let own = membership_entry(b)(b.playlist_tracks[y.at]);
    let pu = a.playlists[x.playlist].uid->0;
    place_is_found(a, x);
    place_is_found(b, y);
    graves_are_told(b, name_b, m);
    let at = row_has_its_entry(b.playlist_tracks, both_have_uids(b), membership_entry(b), y.at);
    last_is_found(mb.memberships, key_of(m), at);
    let k = last_is_there(mb.memberships, key_of(m));
    let j = entry_has_its_row(b.playlist_tracks, both_have_uids(b), membership_entry(b), k);
    let z = row_is_a_place(b, j);
    place_is_found(b, z);
    pair_names_tell_apart(
        m.playlist_uid,
        m.track_uid,
        mb.memberships[k].playlist_uid,
        mb.memberships[k].track_uid,
    );
    one_row_each(b, j, y.at);
    entry_of_the_row(
        a.playlists,
        playlist_has_uid(),
        playlist_entry(a),
        playlist_uid_key(),
        playlist_entry_uid(),
        pu,
    );
    entry_of_the_row(
        b.playlists,
        playlist_has_uid(),
        playlist_entry(b),
        playlist_uid_key(),
        playlist_entry_uid(),
        pu,
    );
}

/// Deletions that are taken in only take places away.
proof fn deletions_only_take_away(l: LibraryView, c: Seq<TombstoneView>, kept: Set<Seq<char>>)
    ensures
        forall|i: int|
            0 <= i < all_taken(l, c, deletion_taken(kept)).0.playlist_tracks.len()
                ==> l.playlist_tracks.contains(
                #[trigger] all_taken(l, c, deletion_taken(kept)).0.playlist_tracks[i],
            ),
    decreases c.len(),
{
    if c.len() > 0 {
        let t = c.drop_last();
        let x = c.last();
        deletions_only_take_away(l, t, kept);
        let a = all_taken(l, t, deletion_taken(kept)).0;
        let n = deletion_taken(kept)(a, x).0;
        if x.entity == "track"@ {
            if let Some(row) = row_with(a.tracks, track_uid_key(), Some(x.uid)) {
                let ids = seq![row.id];
                filter_is_part(
                    a.playlist_tracks,
                    |m: PlaylistTrackRowView| !ids.contains(m.track_id),
                );
            }
        } else if x.entity == "playlist"@ {
            if let Some(row) = row_with(a.playlists, playlist_uid_key(), Some(x.uid)) {
                let root = row.id;
                filter_is_part(
                    a.playlist_tracks,
                    |m: PlaylistTrackRowView|
                        !crate::tree::holds(a.playlists, root, m.playlist_id),
                );
            }
        } else if x.entity == "playlist_track"@ {
            if let Some(i) = colon_at(x.uid) {
                filter_is_part(
                    a.playlist_tracks,
                    place_survives(
                        a,
                        x.uid.subrange(0, i),
                        x.uid.subrange(i + 1, x.uid.len() as int),
                        x.deleted_at,
                    ),
                );
            }
        }
        assert forall|i: int| 0 <= i < n.playlist_tracks.len() implies l.playlist_tracks.contains(
            #[trigger] n.playlist_tracks[i],
        ) by {
            assert(a.playlist_tracks.contains(n.playlist_tracks[i]));
        }
    }
}

/// Where both devices have a track in a playlist that is newer on `a`, and `b` has not
/// taken it out since, then once `b` has taken in all that `a` told it, deletions among
/// it, the track stands there with the rank that it has on `a`, if it is still there.
pub proof fn the_newer_rank_is_the_one_kept(
    a: LibraryView,
    b: LibraryView,
    name_a: Seq<char>,
    name_b: Seq<char>,
    x: PlaceAt,
    y: PlaceAt,
    policy: DeletePolicy,
    kept: Set<Seq<char>>,
)
    requires
        a.wf(),
        b.wf(),
        plain_uids(a.playlists),
        plain_uids(b.playlists),
        room_for(b, news_for(manifest_of(a, name_a), manifest_of(b, name_b))),
        same_place(a, x, b, y),
        a.playlists[x.playlist].updated_at > b.playlists[y.playlist].updated_at,
        !removed_since(
            b,
            a.playlists[x.playlist].uid->0,
            a.tracks[x.track].uid->0,
            a.playlist_tracks[x.at].added_at,
        ),
    ensures
        ({
            let told = news_for(manifest_of(a, name_a), manifest_of(b, name_b));
            let after = taken(b, told, policy, kept).library.playlist_tracks;
            forall|k: int|
                0 <= k < after.len() && (#[trigger] after[k]).playlist_id
                    == b.playlist_tracks[y.at].playlist_id && after[k].track_id
                    == b.playlist_tracks[y.at].track_id ==> after[k].rank
                    == a.playlist_tracks[x.at].rank
        }),
{
    let told = news_for(manifest_of(a, name_a), manifest_of(b, name_b));
    let l4 = joined(b, told).library;
    let l5 = joined_and_recorded(b, told);
    let after = taken(b, told, policy, kept).library.playlist_tracks;
    the_newest_order_wins(a, b, name_a, name_b, x, y);
    only_graves_are_dug(l4, told.tombstones);
    deletions_only_take_away(l5, told.tombstones, kept);
    assert forall|k: int|
        0 <= k < after.len() && (#[trigger] after[k]).playlist_id
            == b.playlist_tracks[y.at].playlist_id && after[k].track_id
            == b.playlist_tracks[y.at].track_id implies after[k].rank
        == a.playlist_tracks[x.at].rank by {
        assert(l5.playlist_tracks.contains(after[k]));
        let n = choose|n: int|
            0 <= n < l4.playlist_tracks.len() && l4.playlist_tracks[n] == after[k];
        assert(l4.playlist_tracks[n].track_id == b.playlist_tracks[y.at].track_id);
    }
}

/// The tracks of a playlist that both devices have stand on `b` in the order in which
/// they stand on `a`, where the playlist is newer: whichever of two with different
/// ranks comes first on `a` comes first on `b` once it has taken in what `a` told it.
pub proof fn the_newer_order_is_the_one_shown(
    a: LibraryView,
    b: LibraryView,
    name_a: Seq<char>,
    name_b: Seq<char>,
    x1: PlaceAt,
    x2: PlaceAt,
    y1: PlaceAt,
    y2: PlaceAt,
    policy: DeletePolicy,
    kept: Set<Seq<char>>,
    first_on_a: int,
    then_on_a: int,
    first_on_b: int,
    then_on_b: int,
)
    requires
        a.wf(),
        b.wf(),
        plain_uids(a.playlists),
        plain_uids(b.playlists),
        room_for(b, news_for(manifest_of(a, name_a), manifest_of(b, name_b))),
        same_place(a, x1, b, y1),
        same_place(a, x2, b, y2),
        x1.playlist == x2.playlist,
        y1.playlist == y2.playlist,
        a.playlists[x1.playlist].updated_at > b.playlists[y1.playlist].updated_at,
        !removed_since(
            b,
            a.playlists[x1.playlist].uid->0,
            a.tracks[x1.track].uid->0,
            a.playlist_tracks[x1.at].added_at,
        ),
        !removed_since(
            b,
            a.playlists[x2.playlist].uid->0,
            a.tracks[x2.track].uid->0,
            a.playlist_tracks[x2.at].added_at,
        ),
        a.playlist_tracks[x1.at].rank != a.playlist_tracks[x2.at].rank,
        // The one stands before the other on `a`.
        ({
            let shown = places(a.playlist_tracks, a.playlists[x1.playlist].id);
            &&& 0 <= first_on_a < then_on_a < shown.len()
            &&& shown[first_on_a] == a.playlist_tracks[x1.at]
            &&& shown[then_on_a] == a.playlist_tracks[x2.at]
        }),
        // That is where they stand on `b`.
        ({
            let told = news_for(manifest_of(a, name_a), manifest_of(b, name_b));
            let after = taken(b, told, policy, kept).library.playlist_tracks;
            let shown = places(after, b.playlists[y1.playlist].id);
            &&& 0 <= first_on_b < shown.len()
            &&& 0 <= then_on_b < shown.len()
            &&& shown[first_on_b].track_id == b.tracks[y1.track].id
            &&& shown[then_on_b].track_id == b.tracks[y2.track].id
        }),
    ensures
        first_on_b < then_on_b,
{
    let told = news_for(manifest_of(a, name_a), manifest_of(b, name_b));
    let after = taken(b, told, policy, kept).library.playlist_tracks;
    let on_a = places(a.playlist_tracks, a.playlists[x1.playlist].id);
    let on_b = places(after, b.playlists[y1.playlist].id);
    the_newer_rank_is_the_one_kept(a, b, name_a, name_b, x1, y1, policy, kept);
    the_newer_rank_is_the_one_kept(a, b, name_a, name_b, x2, y2, policy, kept);
    places_are_members(a.playlist_tracks, a.playlists[x1.playlist].id);
    places_are_members(after, b.playlists[y1.playlist].id);
    let r1 = a.playlist_tracks[x1.at].rank;
    let r2 = a.playlist_tracks[x2.at].rank;
    before_total(r1, r2);
    assert(!by_rank()(on_a[then_on_a], on_a[first_on_a]));
    assert(before(r1, r2));
    assert(after.contains(on_b[first_on_b]));
    assert(after.contains(on_b[then_on_b]));
    assert(on_b[first_on_b].rank == r1);
    assert(on_b[then_on_b].rank == r2);
    if then_on_b < first_on_b {
        assert(!by_rank()(on_b[first_on_b], on_b[then_on_b]));
    }
}

// ---------------------------------------------------------------------------
// Places that one device has and the other lacks
// ---------------------------------------------------------------------------

/// The pair of those two ids stands nowhere.
spec fn stands_nowhere(rows: Seq<PlaylistTrackRowView>, playlist: i64, track: i64) -> bool {
    first_where(rows, keyed(pair_of(), (playlist, track))) is None
}

/// Taking memberships in makes the place of a pair that was not there, as it came, and
/// makes none where none came.
proof fn place_is_made(
    l: LibraryView,
    c: Seq<MembershipView>,
    m: MembershipView,
    playlist: i64,
    track: i64,
)
    requires
        stands_nowhere(l.playlist_tracks, playlist, track),
        is_of(l, m, playlist, track),
        !held_back(l, m),
        forall|k: int| #![trigger c[k]]
            0 <= k < c.len() && is_of(l, c[k], playlist, track) ==> c[k] == m,
    ensures
        ({
            let n = all_taken(l, c, membership_taken()).0;
            &&& n.playlists == l.playlists
            &&& n.tracks == l.tracks
            &&& !held_back(n, m)
            &&& if exists|k: int| 0 <= k < c.len() && #[trigger] c[k] == m {
                row_with(n.playlist_tracks, pair_of(), (playlist, track)) == Some(
                    PlaylistTrackRowView {
                        playlist_id: playlist,
                        track_id: track,
                        rank: m.rank,
                        added_at: m.added_at,
                    },
                )
            } else {
                stands_nowhere(n.playlist_tracks, playlist, track)
            }
        }),
    decreases c.len(),
{
    let q = keyed(pair_of(), (playlist, track));
    if c.len() > 0 {
        let t = c.drop_last();
        let x = c.last();
        assert forall|k: int| #![trigger t[k]]
            0 <= k < t.len() && is_of(l, t[k], playlist, track) implies t[k] == m by {
            assert(t[k] == c[k]);
        }
        place_is_made(l, t, m, playlist, track);
        let a = all_taken(l, t, membership_taken()).0;
        let n = membership_taken()(a, x).0;
        fewer_graves(a, x, m);
        first_where_is_first(a.playlist_tracks, q);
        let in_t = exists|k: int| 0 <= k < t.len() && #[trigger] t[k] == m;
        let in_c = exists|k: int| 0 <= k < c.len() && #[trigger] c[k] == m;
        if in_t {
            let k = choose|k: int| 0 <= k < t.len() && #[trigger] t[k] == m;
            assert(c[k] == m);
        }
        if is_of(l, x, playlist, track) {
            assert(c[c.len() - 1] == m);
            if !in_t {
                let row = PlaylistTrackRowView {
                    playlist_id: playlist,
                    track_id: track,
                    rank: m.rank,
                    added_at: m.added_at,
                };
                crate::table::row_with_push(
                    a.playlist_tracks,
                    pair_of(),
                    row,
                    (playlist, track),
                );
            } else {
                let i = first_where(a.playlist_tracks, q)->0;
                assert(a.playlist_tracks[i].rank == m.rank);
                assert(n.playlist_tracks == a.playlist_tracks);
            }
        } else {
            if in_c && !in_t {
                let k = choose|k: int| 0 <= k < c.len() && #[trigger] c[k] == m;
                if k < t.len() {
                    assert(t[k] == m);
                }
                assert(x == m);
            }
            another_pair_changes_nothing(a, x, playlist, track);
        }
    }
}

proof fn another_pair_changes_nothing(l: LibraryView, x: MembershipView, playlist: i64, track: i64)
    requires
        !is_of(l, x, playlist, track),
    ensures
        row_with(membership_taken()(l, x).0.playlist_tracks, pair_of(), (playlist, track))
            == row_with(l.playlist_tracks, pair_of(), (playlist, track)),
        stands_nowhere(membership_taken()(l, x).0.playlist_tracks, playlist, track)
            == stands_nowhere(l.playlist_tracks, playlist, track),
{
    let n = membership_taken()(l, x).0;
    let p = row_with(l.playlists, playlist_uid_key(), Some(x.playlist_uid));
    let s = row_with(l.tracks, track_uid_key(), Some(x.track_uid));
    found_by_key(l.playlist_tracks, pair_of(), (playlist, track));
    found_by_key(n.playlist_tracks, pair_of(), (playlist, track));
    if n.playlist_tracks != l.playlist_tracks {
        let k = (p->0.id, s->0.id);
        found_by_key(l.playlist_tracks, pair_of(), k);
        let row = match first_where(l.playlist_tracks, keyed(pair_of(), k)) {
            Some(i) => PlaylistTrackRowView { rank: x.rank, ..l.playlist_tracks[i] },
            None => PlaylistTrackRowView {
                playlist_id: p->0.id,
                track_id: s->0.id,
                rank: x.rank,
                added_at: x.added_at,
            },
        };
        assert(pair_of()(row) == k);
        match first_where(l.playlist_tracks, keyed(pair_of(), k)) {
            Some(i) => {
                crate::table::row_with_update(
                    l.playlist_tracks,
                    pair_of(),
                    i,
                    row,
                    (playlist, track),
                );
            },
            None => {
                crate::table::row_with_push(l.playlist_tracks, pair_of(), row, (playlist, track));
            },
        }
    }
}

/// `b` does not have the track in the playlist.
pub open spec fn lacks_place(b: LibraryView, playlist_uid: Seq<char>, track_uid: Seq<char>) -> bool {
    forall|y: PlaceAt|
        #![trigger y.is_in(b)]
        y.is_in(b) ==> !(b.playlists[y.playlist].uid == Some(playlist_uid) && b.tracks[y.track].uid
            == Some(track_uid))
}

/// What is found of the pair in `b`, before the memberships are taken in.
proof fn nowhere_before(
    a: LibraryView,
    b: LibraryView,
    name_a: Seq<char>,
    name_b: Seq<char>,
    m: MembershipView,
)
    requires
        b.wf(),
        room_for(b, news_for(manifest_of(a, name_a), manifest_of(b, name_b))),
        lacks_place(b, m.playlist_uid, m.track_uid),
    ensures
        ({
            let told = news_for(manifest_of(a, name_a), manifest_of(b, name_b));
            let l1 = all_taken(b, told.tracks, metadata_taken()).0;
            let l2 = all_taken(l1, told.playlists, playlist_taken()).0;
            let l3 = all_taken(l2, newer_ones(l1, told.playlists), parent_taken()).0;
            forall|playlist: i64, track: i64| #[trigger]
                is_of(l3, m, playlist, track) ==> stands_nowhere(
                    l3.playlist_tracks,
                    playlist,
                    track,
                )
        }),
{
    let told = news_for(manifest_of(a, name_a), manifest_of(b, name_b));
    let l1 = all_taken(b, told.tracks, metadata_taken()).0;
    let l2 = all_taken(l1, told.playlists, playlist_taken()).0;
    let l3 = all_taken(l2, newer_ones(l1, told.playlists), parent_taken()).0;
    nothing_else_changes_places(b, told);
    stages_wf(b, told);
    metadata_never_goes_back(b, told.tracks);
    crate::merge_laws::playlists_never_go_back(l1, told.playlists);
    crate::sync_laws::parents_keep_clocks(l2, newer_ones(l1, told.playlists));
    assert forall|playlist: i64, track: i64| #[trigger]
        is_of(l3, m, playlist, track) implies stands_nowhere(
        l3.playlist_tracks,
        playlist,
        track,
    ) by {
        found_by_key(l3.playlist_tracks, pair_of(), (playlist, track));
        if let Some(j) = first_where(l3.playlist_tracks, keyed(pair_of(), (playlist, track))) {
            let row = b.playlist_tracks[j];
            assert(crate::library::is_playlist(b.playlists, row.playlist_id));
            assert(crate::library::is_track(b.tracks, row.track_id));
            found_by_key(b.playlists, playlist_id(), row.playlist_id);
            found_by_key(b.tracks, track_id(), row.track_id);
            let pb = first_where(b.playlists, keyed(playlist_id(), row.playlist_id))->0;
            let tb = first_where(b.tracks, keyed(track_id(), row.track_id))->0;
            found_by_key(l3.playlists, playlist_uid_key(), Some(m.playlist_uid));
            found_by_key(l3.tracks, track_uid_key(), Some(m.track_uid));
            let pf = first_where(l3.playlists, keyed(playlist_uid_key(), Some(m.playlist_uid)))->0;
            let tf = first_where(l3.tracks, keyed(track_uid_key(), Some(m.track_uid)))->0;
            assert(l2.playlists[pb].uid == b.playlists[pb].uid);
            assert(l3.playlists[pb].uid == l2.playlists[pb].uid);
            assert(l3.playlists[pb].id == l2.playlists[pb].id);
            assert(playlist_id()(l3.playlists[pb]) == playlist_id()(l3.playlists[pf]));
            assert(pb == pf);
            assert(l1.tracks[tb].id == b.tracks[tb].id);
            assert(l1.tracks[tb].uid == b.tracks[tb].uid);
            assert(track_id()(l3.tracks[tb]) == track_id()(l3.tracks[tf]));
            assert(tb == tf);
            let y = PlaceAt { at: j, playlist: pb, track: tb };
            assert(y.is_in(b));
        }
    }
}

/// A track that `a` has in a playlist and `b` has not comes to stand in it on `b` as it
/// stands on `a`: with the same rank, and as added at the same moment; if `b` has the
/// track, has not deleted the playlist, and has not taken the track out since.
pub proof fn a_new_place_arrives_as_it_is(
    a: LibraryView,
    b: LibraryView,
    name_a: Seq<char>,
    name_b: Seq<char>,
    x: PlaceAt,
)
    requires
        a.wf(),
        b.wf(),
        plain_uids(a.playlists),
        plain_uids(b.playlists),
        room_for(b, news_for(manifest_of(a, name_a), manifest_of(b, name_b))),
        x.is_in(a),
        row_with(b.tracks, track_uid_key(), a.tracks[x.track].uid) is Some,
        !crate::merge::is_buried(b, "playlist"@, a.playlists[x.playlist].uid->0),
        lacks_place(b, a.playlists[x.playlist].uid->0, a.tracks[x.track].uid->0),
        !removed_since(
            b,
            a.playlists[x.playlist].uid->0,
            a.tracks[x.track].uid->0,
            a.playlist_tracks[x.at].added_at,
        ),
    ensures
        ({
            let told = news_for(manifest_of(a, name_a), manifest_of(b, name_b));
            let n = joined(b, told).library;
            let p = row_with(n.playlists, playlist_uid_key(), a.playlists[x.playlist].uid);
            let t = row_with(n.tracks, track_uid_key(), a.tracks[x.track].uid);
            &&& p is Some
            &&& t is Some
            &&& match row_with(n.playlist_tracks, pair_of(), (p->0.id, t->0.id)) {
                Some(row) => {
                    &&& row.rank == a.playlist_tracks[x.at].rank
                    &&& row.added_at == a.playlist_tracks[x.at].added_at
                },
                None => false,
            }
        }),
{
    let ma = manifest_of(a, name_a);
    let mb = manifest_of(b, name_b);
    let told = news_for(ma, mb);
    let c = told.memberships;
    let l1 = all_taken(b, told.tracks, metadata_taken()).0;
    let l2 = all_taken(l1, told.playlists, playlist_taken()).0;
    let l3 = all_taken(l2, newer_ones(l1, told.playlists), parent_taken()).0;
    let m = membership_entry(a)(a.playlist_tracks[x.at]);
    place_is_found(a, x);
    nothing_else_changes_places(b, told);
    stages_wf(b, told);
    places_keep_tracks(l3, c);
    crate::sync_laws::every_playlist_arrives(a, b, name_a, name_b, x.playlist);
    metadata_never_goes_back(b, told.tracks);
    assert forall|k: int| 0 <= k < b.tracks.len() implies track_uid_key()(#[trigger] b.tracks[k])
        == track_uid_key()(l1.tracks[k]) by {
        assert(l1.tracks[k].uid == b.tracks[k].uid);
    }
    same_keys_same_first(b.tracks, l1.tracks, track_uid_key(), Some(m.track_uid));
    let playlist = (row_with(l3.playlists, playlist_uid_key(), Some(m.playlist_uid))->0).id;
    let track = (row_with(l3.tracks, track_uid_key(), Some(m.track_uid))->0).id;
    assert(is_of(l3, m, playlist, track));
    nowhere_before(a, b, name_a, name_b, m);
    not_held_back(b, m);
    assert forall|k: int| #![trigger c[k]]
        0 <= k < c.len() && is_of(l3, c[k], playlist, track) implies c[k] == m by {
        told_once(a, b, name_a, name_b, x, k);
        same_ids_same_uids(l3, c[k], m, playlist, track);
    }
    place_is_made(l3, c, m, playlist, track);
    graves_are_told(b, name_b, m);
    not_told_by_b(b, name_b, m);
    let at = row_has_its_entry(a.playlist_tracks, both_have_uids(a), membership_entry(a), x.at);
    let p = membership_is_news(ma, mb);
    assert(p(m));
    let k = filtered_is_there(ma.memberships, p, at);
    assert(c[k] == m);
}

/// `b` tells of no place that it does not have.
proof fn not_told_by_b(b: LibraryView, name_b: Seq<char>, m: MembershipView)
    requires
        b.wf(),
        plain_uids(b.playlists),
        !crate::sync_laws::has_colon(m.playlist_uid),
        lacks_place(b, m.playlist_uid, m.track_uid),
    ensures
        last_membership(manifest_of(b, name_b).memberships, key_of(m)) is None,
{
    let mb = manifest_of(b, name_b);
    if last_membership(mb.memberships, key_of(m)) is Some {
        let k = last_is_there(mb.memberships, key_of(m));
        let j = entry_has_its_row(b.playlist_tracks, both_have_uids(b), membership_entry(b), k);
        let z = row_is_a_place(b, j);
        place_is_found(b, z);
        pair_names_tell_apart(
            m.playlist_uid,
            m.track_uid,
            mb.memberships[k].playlist_uid,
            mb.memberships[k].track_uid,
        );
        assert(z.is_in(b));
    }
}

/// A track that `b` took out of a playlist after `a` had put it there stays out, whatever
/// `a` tells.
pub proof fn what_was_taken_out_since_stays_out(
    a: LibraryView,
    b: LibraryView,
    name_a: Seq<char>,
    name_b: Seq<char>,
    x: PlaceAt,
)
    requires
        a.wf(),
        b.wf(),
        x.is_in(a),
        room_for(b, news_for(manifest_of(a, name_a), manifest_of(b, name_b))),
        lacks_place(b, a.playlists[x.playlist].uid->0, a.tracks[x.track].uid->0),
        removed_since(
            b,
            a.playlists[x.playlist].uid->0,
            a.tracks[x.track].uid->0,
            a.playlist_tracks[x.at].added_at,
        ),
    ensures
        ({
            let told = news_for(manifest_of(a, name_a), manifest_of(b, name_b));
            let n = joined(b, told).library;
            let p = row_with(n.playlists, playlist_uid_key(), a.playlists[x.playlist].uid);
            let t = row_with(n.tracks, track_uid_key(), a.tracks[x.track].uid);
            p is Some && t is Some ==> row_with(n.playlist_tracks, pair_of(), (p->0.id, t->0.id))
                is None
        }),
{
    let ma = manifest_of(a, name_a);
    let mb = manifest_of(b, name_b);
    let told = news_for(ma, mb);
    let c = told.memberships;
    let l1 = all_taken(b, told.tracks, metadata_taken()).0;
    let l2 = all_taken(l1, told.playlists, playlist_taken()).0;
    let l3 = all_taken(l2, newer_ones(l1, told.playlists), parent_taken()).0;
    let m = membership_entry(a)(a.playlist_tracks[x.at]);
    place_is_found(a, x);
    nothing_else_changes_places(b, told);
    stages_wf(b, told);
    places_keep_tracks(l3, c);
    let p = row_with(l3.playlists, playlist_uid_key(), Some(m.playlist_uid));
    let t = row_with(l3.tracks, track_uid_key(), Some(m.track_uid));
    if p is Some && t is Some {
        let playlist = p->0.id;
        let track = t->0.id;
        assert(is_of(l3, m, playlist, track));
        nowhere_before(a, b, name_a, name_b, m);
        graves_are_told_exactly(b, name_b, m);
        let news = membership_is_news(ma, mb);
        assert forall|k: int| #![trigger c[k]] 0 <= k < c.len() implies !is_of(
            l3,
            c[k],
            playlist,
            track,
        ) by {
            if is_of(l3, c[k], playlist, track) {
                told_once(a, b, name_a, name_b, x, k);
                same_ids_same_uids(l3, c[k], m, playlist, track);
                filter_is_part(ma.memberships, news);
                assert(news(c[k]));
            }
        }
        nothing_is_made(l3, c, playlist, track);
    }
}

proof fn nothing_is_made(l: LibraryView, c: Seq<MembershipView>, playlist: i64, track: i64)
    requires
        stands_nowhere(l.playlist_tracks, playlist, track),
        forall|k: int| #![trigger c[k]] 0 <= k < c.len() ==> !is_of(l, c[k], playlist, track),
    ensures
        stands_nowhere(
            all_taken(l, c, membership_taken()).0.playlist_tracks,
            playlist,
            track,
        ),
        all_taken(l, c, membership_taken()).0.playlists == l.playlists,
        all_taken(l, c, membership_taken()).0.tracks == l.tracks,
    decreases c.len(),
{
    if c.len() > 0 {
        let t = c.drop_last();
        assert forall|k: int| #![trigger t[k]] 0 <= k < t.len() implies !is_of(
            l,
            t[k],
            playlist,
            track,
        ) by {
            assert(t[k] == c[k]);
        }
        nothing_is_made(l, t, playlist, track);
        assert(c[c.len() - 1] == c.last());
        another_pair_changes_nothing(
            all_taken(l, t, membership_taken()).0,
            c.last(),
            playlist,
            track,
        );
    }
}

proof fn graves_are_told_exactly(b: LibraryView, name_b: Seq<char>, m: MembershipView)
    requires
        b.wf(),
        removed_since(b, m.playlist_uid, m.track_uid, m.added_at),
    ensures
        ({
            let d = crate::merge::deleted_at_in(
                manifest_of(b, name_b),
                "playlist_track"@,
                key_of(m),
            );
            d is Some && d->0 >= m.added_at
        }),
{
    let k = ("playlist_track"@, key_of(m));
    let ts = manifest_of(b, name_b).tombstones;
    let h = choose|h: int|
        0 <= h < b.tombstones.len() && (#[trigger] b.tombstones[h]).entity == "playlist_track"@
            && b.tombstones[h].uid == m.playlist_uid + ":"@ + m.track_uid
            && b.tombstones[h].deleted_at >= m.added_at;
    assert(b.tombstones[h].uid == key_of(m));
    let key = crate::manifest::tombstone_entry_key();
    assert(ts[h] == crate::manifest::tombstone_entry()(b.tombstones[h]));
    assert forall|i: int| 0 <= i < h implies !keyed(key, k)(#[trigger] ts[i]) by {
        assert(ts[i] == crate::manifest::tombstone_entry()(b.tombstones[i]));
        assert(tombstone_key()(b.tombstones[i]) != tombstone_key()(b.tombstones[h]));
    }
    first_where_at(ts, keyed(key, k), h);
}

} // verus!
