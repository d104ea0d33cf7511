//! Bringing an older library up to date: places become ranks, every row gets a
//! uid, and what is in a playlist gets a date.

use crate::db::{is_clock_time, is_uid_text, new_uid, now_ms, DbError};
use crate::library::{
    device_sync_key, distinct, distinct_push, distinct_same_keys, distinct_some_same_keys,
    distinct_where_some, pair_of, playlist_id, playlist_uid_key, track_id, track_path_key,
    track_uid_key, Library, LibraryView, PlaylistRow, PlaylistRowView, PlaylistTrackRow,
    PlaylistTrackRowView, TrackRow, TrackRowView,
};
use crate::manifest::{DeviceSync, DeviceSyncView};
use crate::rank::{initial_ranks, ranks_in_row, ranks_in_row_ascend};
use crate::seqs::{take_all, views, views_push, views_update};
use crate::table::{find, first_where_is_first, keyed, row_with};
use crate::text::{before, same};
use vstd::prelude::*;

verus! {

broadcast use vstd::string::group_string_axioms;

// ---------------------------------------------------------------------------
// Places become ranks
// ---------------------------------------------------------------------------

/// A row that had a place among those of its group.
#[derive(Debug, Clone, Copy, PartialEq, Eq, Structural)]
pub struct Slot {
    pub group: Option<i64>,
    pub position: i64,
    pub key: i64,
}

/// `a` comes before `b` in their group: by place, and by key where the place is the
/// same.
pub open spec fn comes_first(a: Slot, b: Slot) -> bool {
    a.group == b.group && (a.position < b.position || (a.position == b.position && a.key < b.key))
}

/// How many slots satisfy `p`.
pub open spec fn how_many(s: Seq<Slot>, p: spec_fn(Slot) -> bool) -> nat
    decreases s.len(),
{
    if s.len() == 0 {
        0
    } else {
        how_many(s.drop_last(), p) + if p(s.last()) {
            1nat
        } else {
            0nat
        }
    }
}

pub open spec fn in_group(x: Slot) -> spec_fn(Slot) -> bool {
    |a: Slot| a.group == x.group
}

pub open spec fn ahead_of(x: Slot) -> spec_fn(Slot) -> bool {
    |a: Slot| comes_first(a, x)
}

/// The rank of a slot: of as many ranks in a row as its group has slots, the one
/// with as many before it as slots come before it.
pub open spec fn slot_rank(s: Seq<Slot>, x: Slot) -> Seq<char> {
    ranks_in_row(how_many(s, in_group(x)))[how_many(s, ahead_of(x)) as int]
}

proof fn more_satisfy(s: Seq<Slot>, p: spec_fn(Slot) -> bool, q: spec_fn(Slot) -> bool)
    requires
        forall|a: Slot| #[trigger] p(a) ==> q(a),
    ensures
        how_many(s, p) <= how_many(s, q) <= s.len(),
    decreases s.len(),
{
    if s.len() > 0 {
        more_satisfy(s.drop_last(), p, q);
    }
}

proof fn one_more_satisfies(
    s: Seq<Slot>,
    p: spec_fn(Slot) -> bool,
    q: spec_fn(Slot) -> bool,
    i: int,
)
    requires
        forall|a: Slot| #[trigger] p(a) ==> q(a),
        0 <= i < s.len(),
        !p(s[i]),
        q(s[i]),
    ensures
        how_many(s, p) < how_many(s, q),
    decreases s.len(),
{
    if i == s.len() - 1 {
        more_satisfy(s.drop_last(), p, q);
    } else {
        assert(s.drop_last()[i] == s[i]);
        one_more_satisfies(s.drop_last(), p, q, i);
    }
}

/// The ranks keep the order that the places gave: of two rows of a group, the one
/// that came first still does.
pub proof fn ranks_keep_the_order(s: Seq<Slot>, i: int, j: int)
    requires
        0 <= i < s.len(),
        0 <= j < s.len(),
        comes_first(s[i], s[j]),
    ensures
        before(slot_rank(s, s[i]), slot_rank(s, s[j])),
{
    let a = s[i];
    let b = s[j];
    assert forall|x: Slot| #[trigger] ahead_of(a)(x) implies ahead_of(b)(x) by {}
    one_more_satisfies(s, ahead_of(a), ahead_of(b), i);
    assert forall|x: Slot| #[trigger] ahead_of(b)(x) implies in_group(b)(x) by {}
    one_more_satisfies(s, ahead_of(b), in_group(b), j);
    assert(in_group(a) =~= in_group(b));
    ranks_in_row_ascend(how_many(s, in_group(b)));
}

fn count_ahead(s: &Vec<Slot>, x: Slot) -> (r: (usize, usize))
    ensures
        r.0 == how_many(s@, in_group(x)),
        r.1 == how_many(s@, ahead_of(x)),
{
    let mut size: usize = 0;
    let mut place: usize = 0;
    proof {
        assert(s@.take(0) =~= Seq::empty());
    }
    for i in 0..s.len()
        invariant
            size <= i,
            place <= i,
            size == how_many(s@.take(i as int), in_group(x)),
            place == how_many(s@.take(i as int), ahead_of(x)),
    {
        let a: Slot = s[i];
        proof {
            assert(s@.take(i + 1).drop_last() =~= s@.take(i as int));
            assert(s@.take(i + 1).last() == a);
        }
        if a.group == x.group {
            size = size + 1;
            if a.position < x.position || (a.position == x.position && a.key < x.key) {
                place = place + 1;
            }
        }
    }
    proof {
        take_all(s@);
    }
    (size, place)
}

/// The ranks of some slots, in their order.
fn ranks_for(s: &Vec<Slot>) -> (r: Vec<String>)
    ensures
        r@.len() == s@.len(),
        forall|i: int| 0 <= i < r@.len() ==> (#[trigger] r@[i])@ == slot_rank(s@, s@[i]),
{
    let mut r: Vec<String> = Vec::new();
    let mut row: Vec<String> = initial_ranks(0);
    let mut have: usize = 0;
    for i in 0..s.len()
        invariant
            r@.len() == i,
            views(row@) == ranks_in_row(have as nat),
            forall|k: int| 0 <= k < r@.len() ==> (#[trigger] r@[k])@ == slot_rank(s@, s@[k]),
    {
        let (size, place): (usize, usize) = count_ahead(s, s[i]);
        if size != have {
            row = initial_ranks(size);
            have = size;
        }
        proof {
            let x = s@[i as int];
            assert forall|y: Slot| #[trigger] ahead_of(x)(y) implies in_group(x)(y) by {}
            one_more_satisfies(s@, ahead_of(x), in_group(x), i as int);
            ranks_in_row_ascend(size as nat);
            assert(views(row@).len() == size);
            assert(views(row@)[place as int] == row@[place as int]@);
        }
        r.push(row[place].clone());
    }
    r
}

pub open spec fn playlist_slot(p: PlaylistRowView, position: i64) -> Slot {
    Slot { group: p.parent_id, position, key: p.id }
}

pub open spec fn playlist_slots(rows: Seq<PlaylistRowView>, positions: Seq<i64>) -> Seq<Slot> {
    Seq::new(rows.len(), |i: int| playlist_slot(rows[i], positions[i]))
}

pub open spec fn member_slot(m: PlaylistTrackRowView, position: i64) -> Slot {
    Slot { group: Some(m.playlist_id), position, key: m.track_id }
}

pub open spec fn member_slots(rows: Seq<PlaylistTrackRowView>, positions: Seq<i64>) -> Seq<Slot> {
    Seq::new(rows.len(), |i: int| member_slot(rows[i], positions[i]))
}

/// The playlists with ranks in place of places.
pub open spec fn playlists_ranked(
    rows: Seq<PlaylistRowView>,
    positions: Seq<i64>,
) -> Seq<PlaylistRowView> {
    let slots = playlist_slots(rows, positions);
    Seq::new(
        rows.len(),
        |i: int| PlaylistRowView { rank: slot_rank(slots, slots[i]), ..rows[i] },
    )
}

/// What is in playlists, with ranks in place of places.
pub open spec fn members_ranked(
    rows: Seq<PlaylistTrackRowView>,
    positions: Seq<i64>,
) -> Seq<PlaylistTrackRowView> {
    let slots = member_slots(rows, positions);
    Seq::new(
        rows.len(),
        |i: int| PlaylistTrackRowView { rank: slot_rank(slots, slots[i]), ..rows[i] },
    )
}

fn rank_playlists(rows: &mut Vec<PlaylistRow>, positions: &Vec<i64>)
    requires
        positions@.len() == old(rows)@.len(),
    ensures
        views(final(rows)@) == playlists_ranked(views(old(rows)@), positions@),
{
    let ghost start = views(rows@);
    let n: usize = rows.len();
    let mut slots: Vec<Slot> = Vec::new();
    for i in 0..n
        invariant
            n == rows@.len(),
            n == positions@.len(),
            start == views(rows@),
            slots@.len() == i,
            forall|k: int|
                0 <= k < i ==> #[trigger] slots@[k] == playlist_slot(start[k], positions@[k]),
    {
        let p: &PlaylistRow = &rows[i];
        proof {
            assert(start[i as int] == p@);
        }
        slots.push(Slot { group: p.parent_id, position: positions[i], key: p.id });
    }
    let ghost all = playlist_slots(start, positions@);
    proof {
        assert(slots@ =~= all);
    }
    let ranks: Vec<String> = ranks_for(&slots);
    for i in 0..n
        invariant
            n == rows@.len(),
            n == ranks@.len(),
            n == start.len(),
            n == all.len(),
            forall|k: int| 0 <= k < n ==> (#[trigger] ranks@[k])@ == slot_rank(all, all[k]),
            forall|k: int|
                0 <= k < n ==> #[trigger] views(rows@)[k] == if k < i {
                    PlaylistRowView { rank: slot_rank(all, all[k]), ..start[k] }
                } else {
                    start[k]
                },
    {
        let ghost before_set = rows@;
        proof {
            assert(views(rows@)[i as int] == rows@[i as int]@);
        }
        rows[i].rank = ranks[i].clone();
        proof {
            views_update(before_set, i as int, rows@[i as int]);
            assert(rows@ =~= before_set.update(i as int, rows@[i as int]));
            assert forall|k: int| 0 <= k < n implies #[trigger] views(rows@)[k] == if k < i + 1 {
                PlaylistRowView { rank: slot_rank(all, all[k]), ..start[k] }
            } else {
                start[k]
            } by {
                if k != i {
                    assert(views(rows@)[k] == views(before_set)[k]);
                }
            }
        }
    }
    proof {
        assert(views(rows@) =~= playlists_ranked(start, positions@));
    }
}

fn rank_members(rows: &mut Vec<PlaylistTrackRow>, positions: &Vec<i64>)
    requires
        positions@.len() == old(rows)@.len(),
    ensures
        views(final(rows)@) == members_ranked(views(old(rows)@), positions@),
{
    let ghost start = views(rows@);
    let n: usize = rows.len();
    let mut slots: Vec<Slot> = Vec::new();
    for i in 0..n
        invariant
            n == rows@.len(),
            n == positions@.len(),
            start == views(rows@),
            slots@.len() == i,
            forall|k: int|
                0 <= k < i ==> #[trigger] slots@[k] == member_slot(start[k], positions@[k]),
    {
        let m: &PlaylistTrackRow = &rows[i];
        proof {
            assert(start[i as int] == m@);
        }
        slots.push(Slot { group: Some(m.playlist_id), position: positions[i], key: m.track_id });
    }
    let ghost all = member_slots(start, positions@);
    proof {
        assert(slots@ =~= all);
    }
    let ranks: Vec<String> = ranks_for(&slots);
    for i in 0..n
        invariant
            n == rows@.len(),
            n == ranks@.len(),
            n == start.len(),
            n == all.len(),
            forall|k: int| 0 <= k < n ==> (#[trigger] ranks@[k])@ == slot_rank(all, all[k]),
            forall|k: int|
                0 <= k < n ==> #[trigger] views(rows@)[k] == if k < i {
                    PlaylistTrackRowView { rank: slot_rank(all, all[k]), ..start[k] }
                } else {
                    start[k]
                },
    {
        let ghost before_set = rows@;
        proof {
            assert(views(rows@)[i as int] == rows@[i as int]@);
        }
        rows[i].rank = ranks[i].clone();
        proof {
            views_update(before_set, i as int, rows@[i as int]);
            assert(rows@ =~= before_set.update(i as int, rows@[i as int]));
            assert forall|k: int| 0 <= k < n implies #[trigger] views(rows@)[k] == if k < i + 1 {
                PlaylistTrackRowView { rank: slot_rank(all, all[k]), ..start[k] }
            } else {
                start[k]
            } by {
                if k != i {
                    assert(views(rows@)[k] == views(before_set)[k]);
                }
            }
        }
    }
    proof {
        assert(views(rows@) =~= members_ranked(start, positions@));
    }
}

// ---------------------------------------------------------------------------
// Every row gets a uid
// ---------------------------------------------------------------------------

/// A track has that uid.
pub open spec fn track_uid_taken(rows: Seq<TrackRowView>, uid: Seq<char>) -> bool {
    exists|i: int| 0 <= i < rows.len() && (#[trigger] rows[i]).uid == Some(uid)
}

/// How far uids have been given.
pub struct Given<A> {
    pub rows: Seq<A>,
    /// How many were used.
    pub used: int,
    /// None was refused for being there already.
    pub ok: bool,
}

/// The tracks once the first `n` of them have uids: each that had none gets the next
/// of `fresh`, until one of these is there already.
pub open spec fn tracks_given(rows: Seq<TrackRowView>, fresh: Seq<Seq<char>>, n: int) -> Given<
    TrackRowView,
>
    decreases n,
{
    if n <= 0 {
        Given { rows, used: 0, ok: true }
    } else {
        let g = tracks_given(rows, fresh, n - 1);
        let t = g.rows[n - 1];
        if !g.ok || t.uid is Some {
            g
        } else if track_uid_taken(g.rows, fresh[g.used]) {
            Given { ok: false, ..g }
        } else {
            Given {
                rows: g.rows.update(n - 1, TrackRowView { uid: Some(fresh[g.used]), ..t }),
                used: g.used + 1,
                ok: true,
            }
        }
    }
}

/// The playlists once the first `n` of them have uids, from `fresh[from]` on.
pub open spec fn playlists_given(
    rows: Seq<PlaylistRowView>,
    fresh: Seq<Seq<char>>,
    from: int,
    n: int,
) -> Given<PlaylistRowView>
    decreases n,
{
    if n <= 0 {
        Given { rows, used: from, ok: true }
    } else {
        let g = playlists_given(rows, fresh, from, n - 1);
        let p = g.rows[n - 1];
        if !g.ok || p.uid is Some {
            g
        } else if crate::tree::playlist_uid_taken(g.rows, fresh[g.used]) {
            Given { ok: false, ..g }
        } else {
            Given {
                rows: g.rows.update(n - 1, PlaylistRowView { uid: Some(fresh[g.used]), ..p }),
                used: g.used + 1,
                ok: true,
            }
        }
    }
}

/// The library once every row has a uid, and whether all went well: first the
/// tracks, then the playlists. What was given before a uid was refused stays.
pub open spec fn uids_given(l: LibraryView, fresh: Seq<Seq<char>>) -> (LibraryView, bool) {
    let t = tracks_given(l.tracks, fresh, l.tracks.len() as int);
    let m = LibraryView { tracks: t.rows, ..l };
    if !t.ok {
        (m, false)
    } else {
        let p = playlists_given(l.playlists, fresh, t.used, l.playlists.len() as int);
        (LibraryView { playlists: p.rows, ..m }, p.ok)
    }
}

proof fn tracks_given_shape(rows: Seq<TrackRowView>, fresh: Seq<Seq<char>>, n: int)
    requires
        0 <= n <= rows.len(),
    ensures
        ({
            let g = tracks_given(rows, fresh, n);
            &&& g.rows.len() == rows.len()
            &&& 0 <= g.used <= n
            &&& forall|i: int|
                0 <= i < rows.len() ==> (#[trigger] g.rows[i]) == (TrackRowView {
                    uid: g.rows[i].uid,
                    ..rows[i]
                })
            &&& forall|i: int|
                0 <= i < rows.len() && rows[i].uid is Some ==> #[trigger] g.rows[i] == rows[i]
            &&& forall|i: int| n <= i < rows.len() ==> #[trigger] g.rows[i] == rows[i]
            &&& g.ok ==> forall|i: int| 0 <= i < n ==> (#[trigger] g.rows[i]).uid is Some
            &&& distinct_where_some(rows, track_uid_key()) ==> distinct_where_some(
                g.rows,
                track_uid_key(),
            )
        }),
    decreases n,
{
    if n > 0 {
        tracks_given_shape(rows, fresh, n - 1);
        let g = tracks_given(rows, fresh, n - 1);
        let t = g.rows[n - 1];
        if g.ok && t.uid is None && !track_uid_taken(g.rows, fresh[g.used]) {
            let x = TrackRowView { uid: Some(fresh[g.used]), ..t };
            let h = g.rows.update(n - 1, x);
            if distinct_where_some(rows, track_uid_key()) {
                assert forall|i: int, j: int|
                    0 <= i < j < h.len() && track_uid_key()(#[trigger] h[i]) is Some implies track_uid_key()(
                    h[i],
                ) != track_uid_key()(#[trigger] h[j]) by {
                    if i == n - 1 {
                        assert(g.rows[j].uid != Some(fresh[g.used]));
                    } else if j == n - 1 {
                        assert(g.rows[i].uid != Some(fresh[g.used]));
                    } else {
                        assert(track_uid_key()(g.rows[i]) is Some);
                    }
                }
            }
        }
    }
}

proof fn playlists_given_shape(
    rows: Seq<PlaylistRowView>,
    fresh: Seq<Seq<char>>,
    from: int,
    n: int,
)
    requires
        0 <= n <= rows.len(),
    ensures
        ({
            let g = playlists_given(rows, fresh, from, n);
            &&& g.rows.len() == rows.len()
            &&& from <= g.used <= from + n
            &&& forall|i: int|
                0 <= i < rows.len() ==> (#[trigger] g.rows[i]) == (PlaylistRowView {
                    uid: g.rows[i].uid,
                    ..rows[i]
                })
            &&& forall|i: int|
                0 <= i < rows.len() && rows[i].uid is Some ==> #[trigger] g.rows[i] == rows[i]
            &&& forall|i: int| n <= i < rows.len() ==> #[trigger] g.rows[i] == rows[i]
            &&& g.ok ==> forall|i: int| 0 <= i < n ==> (#[trigger] g.rows[i]).uid is Some
            &&& distinct_where_some(rows, playlist_uid_key()) ==> distinct_where_some(
                g.rows,
                playlist_uid_key(),
            )
        }),
    decreases n,
{
    if n > 0 {
        playlists_given_shape(rows, fresh, from, n - 1);
        let g = playlists_given(rows, fresh, from, n - 1);
        let t = g.rows[n - 1];
        if g.ok && t.uid is None && !crate::tree::playlist_uid_taken(g.rows, fresh[g.used]) {
            let x = PlaylistRowView { uid: Some(fresh[g.used]), ..t };
            let h = g.rows.update(n - 1, x);
            if distinct_where_some(rows, playlist_uid_key()) {
                assert forall|i: int, j: int|
                    0 <= i < j < h.len() && playlist_uid_key()(#[trigger] h[i]) is Some implies playlist_uid_key()(
                    h[i],
                ) != playlist_uid_key()(#[trigger] h[j]) by {
                    if i == n - 1 {
                        assert(g.rows[j].uid != Some(fresh[g.used]));
                    } else if j == n - 1 {
                        assert(g.rows[i].uid != Some(fresh[g.used]));
                    } else {
                        assert(playlist_uid_key()(g.rows[i]) is Some);
                    }
                }
            }
        }
    }
}

/// A uid that a row has is never changed, and once all went well every row has one.
pub proof fn uids_are_for_life(l: LibraryView, fresh: Seq<Seq<char>>)
    ensures
        ({
            let (m, ok) = uids_given(l, fresh);
            &&& m.tracks.len() == l.tracks.len()
            &&& m.playlists.len() == l.playlists.len()
            &&& forall|i: int|
                0 <= i < l.tracks.len() && l.tracks[i].uid is Some ==> #[trigger] m.tracks[i]
                    == l.tracks[i]
            &&& forall|i: int|
                0 <= i < l.playlists.len() && l.playlists[i].uid is Some ==> #[trigger] m.playlists[i]
                    == l.playlists[i]
            &&& ok ==> forall|i: int|
                0 <= i < l.tracks.len() ==> (#[trigger] m.tracks[i]).uid is Some
            &&& ok ==> forall|i: int|
                0 <= i < l.playlists.len() ==> (#[trigger] m.playlists[i]).uid is Some
        }),
{
    tracks_given_shape(l.tracks, fresh, l.tracks.len() as int);
    let t = tracks_given(l.tracks, fresh, l.tracks.len() as int);
    playlists_given_shape(l.playlists, fresh, t.used, l.playlists.len() as int);
}

/// Where every row has a uid, nothing is given.
proof fn nothing_to_give(l: LibraryView, fresh: Seq<Seq<char>>)
    requires
        forall|i: int| 0 <= i < l.tracks.len() ==> (#[trigger] l.tracks[i]).uid is Some,
        forall|i: int| 0 <= i < l.playlists.len() ==> (#[trigger] l.playlists[i]).uid is Some,
    ensures
        uids_given(l, fresh) == (l, true),
{
    no_tracks_given(l.tracks, fresh, l.tracks.len() as int);
    no_playlists_given(l.playlists, fresh, 0, l.playlists.len() as int);
}

proof fn no_tracks_given(rows: Seq<TrackRowView>, fresh: Seq<Seq<char>>, n: int)
    requires
        0 <= n <= rows.len(),
        forall|i: int| 0 <= i < rows.len() ==> (#[trigger] rows[i]).uid is Some,
    ensures
        tracks_given(rows, fresh, n) == (Given { rows, used: 0, ok: true }),
    decreases n,
{
    if n > 0 {
        no_tracks_given(rows, fresh, n - 1);
    }
}

proof fn no_playlists_given(rows: Seq<PlaylistRowView>, fresh: Seq<Seq<char>>, from: int, n: int)
    requires
        0 <= n <= rows.len(),
        forall|i: int| 0 <= i < rows.len() ==> (#[trigger] rows[i]).uid is Some,
    ensures
        playlists_given(rows, fresh, from, n) == (Given { rows, used: from, ok: true }),
    decreases n,
{
    if n > 0 {
        no_playlists_given(rows, fresh, from, n - 1);
    }
}

proof fn uids_given_wf(l: LibraryView, fresh: Seq<Seq<char>>)
    requires
        l.wf(),
    ensures
        uids_given(l, fresh).0.wf(),
{
    let t = tracks_given(l.tracks, fresh, l.tracks.len() as int);
    let p = playlists_given(l.playlists, fresh, t.used, l.playlists.len() as int);
    let m = uids_given(l, fresh).0;
    tracks_given_shape(l.tracks, fresh, l.tracks.len() as int);
    playlists_given_shape(l.playlists, fresh, t.used, l.playlists.len() as int);
    assert forall|i: int| 0 <= i < l.tracks.len() implies (#[trigger] m.tracks[i]).id
        == l.tracks[i].id && m.tracks[i].path == l.tracks[i].path by {}
    distinct_same_keys(l.tracks, m.tracks, track_id());
    distinct_same_keys(l.tracks, m.tracks, track_path_key());
    same_playlist_ids_wf(l, m);
}

/// The same playlists and tracks by id, and the same parents: what refers to them
/// still leads somewhere.
proof fn same_playlist_ids_wf(l: LibraryView, m: LibraryView)
    requires
        l.wf(),
        m.tracks.len() == l.tracks.len(),
        forall|i: int| 0 <= i < l.tracks.len() ==> (#[trigger] m.tracks[i]).id == l.tracks[i].id,
        m.playlists.len() == l.playlists.len(),
        forall|i: int|
            0 <= i < l.playlists.len() ==> (#[trigger] m.playlists[i]).id == l.playlists[i].id
                && m.playlists[i].parent_id == l.playlists[i].parent_id,
        m.playlist_tracks.len() == l.playlist_tracks.len(),
        forall|i: int|
            0 <= i < l.playlist_tracks.len() ==> (#[trigger] m.playlist_tracks[i]).playlist_id
                == l.playlist_tracks[i].playlist_id && m.playlist_tracks[i].track_id
                == l.playlist_tracks[i].track_id,
    ensures
        distinct(m.playlists, playlist_id()),
        crate::library::parents_exist(m.playlists),
        distinct(m.playlist_tracks, pair_of()),
        crate::library::members_exist(m.playlist_tracks, m.playlists, m.tracks),
{
    distinct_same_keys(l.playlists, m.playlists, playlist_id());
    distinct_same_keys(l.playlist_tracks, m.playlist_tracks, pair_of());
    assert forall|id: i64| #[trigger] crate::library::is_playlist(l.playlists, id) implies crate::library::is_playlist(
        m.playlists,
        id,
    ) by {
        let k = choose|k: int| 0 <= k < l.playlists.len() && (#[trigger] l.playlists[k]).id == id;
        assert(m.playlists[k].id == id);
    }
    assert forall|id: i64| #[trigger] crate::library::is_track(l.tracks, id) implies crate::library::is_track(
        m.tracks,
        id,
    ) by {
        let k = choose|k: int| 0 <= k < l.tracks.len() && (#[trigger] l.tracks[k]).id == id;
        assert(m.tracks[k].id == id);
    }
    assert forall|i: int| 0 <= i < m.playlists.len() && (#[trigger] m.playlists[i]).parent_id is Some implies crate::library::is_playlist(
        m.playlists,
        m.playlists[i].parent_id->0,
    ) by {
        assert(crate::library::is_playlist(l.playlists, l.playlists[i].parent_id->0));
    }
    assert forall|i: int| 0 <= i < m.playlist_tracks.len() implies crate::library::is_playlist(
        m.playlists,
        (#[trigger] m.playlist_tracks[i]).playlist_id,
    ) && crate::library::is_track(m.tracks, m.playlist_tracks[i].track_id) by {
        assert(crate::library::is_playlist(l.playlists, l.playlist_tracks[i].playlist_id));
        assert(crate::library::is_track(l.tracks, l.playlist_tracks[i].track_id));
    }
}

fn give_tracks(rows: &mut Vec<TrackRow>, fresh: &[String]) -> (r: (usize, bool))
    requires
        fresh@.len() >= old(rows)@.len(),
    ensures
        ({
            let g = tracks_given(views(old(rows)@), views(fresh@), old(rows)@.len() as int);
            &&& views(final(rows)@) == g.rows
            &&& r.0 == g.used
            &&& r.1 == g.ok
            &&& final(rows)@.len() == old(rows)@.len()
        }),
{
    let ghost start = views(rows@);
    let ghost f = views(fresh@);
    let n: usize = rows.len();
    let mut used: usize = 0;
    let mut ok: bool = true;
    for i in 0..n
        invariant
            n == rows@.len(),
            n == start.len(),
            n <= fresh@.len(),
            f == views(fresh@),
            start == views(old(rows)@),
            used <= i,
            ({
                let g = tracks_given(start, f, i as int);
                &&& views(rows@) == g.rows
                &&& used == g.used
                &&& ok == g.ok
            }),
    {
        proof {
            assert(views(rows@)[i as int] == rows@[i as int]@);
            assert(f[used as int] == fresh@[used as int]@);
        }
        if ok && rows[i].uid.is_none() {
            if has_track_uid(rows, fresh[used].as_str()) {
                ok = false;
            } else {
                let ghost was = rows@;
                rows[i].uid = Some(fresh[used].clone());
                proof {
                    views_update(was, i as int, rows@[i as int]);
                    assert(rows@ =~= was.update(i as int, rows@[i as int]));
                }
                used = used + 1;
            }
        }
    }
    (used, ok)
}

fn has_track_uid(rows: &Vec<TrackRow>, uid: &str) -> (r: bool)
    ensures
        r == track_uid_taken(views(rows@), uid@),
{
    for i in 0..rows.len()
        invariant
            forall|j: int| 0 <= j < i ==> (#[trigger] views(rows@)[j]).uid != Some(uid@),
    {
        proof {
            assert(views(rows@)[i as int] == rows@[i as int]@);
        }
        if let Some(u) = &rows[i].uid {
            if same(u.as_str(), uid) {
                return true;
            }
        }
    }
    false
}

fn has_playlist_uid(rows: &Vec<PlaylistRow>, uid: &str) -> (r: bool)
    ensures
        r == crate::tree::playlist_uid_taken(views(rows@), uid@),
{
    for i in 0..rows.len()
        invariant
            forall|j: int| 0 <= j < i ==> (#[trigger] views(rows@)[j]).uid != Some(uid@),
    {
        proof {
            assert(views(rows@)[i as int] == rows@[i as int]@);
        }
        if let Some(u) = &rows[i].uid {
            if same(u.as_str(), uid) {
                return true;
            }
        }
    }
    false
}

fn give_playlists(rows: &mut Vec<PlaylistRow>, fresh: &[String], from: usize) -> (r: bool)
    requires
        fresh@.len() >= from + old(rows)@.len(),
    ensures
        ({
            let g = playlists_given(
                views(old(rows)@),
                views(fresh@),
                from as int,
                old(rows)@.len() as int,
            );
            &&& views(final(rows)@) == g.rows
            &&& r == g.ok
            &&& final(rows)@.len() == old(rows)@.len()
        }),
{
    let ghost start = views(rows@);
    let ghost f = views(fresh@);
    let n: usize = rows.len();
    let mut used: usize = from;
    let mut ok: bool = true;
    for i in 0..n
        invariant
            n == rows@.len(),
            n == start.len(),
            from + n <= fresh@.len(),
            f == views(fresh@),
            start == views(old(rows)@),
            from <= used <= from + i,
            ({
                let g = playlists_given(start, f, from as int, i as int);
                &&& views(rows@) == g.rows
                &&& used == g.used
                &&& ok == g.ok
            }),
    {
        proof {
            assert(views(rows@)[i as int] == rows@[i as int]@);
            assert(f[used as int] == fresh@[used as int]@);
        }
        if ok && rows[i].uid.is_none() {
            if has_playlist_uid(rows, fresh[used].as_str()) {
                ok = false;
            } else {
                let ghost was = rows@;
                rows[i].uid = Some(fresh[used].clone());
                proof {
                    views_update(was, i as int, rows@[i as int]);
                    assert(rows@ =~= was.update(i as int, rows@[i as int]));
                }
                used = used + 1;
            }
        }
    }
    ok
}

/// Gives a uid of `fresh` to every row that has none, in the order of the tables.
pub fn assign_uids_from(lib: &mut Library, fresh: &[String]) -> (r: Result<(), DbError>)
    requires
        fresh@.len() >= old(lib)@.tracks.len() + old(lib)@.playlists.len(),
    ensures
        final(lib)@ == uids_given(old(lib)@, views(fresh@)).0,
        r == if uids_given(old(lib)@, views(fresh@)).1 {
            Ok::<(), DbError>(())
        } else {
            Err::<(), DbError>(DbError::Constraint)
        },
        old(lib)@.wf() ==> final(lib)@.wf(),
{
    let ghost l = lib@;
    proof {
        if l.wf() {
            uids_given_wf(l, views(fresh@));
        }
        tracks_given_shape(l.tracks, views(fresh@), l.tracks.len() as int);
    }
    let (used, ok): (usize, bool) = give_tracks(&mut lib.tracks, fresh);
    if !ok {
        return Err(DbError::Constraint);
    }
    if give_playlists(&mut lib.playlists, fresh, used) {
        Ok(())
    } else {
        Err(DbError::Constraint)
    }
}

fn fresh_uids(n: usize) -> (r: Vec<String>)
    ensures
        r@.len() == n,
        forall|i: int| 0 <= i < n ==> is_uid_text((#[trigger] r@[i])@),
{
    let mut r: Vec<String> = Vec::new();
    for i in 0..n
        invariant
            r@.len() == i,
            forall|k: int| 0 <= k < i ==> is_uid_text((#[trigger] r@[k])@),
    {
        r.push(new_uid());
    }
    r
}

/// All of them are uids.
pub open spec fn all_uids(fresh: Seq<Seq<char>>) -> bool {
    forall|i: int| 0 <= i < fresh.len() ==> is_uid_text(#[trigger] fresh[i])
}

/// Gives a uid to every row that has none. It is done at every start, so that a row
/// that came in without one can be synchronised too.
pub fn assign_missing_uids(lib: &mut Library) -> (r: Result<(), DbError>)
    requires
        old(lib)@.tracks.len() + old(lib)@.playlists.len() <= usize::MAX,
    ensures
        exists|fresh: Seq<Seq<char>>|
            #[trigger] all_uids(fresh) && final(lib)@ == uids_given(old(lib)@, fresh).0 && r
                == if uids_given(old(lib)@, fresh).1 {
                Ok::<(), DbError>(())
            } else {
                Err::<(), DbError>(DbError::Constraint)
            },
        old(lib)@.wf() ==> final(lib)@.wf(),
{
    let fresh: Vec<String> = fresh_uids(lib.tracks.len() + lib.playlists.len());
    proof {
        let f = views(fresh@);
        assert forall|i: int| 0 <= i < f.len() implies is_uid_text(#[trigger] f[i]) by {
            assert(f[i] == fresh@[i]@);
        }
        assert(all_uids(f));
    }
    assign_uids_from(lib, fresh.as_slice())
}

// ---------------------------------------------------------------------------
// What an older library holds besides
// ---------------------------------------------------------------------------

/// A row of the table that had the scope of devices and nothing else.
#[derive(Debug)]
pub struct OldScope {
    pub device_uid: String,
    pub mode: String,
    pub updated_at: i64,
}

pub struct OldScopeView {
    pub device_uid: Seq<char>,
    pub mode: Seq<char>,
    pub updated_at: i64,
}

impl View for OldScope {
    type V = OldScopeView;

    open spec fn view(&self) -> OldScopeView {
        OldScopeView {
            device_uid: self.device_uid@,
            mode: self.mode@,
            updated_at: self.updated_at,
        }
    }
}

/// What an older library holds that the present one has no room for.
#[derive(Debug)]
pub struct Legacy {
    /// The places of the playlists, in the order of their table; nothing where they
    /// have ranks already.
    pub playlist_positions: Option<Vec<i64>>,
    /// The same of what is in playlists.
    pub member_positions: Option<Vec<i64>>,
    pub device_scope: Vec<OldScope>,
}

impl Legacy {
    /// Nothing of an older library.
    pub fn none() -> (r: Self)
        ensures
            r.playlist_positions is None,
            r.member_positions is None,
            r.device_scope@.len() == 0,
    {
        Legacy { playlist_positions: None, member_positions: None, device_scope: Vec::new() }
    }
}

/// The rows with those of the older table added of devices that have none.
pub open spec fn scopes_adopted(rows: Seq<DeviceSyncView>, olds: Seq<OldScopeView>) -> Seq<
    DeviceSyncView,
>
    decreases olds.len(),
{
    if olds.len() == 0 {
        rows
    } else {
        let s = scopes_adopted(rows, olds.drop_last());
        let o = olds.last();
        if row_with(s, device_sync_key(), o.device_uid) is Some {
            s
        } else {
            s.push(
                DeviceSyncView {
                    device_uid: o.device_uid,
                    mode: o.mode,
                    direction: "both"@,
                    updated_at: o.updated_at,
                },
            )
        }
    }
}

fn adopt_scopes(rows: &mut Vec<DeviceSync>, olds: &Vec<OldScope>)
    ensures
        views(final(rows)@) == scopes_adopted(views(old(rows)@), views(olds@)),
        distinct(views(old(rows)@), device_sync_key()) ==> distinct(
            views(final(rows)@),
            device_sync_key(),
        ),
{
    let ghost start = views(rows@);
    let ghost all = views(olds@);
    proof {
        assert(all.take(0) =~= Seq::empty());
    }
    for i in 0..olds.len()
        invariant
            start == views(old(rows)@),
            all == views(olds@),
            views(rows@) == scopes_adopted(start, all.take(i as int)),
            distinct(start, device_sync_key()) ==> distinct(views(rows@), device_sync_key()),
    {
        let o: &OldScope = &olds[i];
        proof {
            assert(all.take(i + 1).drop_last() =~= all.take(i as int));
            assert(all.take(i + 1).last() == o@);
        }
        let hit = |d: &DeviceSync| -> (b: bool)
            ensures
                b == (d.device_uid@ == o.device_uid@),
            { same(d.device_uid.as_str(), o.device_uid.as_str()) };
        if find(rows, hit, Ghost(keyed(device_sync_key(), o.device_uid@))).is_none() {
            let d: DeviceSync = DeviceSync {
                device_uid: o.device_uid.clone(),
                mode: o.mode.clone(),
                direction: "both".to_owned(),
                updated_at: o.updated_at,
            };
            proof {
                views_push(rows@, d);
                first_where_is_first(views(rows@), keyed(device_sync_key(), o.device_uid@));
                if distinct(start, device_sync_key()) {
                    let v = views(rows@);
                    assert forall|k: int| 0 <= k < v.len() implies device_sync_key()(
                        #[trigger] v[k],
                    ) != device_sync_key()(d@) by {
                        assert(!keyed(device_sync_key(), o.device_uid@)(v[k]));
                    }
                    distinct_push(v, d@, device_sync_key());
                }
            }
            rows.push(d);
        }
    }
    proof {
        take_all(all);
    }
}

/// What is in playlists without a date gets one: it is there now, so a deletion from
/// before must not take it out.
pub open spec fn dated(rows: Seq<PlaylistTrackRowView>, now: i64) -> Seq<PlaylistTrackRowView> {
    rows.map_values(
        |m: PlaylistTrackRowView|
            if m.added_at == 0 {
                PlaylistTrackRowView { added_at: now, ..m }
            } else {
                m
            },
    )
}

fn date_members(rows: &mut Vec<PlaylistTrackRow>, now: i64)
    ensures
        views(final(rows)@) == dated(views(old(rows)@), now),
{
    let ghost start = views(rows@);
    let n: usize = rows.len();
    for i in 0..n
        invariant
            n == rows@.len(),
            n == start.len(),
            start == views(old(rows)@),
            forall|k: int|
                0 <= k < n ==> #[trigger] views(rows@)[k] == if k < i {
                    dated(start, now)[k]
                } else {
                    start[k]
                },
    {
        let ghost was = rows@;
        proof {
            assert(views(rows@)[i as int] == rows@[i as int]@);
        }
        if rows[i].added_at == 0 {
            rows[i].added_at = now;
            proof {
                views_update(was, i as int, rows@[i as int]);
                assert(rows@ =~= was.update(i as int, rows@[i as int]));
            }
        }
        proof {
            assert forall|k: int| 0 <= k < n implies #[trigger] views(rows@)[k] == if k < i + 1 {
                dated(start, now)[k]
            } else {
                start[k]
            } by {
                if k != i {
                    assert(views(rows@)[k] == views(was)[k]);
                }
            }
        }
    }
    proof {
        assert(views(rows@) =~= dated(start, now));
    }
}

/// The library with ranks in place of places, and with the older rows of devices.
pub open spec fn reshaped(l: LibraryView, old: Legacy) -> LibraryView {
    LibraryView {
        playlists: match old.playlist_positions {
            Some(p) => playlists_ranked(l.playlists, p@),
            None => l.playlists,
        },
        playlist_tracks: match old.member_positions {
            Some(p) => members_ranked(l.playlist_tracks, p@),
            None => l.playlist_tracks,
        },
        device_sync: scopes_adopted(l.device_sync, views(old.device_scope@)),
        ..l
    }
}

/// The library brought up to date at a given moment, and whether all went well.
pub open spec fn migrated(l: LibraryView, old: Legacy, now: i64, fresh: Seq<Seq<char>>) -> (
    LibraryView,
    bool,
) {
    let (m, ok) = uids_given(reshaped(l, old), fresh);
    if ok {
        (LibraryView { playlist_tracks: dated(m.playlist_tracks, now), ..m }, true)
    } else {
        (m, false)
    }
}

/// The places are those of the rows.
pub open spec fn places_fit(l: LibraryView, old: Legacy) -> bool {
    &&& old.playlist_positions is Some ==> old.playlist_positions->0@.len() == l.playlists.len()
    &&& old.member_positions is Some ==> old.member_positions->0@.len() == l.playlist_tracks.len()
}

/// Brings an older library up to date, at a given moment and with given uids.
pub fn migrate_at(lib: &mut Library, old_parts: &Legacy, now: i64, fresh: &[String]) -> (r: Result<
    (),
    DbError,
>)
    requires
        places_fit(old(lib)@, *old_parts),
        fresh@.len() >= old(lib)@.tracks.len() + old(lib)@.playlists.len(),
    ensures
        final(lib)@ == migrated(old(lib)@, *old_parts, now, views(fresh@)).0,
        r == if migrated(old(lib)@, *old_parts, now, views(fresh@)).1 {
            Ok::<(), DbError>(())
        } else {
            Err::<(), DbError>(DbError::Constraint)
        },
        old(lib)@.wf() ==> final(lib)@.wf(),
{
    let ghost l = lib@;
    if let Some(p) = &old_parts.playlist_positions {
        rank_playlists(&mut lib.playlists, p);
    }
    if let Some(p) = &old_parts.member_positions {
        rank_members(&mut lib.playlist_tracks, p);
    }
    adopt_scopes(&mut lib.device_sync, &old_parts.device_scope);
    let ghost m = lib@;
    proof {
        assert(m == reshaped(l, *old_parts));
        if l.wf() {
            same_playlist_ids_wf(l, m);
            distinct_some_same_keys(l.playlists, m.playlists, playlist_uid_key());
        }
        tracks_given_shape(m.tracks, views(fresh@), m.tracks.len() as int);
    }
    match assign_uids_from(lib, fresh) {
        Ok(()) => {},
        Err(e) => {
            return Err(e);
        },
    }
    let ghost u = lib@;
    date_members(&mut lib.playlist_tracks, now);
    proof {
        if l.wf() {
            same_playlist_ids_wf(u, lib@);
        }
    }
    Ok(())
}

/// Brings an older library up to date.
pub fn migrate(lib: &mut Library, old_parts: &Legacy) -> (r: Result<(), DbError>)
    requires
        places_fit(old(lib)@, *old_parts),
        old(lib)@.tracks.len() + old(lib)@.playlists.len() <= usize::MAX,
    ensures
        exists|fresh: Seq<Seq<char>>, now: i64|
            all_uids(fresh) && is_clock_time(now) && final(lib)@ == (#[trigger] migrated(
                old(lib)@,
                *old_parts,
                now,
                fresh,
            )).0 && r == if migrated(old(lib)@, *old_parts, now, fresh).1 {
                Ok::<(), DbError>(())
            } else {
                Err::<(), DbError>(DbError::Constraint)
            },
        old(lib)@.wf() ==> final(lib)@.wf(),
{
    let fresh: Vec<String> = fresh_uids(lib.tracks.len() + lib.playlists.len());
    proof {
        let f = views(fresh@);
        assert forall|i: int| 0 <= i < f.len() implies is_uid_text(#[trigger] f[i]) by {
            assert(f[i] == fresh@[i]@);
        }
        assert(all_uids(f));
    }
    let now: i64 = now_ms();
    migrate_at(lib, old_parts, now, fresh.as_slice())
}

/// A library that was brought up to date is left as it is the next time.
pub proof fn migrating_again_changes_nothing(
    l: LibraryView,
    old: Legacy,
    now: i64,
    fresh: Seq<Seq<char>>,
    none: Legacy,
    later: i64,
    other: Seq<Seq<char>>,
)
    requires
        places_fit(l, old),
        now != 0,
        migrated(l, old, now, fresh).1,
        none.playlist_positions is None,
        none.member_positions is None,
        none.device_scope@.len() == 0,
    ensures
        migrated(migrated(l, old, now, fresh).0, none, later, other) == (
            migrated(l, old, now, fresh).0,
            true,
        ),
{
    let r = reshaped(l, old);
    let m = migrated(l, old, now, fresh).0;
    uids_are_for_life(r, fresh);
    assert(views(none.device_scope@) =~= Seq::empty());
    assert(reshaped(m, none) == m);
    nothing_to_give(m, other);
    assert(dated(m.playlist_tracks, later) =~= m.playlist_tracks);
}

} // verus!
