//! The tree of playlists and folders.

use crate::db::{
    all_recorded, is_clock_time, is_uid_text, new_uid, now_ms, record_all, recording_keeps_the_rest,
};
use crate::db::DbError;
use crate::graph::{closed_set_holds_all, next_is_reached, reaches, root_is_reached};
use crate::library::{
    distinct_filter, distinct_push, distinct_same_keys, distinct_some_filter, distinct_some_push,
    distinct_some_same_keys, filter_is_part, is_playlist, is_track, pair_of, playlist_id,
    playlist_uid_key, Library, LibraryView, PlaylistRow, PlaylistRowView, PlaylistTrackRow,
    PlaylistTrackRowView, TrackRow, TrackRowView,
};
use crate::rank::{between, rank_at, rank_between, rank_for};
use crate::seqs::{count, filter_step, take_all, take_none_filter, views, views_push};
use crate::table::{find, first_where_is_first, keyed, ordered, retain, row_with, sort};
use crate::text::{before, copy_opt, is_before, opt_view, same};
use vstd::prelude::*;

verus! {

broadcast use vstd::string::group_string_axioms;

// ---------------------------------------------------------------------------
// Rows
// ---------------------------------------------------------------------------

/// The uid of a playlist, where it exists and has one.
pub open spec fn playlist_uid_of(l: LibraryView, id: i64) -> Option<Seq<char>> {
    match row_with(l.playlists, playlist_id(), id) {
        Some(p) => p.uid,
        None => None,
    }
}

pub(crate) fn find_playlist(playlists: &Vec<PlaylistRow>, id: i64) -> (r: Option<usize>)
    ensures
        match r {
            Some(i) => i < playlists@.len() && playlists@[i as int].id == id
                && crate::table::first_where(views(playlists@), keyed(playlist_id(), id)) == Some(
                i as int,
            ),
            None => row_with(views(playlists@), playlist_id(), id) is None && !is_playlist(
                views(playlists@),
                id,
            ),
        },
{
    let hit = |p: &PlaylistRow| -> (b: bool)
        ensures
            b == (p.id == id),
        { p.id == id };
    let r: Option<usize> = find(playlists, hit, Ghost(keyed(playlist_id(), id)));
    proof {
        first_where_is_first(views(playlists@), keyed(playlist_id(), id));
        if r is None {
            assert forall|i: int| 0 <= i < playlists@.len() implies (#[trigger] views(
                playlists@,
            )[i]).id != id by {
                assert(!keyed(playlist_id(), id)(views(playlists@)[i]));
            }
        }
    }
    r
}

/// The uid of a playlist.
pub fn playlist_uid(lib: &Library, id: i64) -> (r: Option<String>)
    ensures
        opt_view(r) == playlist_uid_of(lib@, id),
{
    match find_playlist(&lib.playlists, id) {
        Some(i) => copy_opt(&lib.playlists[i].uid),
        None => None,
    }
}

/// The playlists with one of them marked as changed at `now`.
pub open spec fn touched(
    playlists: Seq<PlaylistRowView>,
    id: i64,
    now: i64,
) -> Seq<PlaylistRowView> {
    playlists.map_values(
        |p: PlaylistRowView|
            if p.id == id {
                PlaylistRowView { updated_at: now, ..p }
            } else {
                p
            },
    )
}

/// Marks a playlist as changed. Memberships have no clock of their own: this is
/// the one that decides whose order is the newer.
pub(crate) fn touch_playlist(playlists: &mut Vec<PlaylistRow>, id: i64, now: i64)
    ensures
        views(final(playlists)@) == touched(views(old(playlists)@), id, now),
{
    let ghost all = views(playlists@);
    let ghost goal = touched(all, id, now);
    let n: usize = playlists.len();
    for i in 0..n
        invariant
            n == all.len(),
            playlists@.len() == n,
            goal == touched(all, id, now),
            forall|j: int| 0 <= j < i ==> (#[trigger] playlists@[j])@ == goal[j],
            forall|j: int| i <= j < all.len() ==> (#[trigger] playlists@[j])@ == all[j],
    {
        if playlists[i].id == id {
            playlists[i].updated_at = now;
        }
    }
    proof {
        assert(views(playlists@) =~= goal);
    }
}

/// Changes that keep every id, uid and parent keep the tables well formed.
pub(crate) proof fn same_shape_wf(l: LibraryView, playlists: Seq<PlaylistRowView>)
    requires
        l.wf(),
        playlists.len() == l.playlists.len(),
        forall|i: int|
            0 <= i < playlists.len() ==> (#[trigger] playlists[i]).id == l.playlists[i].id
                && playlists[i].uid == l.playlists[i].uid && (playlists[i].parent_id
                == l.playlists[i].parent_id || playlists[i].parent_id is None || is_playlist(
                l.playlists,
                playlists[i].parent_id->0,
            )),
    ensures
        (LibraryView { playlists, ..l }).wf(),
{
    distinct_same_keys(l.playlists, playlists, playlist_id());
    distinct_some_same_keys(l.playlists, playlists, playlist_uid_key());
    assert forall|id: i64| is_playlist(l.playlists, id) implies is_playlist(playlists, id) by {
        let k = choose|k: int| 0 <= k < l.playlists.len() && (#[trigger] l.playlists[k]).id == id;
        assert(playlists[k].id == id);
    }
    assert forall|i: int| 0 <= i < playlists.len() && (
    #[trigger] playlists[i]).parent_id is Some implies is_playlist(
        playlists,
        playlists[i].parent_id->0,
    ) by {
        if playlists[i].parent_id == l.playlists[i].parent_id {
            assert(is_playlist(l.playlists, l.playlists[i].parent_id->0));
        }
    }
    assert forall|i: int| 0 <= i < l.playlist_tracks.len() implies is_playlist(
        playlists,
        (#[trigger] l.playlist_tracks[i]).playlist_id,
    ) && is_track(l.tracks, l.playlist_tracks[i].track_id) by {
        assert(is_playlist(l.playlists, l.playlist_tracks[i].playlist_id));
    }
}

pub(crate) proof fn touched_wf(l: LibraryView, id: i64, now: i64)
    requires
        l.wf(),
    ensures
        (LibraryView { playlists: touched(l.playlists, id, now), ..l }).wf(),
{
    same_shape_wf(l, touched(l.playlists, id, now));
}

// ---------------------------------------------------------------------------
// Order among siblings
// ---------------------------------------------------------------------------

pub open spec fn is_child_of(parent: Option<i64>) -> spec_fn(PlaylistRowView) -> bool {
    |p: PlaylistRowView| p.parent_id == parent
}

pub open spec fn rank_before() -> spec_fn(Seq<char>, Seq<char>) -> bool {
    |a: Seq<char>, b: Seq<char>| before(a, b)
}

/// The ranks of the children of `parent`, but for the node `but`, in order.
pub open spec fn ranks_of_children(
    playlists: Seq<PlaylistRowView>,
    parent: Option<i64>,
    but: Option<i64>,
) -> Seq<Seq<char>> {
    ordered(
        playlists.filter(
            |p: PlaylistRowView| p.parent_id == parent && Some(p.id) != but,
        ).map_values(|p: PlaylistRowView| p.rank),
        rank_before(),
    )
}

/// The ranks of the children of `parent`, but for one of them, in order.
pub fn sibling_ranks(lib: &Library, parent: Option<i64>, exclude: Option<i64>) -> (r: Vec<String>)
    ensures
        views(r@) == ranks_of_children(lib@.playlists, parent, exclude),
{
    let ghost all = lib@.playlists;
    let ghost p = |p: PlaylistRowView| p.parent_id == parent && Some(p.id) != exclude;
    let ghost f = |p: PlaylistRowView| p.rank;
    let mut r: Vec<String> = Vec::new();
    proof {
        take_none_filter(all, p);
        assert(views(r@) =~= all.take(0).filter(p).map_values(f));
    }
    for i in 0..lib.playlists.len()
        invariant
            all == lib@.playlists,
            p == (|p: PlaylistRowView| p.parent_id == parent && Some(p.id) != exclude),
            f == (|p: PlaylistRowView| p.rank),
            views(r@) == all.take(i as int).filter(p).map_values(f),
    {
        let row: &PlaylistRow = &lib.playlists[i];
        let ghost kept = all.take(i as int).filter(p);
        proof {
            filter_step(all, p, i as int);
            assert(all[i as int] == row@);
        }
        let out: bool = match exclude {
            Some(x) => x == row.id,
            None => false,
        };
        if same_id(row.parent_id, parent) && !out {
            let rank: String = row.rank.clone();
            proof {
                views_push(r@, rank);
                assert(kept.push(row@).map_values(f) =~= kept.map_values(f).push(rank@));
            }
            r.push(rank);
        }
    }
    proof {
        take_all(all);
    }
    let lt = |a: &String, b: &String| -> (c: bool)
        ensures
            c == before(a@, b@),
        { is_before(a.as_str(), b.as_str()) };
    sort(r, lt, Ghost(rank_before()))
}

/// Whether two optional ids are the same.
pub(crate) fn same_id(a: Option<i64>, b: Option<i64>) -> (r: bool)
    ensures
        r == (a == b),
{
    match (a, b) {
        (Some(x), Some(y)) => x == y,
        (None, None) => true,
        _ => false,
    }
}

/// The last of some texts in their order.
pub open spec fn greatest(s: Seq<Seq<char>>) -> Option<Seq<char>>
    decreases s.len(),
{
    if s.len() == 0 {
        None
    } else {
        match greatest(s.drop_last()) {
            Some(g) => if before(g, s.last()) {
                Some(s.last())
            } else {
                Some(g)
            },
            None => Some(s.last()),
        }
    }
}

/// No text of the sequence comes after the greatest, which is one of them.
pub proof fn greatest_is_greatest(s: Seq<Seq<char>>)
    ensures
        greatest(s) is None <==> s.len() == 0,
        greatest(s) is Some ==> s.contains(greatest(s)->0) && forall|i: int|
            0 <= i < s.len() ==> !before(greatest(s)->0, #[trigger] s[i]),
    decreases s.len(),
{
    if s.len() > 0 {
        let t = s.drop_last();
        greatest_is_greatest(t);
        crate::text::before_irreflexive(s.last());
        assert(s[s.len() - 1] == s.last());
        if t.len() > 0 {
            let g = greatest(t)->0;
            let k = choose|k: int| 0 <= k < t.len() && t[k] == g;
            assert(s[k] == g);
            assert forall|i: int| 0 <= i < s.len() implies !before(greatest(s)->0, #[trigger] s[i]) by {
                if i < t.len() {
                    assert(t[i] == s[i]);
                    assert(!before(g, t[i]));
                    if before(g, s.last()) && before(s.last(), s[i]) {
                        crate::text::before_transitive(g, s.last(), s[i]);
                    }
                }
            }
        }
    }
}

/// The highest rank among the children of `parent`.
pub open spec fn last_rank(playlists: Seq<PlaylistRowView>, parent: Option<i64>) -> Option<Seq<char>> {
    greatest(playlists.filter(is_child_of(parent)).map_values(|p: PlaylistRowView| p.rank))
}

fn highest_rank(playlists: &Vec<PlaylistRow>, parent: Option<i64>) -> (r: Option<String>)
    ensures
        opt_view(r) == last_rank(views(playlists@), parent),
{
    let ghost all = views(playlists@);
    let ghost p = is_child_of(parent);
    let ghost f = |p: PlaylistRowView| p.rank;
    let mut best: Option<String> = None;
    proof {
        take_none_filter(all, p);
        assert(all.take(0).filter(p).map_values(f) =~= Seq::empty());
    }
    for i in 0..playlists.len()
        invariant
            all == views(playlists@),
            p == is_child_of(parent),
            f == (|p: PlaylistRowView| p.rank),
            opt_view(best) == greatest(all.take(i as int).filter(p).map_values(f)),
    {
        let row: &PlaylistRow = &playlists[i];
        let ghost kept = all.take(i as int).filter(p);
        proof {
            filter_step(all, p, i as int);
            assert(all[i as int] == row@);
        }
        if same_id(row.parent_id, parent) {
            proof {
                assert(kept.push(row@).map_values(f) =~= kept.map_values(f).push(row.rank@));
                assert(kept.map_values(f).push(row.rank@).drop_last() =~= kept.map_values(f));
            }
            let higher: bool = match &best {
                Some(b) => is_before(b.as_str(), row.rank.as_str()),
                None => true,
            };
            if higher {
                best = Some(row.rank.clone());
            }
        }
    }
    proof {
        take_all(all);
    }
    best
}

// ---------------------------------------------------------------------------
// Creating and renaming
// ---------------------------------------------------------------------------

/// The id that the next playlist gets: one more than the highest.
pub open spec fn next_playlist_id(playlists: Seq<PlaylistRowView>) -> int
    decreases playlists.len(),
{
    if playlists.len() == 0 {
        1
    } else if playlists.len() == 1 {
        playlists[0].id + 1
    } else {
        let n = next_playlist_id(playlists.drop_last());
        if playlists.last().id >= n {
            playlists.last().id + 1
        } else {
            n
        }
    }
}

pub(crate) proof fn next_playlist_id_is_new(playlists: Seq<PlaylistRowView>)
    ensures
        forall|i: int| 0 <= i < playlists.len() ==> (#[trigger] playlists[i]).id < next_playlist_id(
            playlists,
        ),
    decreases playlists.len(),
{
    if playlists.len() > 1 {
        next_playlist_id_is_new(playlists.drop_last());
        assert forall|i: int| 0 <= i < playlists.len() implies (#[trigger] playlists[i]).id
            < next_playlist_id(playlists) by {
            if i < playlists.len() - 1 {
                assert(playlists.drop_last()[i] == playlists[i]);
            }
        }
    }
}

/// There is an id left for one more playlist.
pub open spec fn room_for_playlist(l: LibraryView) -> bool {
    next_playlist_id(l.playlists) <= i64::MAX
}

pub(crate) fn free_playlist_id(playlists: &Vec<PlaylistRow>) -> (r: i64)
    requires
        next_playlist_id(views(playlists@)) <= i64::MAX,
    ensures
        r == next_playlist_id(views(playlists@)),
{
    if playlists.len() == 0 {
        return 1;
    }
    let ghost all = views(playlists@);
    let mut top: i64 = playlists[0].id;
    proof {
        assert(all.take(1).len() == 1);
        next_playlist_id_is_new(all);
    }
    for i in 1..playlists.len()
        invariant
            all == views(playlists@),
            top + 1 == next_playlist_id(all.take(i as int)),
            i >= 1,
    {
        proof {
            assert(all.take(i + 1).drop_last() =~= all.take(i as int));
            assert(all.take(i + 1).last() == playlists@[i as int]@);
        }
        if playlists[i].id > top {
            top = playlists[i].id;
        }
    }
    proof {
        take_all(all);
    }
    top + 1
}

/// The row of a new playlist or folder: last among its siblings.
pub open spec fn new_playlist(
    l: LibraryView,
    name: Seq<char>,
    kind: Seq<char>,
    parent: Option<i64>,
    uid: Seq<char>,
    now: i64,
) -> PlaylistRowView {
    PlaylistRowView {
        id: next_playlist_id(l.playlists) as i64,
        name,
        kind,
        parent_id: parent,
        rank: rank_between(last_rank(l.playlists, parent), None),
        uid: Some(uid),
        updated_at: now,
    }
}

/// Some playlist has that uid.
pub open spec fn playlist_uid_taken(playlists: Seq<PlaylistRowView>, uid: Seq<char>) -> bool {
    exists|i: int| 0 <= i < playlists.len() && (#[trigger] playlists[i]).uid == Some(uid)
}

/// A playlist can be created there, under that uid.
pub open spec fn can_create(l: LibraryView, parent: Option<i64>, uid: Seq<char>) -> bool {
    &&& parent is Some ==> is_playlist(l.playlists, parent->0)
    &&& !playlist_uid_taken(l.playlists, uid)
}

pub(crate) proof fn added_playlist_wf(l: LibraryView, row: PlaylistRowView)
    requires
        l.wf(),
        row.id == next_playlist_id(l.playlists),
        row.parent_id is Some ==> is_playlist(l.playlists, row.parent_id->0),
        row.uid is Some ==> !playlist_uid_taken(l.playlists, row.uid->0),
    ensures
        (LibraryView { playlists: l.playlists.push(row), ..l }).wf(),
{
    let ps = l.playlists.push(row);
    next_playlist_id_is_new(l.playlists);
    distinct_push(l.playlists, row, playlist_id());
    assert forall|i: int| 0 <= i < l.playlists.len() && row.uid is Some implies playlist_uid_key()(
        #[trigger] l.playlists[i],
    ) != playlist_uid_key()(row) by {}
    distinct_some_push(l.playlists, row, playlist_uid_key());
    assert forall|id: i64| is_playlist(l.playlists, id) implies is_playlist(ps, id) by {
        let k = choose|k: int| 0 <= k < l.playlists.len() && (#[trigger] l.playlists[k]).id == id;
        assert(ps[k].id == id);
    }
    assert forall|i: int| 0 <= i < ps.len() && (#[trigger] ps[i]).parent_id is Some implies is_playlist(
        ps,
        ps[i].parent_id->0,
    ) by {
        if i < l.playlists.len() {
            assert(ps[i] == l.playlists[i]);
            assert(is_playlist(l.playlists, l.playlists[i].parent_id->0));
        }
    }
    assert forall|i: int| 0 <= i < l.playlist_tracks.len() implies is_playlist(
        ps,
        (#[trigger] l.playlist_tracks[i]).playlist_id,
    ) && is_track(l.tracks, l.playlist_tracks[i].track_id) by {
        assert(is_playlist(l.playlists, l.playlist_tracks[i].playlist_id));
    }
}

pub(crate) fn find_playlist_uid(playlists: &Vec<PlaylistRow>, uid: &str) -> (r: Option<usize>)
    ensures
        match r {
            Some(i) => i < playlists@.len() && playlists@[i as int]@.uid == Some(uid@)
                && crate::table::first_where(
                views(playlists@),
                keyed(playlist_uid_key(), Some(uid@)),
            ) == Some(i as int) && playlist_uid_taken(views(playlists@), uid@),
            None => !playlist_uid_taken(views(playlists@), uid@) && row_with(
                views(playlists@),
                playlist_uid_key(),
                Some(uid@),
            ) is None,
        },
{
    let hit = |p: &PlaylistRow| -> (b: bool)
        ensures
            b == (opt_view(p.uid) == Some(uid@)),
        {
            match &p.uid {
                Some(u) => same(u.as_str(), uid),
                None => false,
            }
        };
    let ghost k = keyed(playlist_uid_key(), Some(uid@));
    let r: Option<usize> = find(playlists, hit, Ghost(k));
    proof {
        first_where_is_first(views(playlists@), k);
        match r {
            Some(i) => {
                assert(views(playlists@)[i as int].uid == Some(uid@));
            },
            None => {
                assert forall|i: int| 0 <= i < playlists@.len() implies (#[trigger] views(
                    playlists@,
                )[i]).uid != Some(uid@) by {
                    assert(!k(views(playlists@)[i]));
                }
            },
        }
    }
    r
}

/// Creates a playlist or a folder, last among its siblings, with a given uid and
/// at a given moment. Refused where the parent does not exist or the uid is taken.
pub fn create_playlist_at(
    lib: &mut Library,
    name: &str,
    kind: &str,
    parent_id: Option<i64>,
    uid: &str,
    now: i64,
) -> (r: Result<i64, DbError>)
    requires
        room_for_playlist(old(lib)@),
    ensures
        r is Ok <==> can_create(old(lib)@, parent_id, uid@),
        r is Ok ==> r->Ok_0 == next_playlist_id(old(lib)@.playlists) && final(lib)@ == (LibraryView {
            playlists: old(lib)@.playlists.push(
                new_playlist(old(lib)@, name@, kind@, parent_id, uid@, now),
            ),
            ..old(lib)@
        }),
        r is Err ==> r->Err_0 == DbError::Constraint && final(lib)@ == old(lib)@,
        old(lib)@.wf() ==> final(lib)@.wf(),
{
    if let Some(p) = parent_id {
        if find_playlist(&lib.playlists, p).is_none() {
            return Err(DbError::Constraint);
        }
        proof {
            first_where_is_first(lib@.playlists, keyed(playlist_id(), p));
            assert(is_playlist(lib@.playlists, p));
        }
    }
    if find_playlist_uid(&lib.playlists, uid).is_some() {
        return Err(DbError::Constraint);
    }
    let last: Option<String> = highest_rank(&lib.playlists, parent_id);
    let prev: Option<&str> = match &last {
        Some(s) => Some(s.as_str()),
        None => None,
    };
    let rank: String = between(prev, None);
    let id: i64 = free_playlist_id(&lib.playlists);
    let row: PlaylistRow = PlaylistRow {
        id,
        name: name.to_owned(),
        kind: kind.to_owned(),
        parent_id,
        rank,
        uid: Some(uid.to_owned()),
        updated_at: now,
    };
    proof {
        views_push(lib.playlists@, row);
        if lib@.wf() {
            added_playlist_wf(lib@, row@);
        }
        assert(row@ == new_playlist(lib@, name@, kind@, parent_id, uid@, now));
    }
    lib.playlists.push(row);
    Ok(id)
}

/// Creates a playlist or a folder, last among its siblings.
pub fn create_playlist(
    lib: &mut Library,
    name: &str,
    kind: &str,
    parent_id: Option<i64>,
) -> (r: Result<i64, DbError>)
    requires
        room_for_playlist(old(lib)@),
    ensures
        exists|uid: Seq<char>, now: i64|
            is_clock_time(now) && is_uid_text(uid) && (r is Ok <==> can_create(
                old(lib)@,
                parent_id,
                uid,
            )) && (r is Ok ==> r->Ok_0
                == next_playlist_id(old(lib)@.playlists) && final(lib)@ == (LibraryView {
                playlists: old(lib)@.playlists.push(
                    #[trigger] new_playlist(old(lib)@, name@, kind@, parent_id, uid, now),
                ),
                ..old(lib)@
            })),
        r is Err ==> r->Err_0 == DbError::Constraint && final(lib)@ == old(lib)@,
        parent_id is Some && !is_playlist(old(lib)@.playlists, parent_id->0) ==> r is Err,
        old(lib)@.wf() ==> final(lib)@.wf(),
{
    let uid: String = new_uid();
    let now: i64 = now_ms();
    let r: Result<i64, DbError> = create_playlist_at(lib, name, kind, parent_id, uid.as_str(), now);
    proof {
        let row = new_playlist(old(lib)@, name@, kind@, parent_id, uid@, now);
    }
    r
}

/// The playlists with one of them renamed.
pub open spec fn renamed(
    playlists: Seq<PlaylistRowView>,
    id: i64,
    name: Seq<char>,
    now: i64,
) -> Seq<PlaylistRowView> {
    playlists.map_values(
        |p: PlaylistRowView|
            if p.id == id {
                PlaylistRowView { name, updated_at: now, ..p }
            } else {
                p
            },
    )
}

fn rename_in(playlists: &mut Vec<PlaylistRow>, id: i64, name: &str, now: i64)
    ensures
        views(final(playlists)@) == renamed(views(old(playlists)@), id, name@, now),
{
    let ghost all = views(playlists@);
    let ghost goal = renamed(all, id, name@, now);
    let n: usize = playlists.len();
    for i in 0..n
        invariant
            n == all.len(),
            playlists@.len() == n,
            goal == renamed(all, id, name@, now),
            forall|j: int| 0 <= j < i ==> (#[trigger] playlists@[j])@ == goal[j],
            forall|j: int| i <= j < all.len() ==> (#[trigger] playlists@[j])@ == all[j],
    {
        if playlists[i].id == id {
            playlists[i].name = name.to_owned();
            playlists[i].updated_at = now;
        }
    }
    proof {
        assert(views(playlists@) =~= goal);
    }
}

/// Renames a playlist or folder at a given moment.
pub fn rename_playlist_at(lib: &mut Library, id: i64, name: &str, now: i64)
    ensures
        final(lib)@ == (LibraryView {
            playlists: renamed(old(lib)@.playlists, id, name@, now),
            ..old(lib)@
        }),
        old(lib)@.wf() ==> final(lib)@.wf(),
{
    proof {
        if lib@.wf() {
            same_shape_wf(lib@, renamed(lib@.playlists, id, name@, now));
        }
    }
    rename_in(&mut lib.playlists, id, name, now);
}

/// Renames a playlist or folder.
pub fn rename_playlist(lib: &mut Library, id: i64, name: &str)
    ensures
        exists|now: i64|
            is_clock_time(now) && final(lib)@ == (LibraryView {
                playlists: #[trigger] renamed(old(lib)@.playlists, id, name@, now),
                ..old(lib)@
            }),
        old(lib)@.wf() ==> final(lib)@.wf(),
{
    let now: i64 = now_ms();
    rename_playlist_at(lib, id, name, now);
}

// ---------------------------------------------------------------------------
// Subtrees
// ---------------------------------------------------------------------------

/// `b` is directly inside `a`.
pub open spec fn contains_directly(playlists: Seq<PlaylistRowView>) -> spec_fn(i64, i64) -> bool {
    |a: i64, b: i64|
        exists|i: int|
            0 <= i < playlists.len() && (#[trigger] playlists[i]).id == b && playlists[i].parent_id
                == Some(a)
}

/// `b` is `a`, or lies somewhere inside it.
pub open spec fn holds(playlists: Seq<PlaylistRowView>, a: i64, b: i64) -> bool {
    reaches(contains_directly(playlists), set![a], b)
}

pub(crate) fn has_id(ids: &[i64], id: i64) -> (r: bool)
    ensures
        r == ids@.contains(id),
{
    for i in 0..ids.len()
        invariant
            forall|j: int| 0 <= j < i ==> ids@[j] != id,
    {
        if ids[i] == id {
            return true;
        }
    }
    false
}

/// The node and all that hangs from it.
pub(crate) fn subtree(playlists: &Vec<PlaylistRow>, root: i64) -> (r: Vec<i64>)
    ensures
        forall|x: i64| #[trigger] r@.contains(x) <==> holds(views(playlists@), root, x),
{
    let ghost v = views(playlists@);
    let ghost edge = contains_directly(v);
    let ghost roots: Set<i64> = set![root];
    let ghost nodes = roots.union(v.map_values(|p: PlaylistRowView| p.id).to_set());
    let mut stack: Vec<i64> = Vec::new();
    stack.push(root);
    let mut out: Vec<i64> = Vec::new();
    proof {
        vstd::seq_lib::seq_to_set_is_finite(v.map_values(|p: PlaylistRowView| p.id));
        root_is_reached(edge, roots, root);
        assert(stack@[0] == root);
    }
    while stack.len() > 0
        invariant
            v == views(playlists@),
            edge == contains_directly(v),
            roots == set![root],
            nodes == roots.union(v.map_values(|p: PlaylistRowView| p.id).to_set()),
            nodes.finite(),
            forall|x: i64| #[trigger] out@.contains(x) ==> nodes.contains(x) && reaches(edge, roots, x),
            forall|j: int|
                0 <= j < stack@.len() ==> nodes.contains(#[trigger] stack@[j]) && reaches(
                    edge,
                    roots,
                    stack@[j],
                ),
            out@.contains(root) || stack@.contains(root),
            forall|a: i64, b: i64|
                out@.contains(a) && #[trigger] edge(a, b) ==> out@.contains(b) || stack@.contains(b),
        decreases nodes.difference(out@.to_set()).len(), stack@.len(),
    {
        let ghost stack0 = stack@;
        let ghost out0 = out@;
        let id: i64 = match stack.pop() {
            Some(x) => x,
            None => root,
        };
        let ghost stack1 = stack@;
        proof {
            assert(stack1 =~= stack0.drop_last());
            assert(stack0.last() == id);
            assert(nodes.contains(stack0[stack0.len() - 1]));
            assert forall|x: i64| stack0.contains(x) implies x == id || stack1.contains(x) by {
                let j = choose|j: int| 0 <= j < stack0.len() && stack0[j] == x;
                if j < stack1.len() {
                    assert(stack1[j] == x);
                }
            }
            assert forall|j: int| 0 <= j < stack1.len() implies nodes.contains(#[trigger] stack1[j])
                && reaches(edge, roots, stack1[j]) by {
                assert(stack0[j] == stack1[j]);
            }
        }
        if !has_id(out.as_slice(), id) {
            out.push(id);
            proof {
                assert forall|x: i64| out@.contains(x) <==> out0.contains(x) || x == id by {
                    if out0.contains(x) {
                        let j = choose|j: int| 0 <= j < out0.len() && out0[j] == x;
                        assert(out@[j] == x);
                    }
                    if x == id {
                        assert(out@[out0.len() as int] == x);
                    }
                }
                assert(nodes.difference(out@.to_set()) =~= nodes.difference(out0.to_set()).remove(id));
                assert(nodes.difference(out0.to_set()).contains(id));
            }
            let n: usize = playlists.len();
            for i in 0..n
                invariant
                    n == playlists@.len(),
                    v == views(playlists@),
                    edge == contains_directly(v),
                    nodes == roots.union(v.map_values(|p: PlaylistRowView| p.id).to_set()),
                    reaches(edge, roots, id),
                    stack@.len() >= stack1.len(),
                    stack@.take(stack1.len() as int) == stack1,
                    forall|j: int|
                        0 <= j < stack@.len() ==> nodes.contains(#[trigger] stack@[j]) && reaches(
                            edge,
                            roots,
                            stack@[j],
                        ),
                    forall|j: int|
                        0 <= j < i && (#[trigger] v[j]).parent_id == Some(id) ==> stack@.contains(
                            v[j].id,
                        ),
            {
                let p: &PlaylistRow = &playlists[i];
                let ghost s0 = stack@;
                if same_id(p.parent_id, Some(id)) {
                    let child: i64 = p.id;
                    proof {
                        assert(v[i as int] == p@);
                        assert(edge(id, child));
                        next_is_reached(edge, roots, id, child);
                        let m = v.map_values(|p: PlaylistRowView| p.id);
                        assert(m[i as int] == child);
                        assert(m.to_set().contains(child));
                    }
                    stack.push(child);
                    proof {
                        assert(stack@[s0.len() as int] == child);
                        assert(stack@.take(stack1.len() as int) =~= s0.take(stack1.len() as int));
                        assert forall|x: i64| s0.contains(x) implies stack@.contains(x) by {
                            let j = choose|j: int| 0 <= j < s0.len() && s0[j] == x;
                            assert(stack@[j] == x);
                        }
                    }
                }
            }
            proof {
                assert forall|x: i64| #[trigger] out@.contains(x) implies nodes.contains(x)
                    && reaches(edge, roots, x) by {
                    if !out0.contains(x) {
                        assert(x == id);
                    }
                }
                assert forall|x: i64| stack1.contains(x) implies stack@.contains(x) by {
                    let j = choose|j: int| 0 <= j < stack1.len() && stack1[j] == x;
                    assert(stack@.take(stack1.len() as int)[j] == x);
                    assert(stack@[j] == x);
                }
                assert forall|a: i64, b: i64|
                    out@.contains(a) && #[trigger] edge(a, b) implies out@.contains(b)
                    || stack@.contains(b) by {
                    if a == id {
                        let i = choose|i: int|
                            0 <= i < v.len() && (#[trigger] v[i]).id == b && v[i].parent_id == Some(a);
                        assert(stack@.contains(v[i].id));
                    } else {
                        assert(out0.contains(a));
                        assert(out0.contains(b) || stack0.contains(b));
                    }
                }
            }
        } else {
            proof {
                assert forall|a: i64, b: i64|
                    out@.contains(a) && #[trigger] edge(a, b) implies out@.contains(b)
                    || stack@.contains(b) by {
                    assert(out0.contains(b) || stack0.contains(b));
                }
            }
        }
    }
    proof {
        let all = out@.to_set();
        assert forall|x: i64| #[trigger] reaches(edge, roots, x) implies out@.contains(x) by {
            closed_set_holds_all(edge, roots, all, x);
        }
    }
    out
}

/// Whether `maybe_ancestor` is the node or holds it.
pub fn is_ancestor(lib: &Library, maybe_ancestor: i64, node: i64) -> (r: bool)
    ensures
        r == holds(lib@.playlists, maybe_ancestor, node),
{
    let inside: Vec<i64> = subtree(&lib.playlists, maybe_ancestor);
    has_id(inside.as_slice(), node)
}

// ---------------------------------------------------------------------------
// Deleting
// ---------------------------------------------------------------------------

/// The uids of the playlists that `p` picks, in table order.
pub open spec fn uids_of_playlists(
    playlists: Seq<PlaylistRowView>,
    p: spec_fn(PlaylistRowView) -> bool,
) -> Seq<Seq<char>> {
    playlists.filter(|r: PlaylistRowView| p(r) && r.uid is Some).map_values(
        |r: PlaylistRowView| r.uid->0,
    )
}

pub open spec fn in_subtree(playlists: Seq<PlaylistRowView>, root: i64) -> spec_fn(
    PlaylistRowView,
) -> bool {
    |p: PlaylistRowView| holds(playlists, root, p.id)
}

/// The library without a node, what hangs from it, and what was in it.
pub open spec fn without_subtree(l: LibraryView, root: i64) -> LibraryView {
    LibraryView {
        playlists: l.playlists.filter(|p: PlaylistRowView| !holds(l.playlists, root, p.id)),
        playlist_tracks: l.playlist_tracks.filter(
            |m: PlaylistTrackRowView| !holds(l.playlists, root, m.playlist_id),
        ),
        ..l
    }
}

/// The library once a node was deleted: the node, what hangs from it and what was
/// in it are gone, and every playlist and folder among them has its tombstone.
pub open spec fn playlist_deleted(
    l: LibraryView,
    root: i64,
    now: i64,
    fresh: Seq<char>,
) -> LibraryView {
    all_recorded(
        without_subtree(l, root),
        "playlist"@,
        uids_of_playlists(l.playlists, in_subtree(l.playlists, root)),
        now,
        fresh,
    )
}

pub(crate) proof fn without_subtree_wf(l: LibraryView, root: i64)
    requires
        l.wf(),
    ensures
        without_subtree(l, root).wf(),
{
    let p = |p: PlaylistRowView| !holds(l.playlists, root, p.id);
    let q = |m: PlaylistTrackRowView| !holds(l.playlists, root, m.playlist_id);
    let ps = l.playlists.filter(p);
    let ms = l.playlist_tracks.filter(q);
    distinct_filter(l.playlists, p, playlist_id());
    distinct_some_filter(l.playlists, p, playlist_uid_key());
    distinct_filter(l.playlist_tracks, q, pair_of());
    filter_is_part(l.playlists, p);
    filter_is_part(l.playlist_tracks, q);
    assert forall|id: i64| is_playlist(l.playlists, id) && !holds(
        l.playlists,
        root,
        id,
    ) implies is_playlist(ps, id) by {
        let k = choose|k: int| 0 <= k < l.playlists.len() && (#[trigger] l.playlists[k]).id == id;
        l.playlists.lemma_filter_contains(p, k);
        let j = choose|j: int| 0 <= j < ps.len() && ps[j] == l.playlists[k];
        assert(ps[j].id == id);
    }
    assert forall|i: int| 0 <= i < ps.len() && (#[trigger] ps[i]).parent_id is Some implies is_playlist(
        ps,
        ps[i].parent_id->0,
    ) by {
        let k = choose|k: int| 0 <= k < l.playlists.len() && l.playlists[k] == ps[i];
        let a = ps[i].parent_id->0;
        assert(is_playlist(l.playlists, l.playlists[k].parent_id->0));
        if holds(l.playlists, root, a) {
            assert(contains_directly(l.playlists)(a, l.playlists[k].id));
            next_is_reached(
                contains_directly(l.playlists),
                set![root],
                a,
                l.playlists[k].id,
            );
        }
    }
    assert forall|i: int| 0 <= i < ms.len() implies is_playlist(
        ps,
        (#[trigger] ms[i]).playlist_id,
    ) && is_track(l.tracks, ms[i].track_id) by {
        let k = choose|k: int| 0 <= k < l.playlist_tracks.len() && l.playlist_tracks[k] == ms[i];
        assert(is_playlist(l.playlists, l.playlist_tracks[k].playlist_id));
    }
}

/// Deletes a node with all that hangs from it, at a given moment, as the device
/// whose uid becomes `fresh` if it had none.
pub fn delete_playlist_at(lib: &mut Library, id: i64, now: i64, fresh: &str)
    ensures
        final(lib)@ == playlist_deleted(old(lib)@, id, now, fresh@),
        old(lib)@.wf() ==> final(lib)@.wf(),
{
    let ghost l0 = lib@;
    let ghost p = in_subtree(l0.playlists, id);
    let gone: Vec<i64> = subtree(&lib.playlists, id);
    let uids: Vec<String> = uids_among(&lib.playlists, &gone, Ghost(p));
    proof {
        if l0.wf() {
            without_subtree_wf(l0, id);
        }
    }
    let keep_playlist = |r: &PlaylistRow| -> (b: bool)
        ensures
            b == !gone@.contains(r.id),
        { !has_id(gone.as_slice(), r.id) };
    retain(
        &mut lib.playlists,
        keep_playlist,
        Ghost(|r: PlaylistRowView| !holds(l0.playlists, id, r.id)),
    );
    let keep_member = |m: &PlaylistTrackRow| -> (b: bool)
        ensures
            b == !gone@.contains(m.playlist_id),
        { !has_id(gone.as_slice(), m.playlist_id) };
    retain(
        &mut lib.playlist_tracks,
        keep_member,
        Ghost(|m: PlaylistTrackRowView| !holds(l0.playlists, id, m.playlist_id)),
    );
    proof {
        assert(lib@ == without_subtree(l0, id));
    }
    record_all(lib, "playlist", &uids, now, fresh);
}

fn uids_among(
    playlists: &Vec<PlaylistRow>,
    ids: &Vec<i64>,
    Ghost(p): Ghost<spec_fn(PlaylistRowView) -> bool>,
) -> (r: Vec<String>)
    requires
        forall|x: PlaylistRowView| #[trigger] p(x) <==> ids@.contains(x.id),
    ensures
        views(r@) == uids_of_playlists(views(playlists@), p),
{
    let ghost all = views(playlists@);
    let ghost q = |r: PlaylistRowView| p(r) && r.uid is Some;
    let ghost f = |r: PlaylistRowView| r.uid->0;
    let mut r: Vec<String> = Vec::new();
    proof {
        take_none_filter(all, q);
        assert(views(r@) =~= all.take(0).filter(q).map_values(f));
    }
    for i in 0..playlists.len()
        invariant
            forall|x: PlaylistRowView| #[trigger] p(x) <==> ids@.contains(x.id),
            all == views(playlists@),
            q == (|r: PlaylistRowView| p(r) && r.uid is Some),
            f == (|r: PlaylistRowView| r.uid->0),
            views(r@) == all.take(i as int).filter(q).map_values(f),
    {
        let row: &PlaylistRow = &playlists[i];
        let ghost kept = all.take(i as int).filter(q);
        proof {
            filter_step(all, q, i as int);
            assert(all[i as int] == row@);
            assert(p(row@) <==> ids@.contains(row.id));
        }
        if has_id(ids.as_slice(), row.id) {
            if let Some(u) = &row.uid {
                let x: String = u.clone();
                proof {
                    views_push(r@, x);
                    assert(kept.push(row@).map_values(f) =~= kept.map_values(f).push(x@));
                }
                r.push(x);
            }
        }
    }
    proof {
        take_all(all);
    }
    r
}

/// Deletes a node with all that hangs from it.
pub fn delete_playlist(lib: &mut Library, id: i64)
    ensures
        exists|now: i64, fresh: Seq<char>|
            is_clock_time(now) && is_uid_text(fresh) && final(lib)@ == #[trigger] playlist_deleted(
                old(lib)@,
                id,
                now,
                fresh,
            ),
        old(lib)@.wf() ==> final(lib)@.wf(),
{
    let now: i64 = now_ms();
    let fresh: String = new_uid();
    delete_playlist_at(lib, id, now, fresh.as_str());
}

/// Deleting a folder leaves a tombstone for every playlist and folder that goes
/// with it, and takes all of them and their contents away. The tracks stay.
pub proof fn deleting_a_folder_records_its_subtree(
    l: LibraryView,
    root: i64,
    now: i64,
    fresh: Seq<char>,
    i: int,
)
    requires
        0 <= i < l.playlists.len(),
        holds(l.playlists, root, l.playlists[i].id),
    ensures
        ({
            let m = playlist_deleted(l, root, now, fresh);
            &&& m.tracks == l.tracks
            &&& !is_playlist(m.playlists, l.playlists[i].id)
            &&& forall|j: int|
                0 <= j < m.playlist_tracks.len() ==> (#[trigger] m.playlist_tracks[j]).playlist_id
                    != l.playlists[i].id
            &&& l.playlists[i].uid is Some ==> exists|j: int|
                0 <= j < m.tombstones.len() && (#[trigger] m.tombstones[j]).entity == "playlist"@
                    && m.tombstones[j].uid == l.playlists[i].uid->0
                    && m.tombstones[j].deleted_at == now
        }),
{
    let m = playlist_deleted(l, root, now, fresh);
    let uids = uids_of_playlists(l.playlists, in_subtree(l.playlists, root));
    recording_keeps_the_rest(without_subtree(l, root), "playlist"@, uids, now, fresh);
    filter_is_part(l.playlists, |p: PlaylistRowView| !holds(l.playlists, root, p.id));
    filter_is_part(
        l.playlist_tracks,
        |m: PlaylistTrackRowView| !holds(l.playlists, root, m.playlist_id),
    );
    if l.playlists[i].uid is Some {
        let p = in_subtree(l.playlists, root);
        let q = |r: PlaylistRowView| p(r) && r.uid is Some;
        l.playlists.lemma_filter_contains(q, i);
        let kept = l.playlists.filter(q);
        let k = choose|k: int| 0 <= k < kept.len() && kept[k] == l.playlists[i];
        assert(uids[k] == l.playlists[i].uid->0);
        crate::db::recorded_deletions_are_found(
            without_subtree(l, root),
            "playlist"@,
            uids,
            now,
            fresh,
            k,
        );
    }
}

// ---------------------------------------------------------------------------
// Moving
// ---------------------------------------------------------------------------

/// Why a node cannot be moved there.
#[derive(Debug, Clone, Copy, PartialEq, Eq, Structural)]
pub enum MoveError {
    NoSuchFolder,
    NotAFolder,
    IntoItself,
}

impl MoveError {
    /// What the user is told.
    pub fn message(self) -> (r: String)
        ensures
            r@ == match self {
                MoveError::NoSuchFolder => "Query returned no rows"@,
                MoveError::NotAFolder => "el destino no es una carpeta"@,
                MoveError::IntoItself => "no se puede mover una carpeta dentro de sí misma"@,
            },
    {
        match self {
            MoveError::NoSuchFolder => "Query returned no rows".to_owned(),
            MoveError::NotAFolder => "el destino no es una carpeta".to_owned(),
            MoveError::IntoItself => {
                "no se puede mover una carpeta dentro de sí misma".to_owned()
            },
        }
    }
}

/// What stands against moving a node into `new_parent`.
pub open spec fn move_refused(
    playlists: Seq<PlaylistRowView>,
    id: i64,
    new_parent: Option<i64>,
) -> Option<MoveError> {
    match new_parent {
        None => None,
        Some(p) => match row_with(playlists, playlist_id(), p) {
            None => Some(MoveError::NoSuchFolder),
            Some(row) => if row.kind != "folder"@ {
                Some(MoveError::NotAFolder)
            } else if holds(playlists, id, p) {
                Some(MoveError::IntoItself)
            } else {
                None
            },
        },
    }
}

/// The playlists with a node moved to position `index` inside `new_parent`. The
/// new rank comes from its two neighbours there; no other row changes.
pub open spec fn moved(
    playlists: Seq<PlaylistRowView>,
    id: i64,
    new_parent: Option<i64>,
    index: i64,
    now: i64,
) -> Seq<PlaylistRowView> {
    let place = if index > 0 {
        index as int
    } else {
        0
    };
    let rank = rank_for(ranks_of_children(playlists, new_parent, Some(id)), place);
    playlists.map_values(
        |p: PlaylistRowView|
            if p.id == id {
                PlaylistRowView { parent_id: new_parent, rank, updated_at: now, ..p }
            } else {
                p
            },
    )
}

fn place_in(
    playlists: &mut Vec<PlaylistRow>,
    id: i64,
    new_parent: Option<i64>,
    rank: &String,
    now: i64,
)
    ensures
        views(final(playlists)@) == views(old(playlists)@).map_values(
            |p: PlaylistRowView|
                if p.id == id {
                    PlaylistRowView { parent_id: new_parent, rank: rank@, updated_at: now, ..p }
                } else {
                    p
                },
        ),
{
    let ghost all = views(playlists@);
    let ghost f = |p: PlaylistRowView|
        if p.id == id {
            PlaylistRowView { parent_id: new_parent, rank: rank@, updated_at: now, ..p }
        } else {
            p
        };
    let n: usize = playlists.len();
    for i in 0..n
        invariant
            n == all.len(),
            playlists@.len() == n,
            f == (|p: PlaylistRowView|
                if p.id == id {
                    PlaylistRowView { parent_id: new_parent, rank: rank@, updated_at: now, ..p }
                } else {
                    p
                }),
            forall|j: int| 0 <= j < i ==> (#[trigger] playlists@[j])@ == f(all[j]),
            forall|j: int| i <= j < all.len() ==> (#[trigger] playlists@[j])@ == all[j],
    {
        if playlists[i].id == id {
            playlists[i].parent_id = new_parent;
            playlists[i].rank = rank.clone();
            playlists[i].updated_at = now;
        }
    }
    proof {
        assert(views(playlists@) =~= all.map_values(f));
    }
}

/// Moves a node to position `index` inside `new_parent`, at a given moment.
pub fn move_playlist_at(
    lib: &mut Library,
    id: i64,
    new_parent: Option<i64>,
    index: i64,
    now: i64,
) -> (r: Result<(), MoveError>)
    ensures
        match move_refused(old(lib)@.playlists, id, new_parent) {
            Some(e) => r == Err::<(), MoveError>(e) && final(lib)@ == old(lib)@,
            None => r is Ok && final(lib)@ == (LibraryView {
                playlists: moved(old(lib)@.playlists, id, new_parent, index, now),
                ..old(lib)@
            }),
        },
        old(lib)@.wf() ==> final(lib)@.wf(),
{
    if let Some(p) = new_parent {
        match find_playlist(&lib.playlists, p) {
            None => {
                return Err(MoveError::NoSuchFolder);
            },
            Some(i) => {
                if !same(lib.playlists[i].kind.as_str(), "folder") {
                    return Err(MoveError::NotAFolder);
                }
                if is_ancestor(lib, id, p) {
                    return Err(MoveError::IntoItself);
                }
                proof {
                    assert(lib@.playlists[i as int].id == p);
                    assert(is_playlist(lib@.playlists, p));
                }
            },
        }
    }
    let siblings: Vec<String> = sibling_ranks(lib, new_parent, Some(id));
    let place: usize = clamp_index(index, siblings.len());
    let rank: String = rank_at(&siblings, place);
    let ghost l0 = lib@;
    proof {
        if l0.wf() {
            same_shape_wf(l0, moved(l0.playlists, id, new_parent, index, now));
        }
    }
    place_in(&mut lib.playlists, id, new_parent, &rank, now);
    proof {
        assert(lib@.playlists =~= moved(l0.playlists, id, new_parent, index, now));
    }
    Ok(())
}

/// An index as a position among `len` things: nothing below zero or past the end.
pub open spec fn clamped(index: i64, len: nat) -> int {
    if index <= 0 {
        0
    } else if index > len {
        len as int
    } else {
        index as int
    }
}

pub(crate) fn clamp_index(index: i64, len: usize) -> (r: usize)
    ensures
        r == clamped(index, len as nat),
{
    if index <= 0 {
        0
    } else if index as u64 > len as u64 {
        len
    } else {
        index as usize
    }
}

/// Moves a node to position `index` inside `new_parent`.
pub fn move_playlist(
    lib: &mut Library,
    id: i64,
    new_parent: Option<i64>,
    index: i64,
) -> (r: Result<(), MoveError>)
    ensures
        match move_refused(old(lib)@.playlists, id, new_parent) {
            Some(e) => r == Err::<(), MoveError>(e) && final(lib)@ == old(lib)@,
            None => r is Ok && exists|now: i64|
                is_clock_time(now) && final(lib)@ == (LibraryView {
                    playlists: #[trigger] moved(old(lib)@.playlists, id, new_parent, index, now),
                    ..old(lib)@
                }),
        },
        old(lib)@.wf() ==> final(lib)@.wf(),
{
    let now: i64 = now_ms();
    move_playlist_at(lib, id, new_parent, index, now)
}

/// No node lies inside itself.
pub open spec fn is_forest(playlists: Seq<PlaylistRowView>) -> bool {
    forall|i: int|
        0 <= i < playlists.len() && (#[trigger] playlists[i]).parent_id is Some ==> !holds(
            playlists,
            playlists[i].id,
            playlists[i].parent_id->0,
        )
}

/// A move that is not refused never puts a node inside itself.
pub proof fn moving_keeps_the_forest(
    playlists: Seq<PlaylistRowView>,
    id: i64,
    new_parent: Option<i64>,
    index: i64,
    now: i64,
)
    requires
        crate::library::distinct(playlists, playlist_id()),
        is_forest(playlists),
        move_refused(playlists, id, new_parent) is None,
    ensures
        is_forest(moved(playlists, id, new_parent, index, now)),
{
    let after = moved(playlists, id, new_parent, index, now);
    let was = contains_directly(playlists);
    let is = contains_directly(after);
    let inside = Set::new(|x: i64| holds(playlists, id, x));
    root_is_reached(was, set![id], id);
    assert forall|a: i64, b: i64| #[trigger] is(a, b) implies was(a, b) || (b == id && new_parent
        == Some(a)) by {
        let i = choose|i: int|
            0 <= i < after.len() && (#[trigger] after[i]).id == b && after[i].parent_id == Some(a);
        if b != id {
            assert(playlists[i].id == b && playlists[i].parent_id == Some(a));
        }
    }
    assert forall|a: i64, b: i64| inside.contains(a) && #[trigger] is(a, b) implies inside.contains(
        b,
    ) by {
        if was(a, b) {
            next_is_reached(was, set![id], a, b);
        }
    }
    assert forall|i: int| 0 <= i < after.len() && (
    #[trigger] after[i]).parent_id is Some implies !holds(
        after,
        after[i].id,
        after[i].parent_id->0,
    ) by {
        let x = after[i].id;
        let q = after[i].parent_id->0;
        let below = Set::new(|y: i64| holds(playlists, x, y));
        root_is_reached(was, set![x], x);
        assert(playlists[i].id == x);
        if holds(after, x, q) {
            if inside.contains(x) {
                assert forall|y: i64| below.contains(y) implies inside.contains(y) by {
                    assert forall|r: i64| #[trigger] set![x].contains(r) implies inside.contains(r) by {}
                    assert forall|a: i64, b: i64|
                        inside.contains(a) && #[trigger] was(a, b) implies inside.contains(b) by {
                        next_is_reached(was, set![id], a, b);
                    }
                    closed_set_holds_all(was, set![x], inside, y);
                }
                assert forall|a: i64, b: i64|
                    below.contains(a) && #[trigger] is(a, b) implies below.contains(b) by {
                    assert(inside.contains(a));
                    if was(a, b) {
                        next_is_reached(was, set![x], a, b);
                    }
                }
                assert forall|r: i64| #[trigger] set![x].contains(r) implies below.contains(r) by {}
                closed_set_holds_all(is, set![x], below, q);
                assert(below.contains(q));
                assert(inside.contains(q));
                if x != id {
                    assert(playlists[i].parent_id == Some(q));
                }
            } else {
                assert(x != id);
                assert(playlists[i].parent_id == Some(q));
                let either = below.union(inside);
                assert forall|a: i64, b: i64|
                    either.contains(a) && #[trigger] is(a, b) implies either.contains(b) by {
                    if below.contains(a) && was(a, b) {
                        next_is_reached(was, set![x], a, b);
                    }
                }
                assert forall|r: i64| #[trigger] set![x].contains(r) implies either.contains(r) by {}
                closed_set_holds_all(is, set![x], either, q);
                if inside.contains(q) {
                    assert(was(q, x));
                    next_is_reached(was, set![id], q, x);
                }
            }
        }
    }
}

// ---------------------------------------------------------------------------
// The tree as it is shown
// ---------------------------------------------------------------------------

/// A node of the tree of playlists and folders, as it is shown.
#[derive(Debug)]
pub struct PlaylistNode {
    pub id: i64,
    pub uid: Option<String>,
    pub name: String,
    pub kind: String,
    pub parent_id: Option<i64>,
    /// The place among its siblings, counted from zero.
    pub position: i64,
    pub track_count: i64,
    /// How many of those tracks have their file on this device.
    pub present_count: i64,
    /// How many of those files are here although nothing in scope asks for them.
    pub stranded_count: i64,
    pub in_scope: bool,
}

pub struct PlaylistNodeView {
    pub id: i64,
    pub uid: Option<Seq<char>>,
    pub name: Seq<char>,
    pub kind: Seq<char>,
    pub parent_id: Option<i64>,
    pub position: i64,
    pub track_count: i64,
    pub present_count: i64,
    pub stranded_count: i64,
    pub in_scope: bool,
}

impl View for PlaylistNode {
    type V = PlaylistNodeView;

    open spec fn view(&self) -> PlaylistNodeView {
        PlaylistNodeView {
            id: self.id,
            uid: opt_view(self.uid),
            name: self.name@,
            kind: self.kind@,
            parent_id: self.parent_id,
            position: self.position,
            track_count: self.track_count,
            present_count: self.present_count,
            stranded_count: self.stranded_count,
            in_scope: self.in_scope,
        }
    }
}

impl Clone for PlaylistNode {
    fn clone(&self) -> (r: Self)
        ensures
            r@ == self@,
    {
        PlaylistNode {
            id: self.id,
            uid: copy_opt(&self.uid),
            name: self.name.clone(),
            kind: self.kind.clone(),
            parent_id: self.parent_id,
            position: self.position,
            track_count: self.track_count,
            present_count: self.present_count,
            stranded_count: self.stranded_count,
            in_scope: self.in_scope,
        }
    }
}

pub open spec fn placed_in(playlist: i64) -> spec_fn(PlaylistTrackRowView) -> bool {
    |m: PlaylistTrackRowView| m.playlist_id == playlist
}

pub open spec fn is_present(tracks: Seq<TrackRowView>, id: i64) -> bool {
    exists|i: int|
        0 <= i < tracks.len() && (#[trigger] tracks[i]).id == id && tracks[i].local_state
            == "present"@
}

pub open spec fn present_in(l: LibraryView, playlist: i64) -> spec_fn(PlaylistTrackRowView) -> bool {
    |m: PlaylistTrackRowView| m.playlist_id == playlist && is_present(l.tracks, m.track_id)
}

/// A playlist as a node, before it is numbered.
pub open spec fn node_of(l: LibraryView, p: PlaylistRowView) -> PlaylistNodeView {
    PlaylistNodeView {
        id: p.id,
        uid: p.uid,
        name: p.name,
        kind: p.kind,
        parent_id: p.parent_id,
        position: 0,
        track_count: count(l.playlist_tracks, placed_in(p.id)) as i64,
        present_count: count(l.playlist_tracks, present_in(l, p.id)) as i64,
        stranded_count: 0,
        in_scope: true,
    }
}

/// Roots first, then by parent, and by rank within one parent.
pub open spec fn by_parent_and_rank() -> spec_fn(PlaylistRowView, PlaylistRowView) -> bool {
    |a: PlaylistRowView, b: PlaylistRowView|
        match (a.parent_id, b.parent_id) {
            (None, Some(_)) => true,
            (Some(_), None) => false,
            (None, None) => before(a.rank, b.rank),
            (Some(x), Some(y)) => x < y || (x == y && before(a.rank, b.rank)),
        }
}

pub open spec fn has_parent(parent: Option<i64>) -> spec_fn(PlaylistRowView) -> bool {
    |p: PlaylistRowView| p.parent_id == parent
}

/// The nodes of the tree in the order in which they are shown, each with its
/// place among its siblings.
pub open spec fn tree_of(l: LibraryView) -> Seq<PlaylistNodeView> {
    let rows = ordered(l.playlists, by_parent_and_rank());
    Seq::new(
        rows.len(),
        |i: int|
            PlaylistNodeView {
                position: count(rows.take(i), has_parent(rows[i].parent_id)) as i64,
                ..node_of(l, rows[i])
            },
    )
}

fn row_goes_before(a: &PlaylistRow, b: &PlaylistRow) -> (r: bool)
    ensures
        r == by_parent_and_rank()(a@, b@),
{
    match (a.parent_id, b.parent_id) {
        (None, Some(_)) => true,
        (Some(_), None) => false,
        (None, None) => is_before(a.rank.as_str(), b.rank.as_str()),
        (Some(x), Some(y)) => x < y || (x == y && is_before(a.rank.as_str(), b.rank.as_str())),
    }
}

pub(crate) fn track_is_present(tracks: &Vec<TrackRow>, id: i64) -> (r: bool)
    ensures
        r == is_present(views(tracks@), id),
{
    for i in 0..tracks.len()
        invariant
            forall|j: int|
                0 <= j < i ==> !((#[trigger] views(tracks@)[j]).id == id && views(
                    tracks@,
                )[j].local_state == "present"@),
    {
        if tracks[i].id == id && same(tracks[i].local_state.as_str(), "present") {
            proof {
                assert(views(tracks@)[i as int].id == id);
            }
            return true;
        }
    }
    false
}

fn count_members(lib: &Library, playlist: i64) -> (r: (i64, i64))
    requires
        lib@.playlist_tracks.len() <= i64::MAX,
    ensures
        r.0 == count(lib@.playlist_tracks, placed_in(playlist)),
        r.1 == count(lib@.playlist_tracks, present_in(lib@, playlist)),
{
    let ghost all = lib@.playlist_tracks;
    let ghost p = placed_in(playlist);
    let ghost q = present_in(lib@, playlist);
    let mut total: i64 = 0;
    let mut present: i64 = 0;
    proof {
        take_none_filter(all, p);
        take_none_filter(all, q);
    }
    for i in 0..lib.playlist_tracks.len()
        invariant
            all == lib@.playlist_tracks,
            all.len() <= i64::MAX,
            p == placed_in(playlist),
            q == present_in(lib@, playlist),
            total == count(all.take(i as int), p),
            present == count(all.take(i as int), q),
            total <= i,
            present <= i,
    {
        proof {
            filter_step(all, p, i as int);
            filter_step(all, q, i as int);
        }
        let m: &PlaylistTrackRow = &lib.playlist_tracks[i];
        if m.playlist_id == playlist {
            total = total + 1;
            if track_is_present(&lib.tracks, m.track_id) {
                present = present + 1;
            }
        }
    }
    proof {
        take_all(all);
    }
    (total, present)
}

fn count_earlier(rows: &Vec<PlaylistRow>, end: usize, parent: Option<i64>) -> (r: i64)
    requires
        end <= rows@.len() <= i64::MAX,
    ensures
        r == count(views(rows@).take(end as int), has_parent(parent)),
{
    let ghost all = views(rows@);
    let ghost p = has_parent(parent);
    let mut n: i64 = 0;
    proof {
        take_none_filter(all, p);
    }
    for i in 0..end
        invariant
            all == views(rows@),
            p == has_parent(parent),
            end <= rows@.len() <= i64::MAX,
            n == count(all.take(i as int), p),
            n <= i,
    {
        proof {
            filter_step(all, p, i as int);
        }
        if same_id(rows[i].parent_id, parent) {
            n = n + 1;
        }
    }
    n
}

/// The tree as it is shown: roots first, siblings by rank, each with its place
/// among them and with how much is in it.
pub fn list_playlists(lib: &Library) -> (r: Vec<PlaylistNode>)
    requires
        lib@.playlists.len() <= i64::MAX,
        lib@.playlist_tracks.len() <= i64::MAX,
    ensures
        views(r@) == tree_of(lib@),
{
    let mut rows: Vec<PlaylistRow> = Vec::new();
    for i in 0..lib.playlists.len()
        invariant
            views(rows@) == lib@.playlists.take(i as int),
    {
        let row: PlaylistRow = lib.playlists[i].clone();
        proof {
            views_push(rows@, row);
            assert(lib@.playlists.take(i + 1) =~= lib@.playlists.take(i as int).push(row@));
        }
        rows.push(row);
    }
    proof {
        take_all(lib@.playlists);
    }
    let lt = |a: &PlaylistRow, b: &PlaylistRow| -> (c: bool)
        ensures
            c == by_parent_and_rank()(a@, b@),
        { row_goes_before(a, b) };
    let rows: Vec<PlaylistRow> = sort(rows, lt, Ghost(by_parent_and_rank()));
    let ghost v = views(rows@);
    proof {
        ordered_len(lib@.playlists, by_parent_and_rank());
    }
    let mut r: Vec<PlaylistNode> = Vec::new();
    for i in 0..rows.len()
        invariant
            lib@.playlist_tracks.len() <= i64::MAX,
            rows@.len() <= i64::MAX,
            v == views(rows@),
            v == ordered(lib@.playlists, by_parent_and_rank()),
            views(r@) == tree_of(lib@).take(i as int),
    {
        let row: &PlaylistRow = &rows[i];
        let (total, present): (i64, i64) = count_members(lib, row.id);
        let node: PlaylistNode = PlaylistNode {
            id: row.id,
            uid: copy_opt(&row.uid),
            name: row.name.clone(),
            kind: row.kind.clone(),
            parent_id: row.parent_id,
            position: count_earlier(&rows, i, row.parent_id),
            track_count: total,
            present_count: present,
            stranded_count: 0,
            in_scope: true,
        };
        proof {
            views_push(r@, node);
            assert(v[i as int] == row@);
            assert(node@ == tree_of(lib@)[i as int]);
            assert(tree_of(lib@).take(i + 1) =~= tree_of(lib@).take(i as int).push(node@));
        }
        r.push(node);
    }
    proof {
        take_all(tree_of(lib@));
    }
    r
}

pub(crate) proof fn ordered_len<A>(s: Seq<A>, lt: spec_fn(A, A) -> bool)
    ensures
        ordered(s, lt).len() == s.len(),
    decreases s.len(),
{
    if s.len() > 0 {
        ordered_len(s.drop_last(), lt);
        put_len(ordered(s.drop_last(), lt), s.last(), lt);
    }
}

proof fn put_len<A>(s: Seq<A>, x: A, lt: spec_fn(A, A) -> bool)
    ensures
        crate::table::put(s, x, lt).len() == s.len() + 1,
    decreases s.len(),
{
    if s.len() > 0 && lt(x, s.last()) {
        put_len(s.drop_last(), x, lt);
    }
}

} // verus!
