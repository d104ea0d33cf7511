//! Tracks, and the order they have inside a playlist.

use crate::db::{
    all_recorded, is_clock_time, is_uid_text, new_uid, now_ms, record_all, recording_keeps_the_rest,
};
use crate::db::DbError;
use crate::library::{
    distinct, distinct_filter, distinct_push, distinct_same_keys, distinct_some_filter,
    filter_is_part, is_playlist, is_track, members_exist, pair_of, tombstone_key, track_id,
    track_path_key, track_uid_key, Library, LibraryView, PlaylistTrackRow, PlaylistTrackRowView,
    TombstoneRow, TombstoneRowView, TrackRow, TrackRowView,
};
use crate::manifest::{pair_key, pair_key_of};
use crate::rank::{between, rank_between};
use crate::seqs::{count, filter_step, take_all, take_none_filter, views, views_push};
use crate::table::{find, first_where_is_first, keyed, ordered, retain, row_with, sort};
use crate::text::{before, copy_opt, is_before, opt_view, same};
use crate::tree::{
    clamp_index, clamped, find_playlist, greatest, has_id, placed_in, playlist_uid, playlist_uid_of,
    touch_playlist, touched, touched_wf,
};
use vstd::prelude::*;

verus! {

broadcast use vstd::string::group_string_axioms;

/// A track as it is shown.
#[derive(Debug)]
pub struct Track {
    pub id: i64,
    pub path: String,
    pub title: String,
    pub artist: String,
    pub album: String,
    pub genre: String,
    pub duration_ms: i64,
    pub bpm: Option<i64>,
    /// The file is on this device.
    pub present: bool,
    /// This device synchronises it.
    pub in_scope: bool,
    pub uid: Option<String>,
}

pub struct TrackView {
    pub id: i64,
    pub path: Seq<char>,
    pub title: Seq<char>,
    pub artist: Seq<char>,
    pub album: Seq<char>,
    pub genre: Seq<char>,
    pub duration_ms: i64,
    pub bpm: Option<i64>,
    pub present: bool,
    pub in_scope: bool,
    pub uid: Option<Seq<char>>,
}

impl View for Track {
    type V = TrackView;

    open spec fn view(&self) -> TrackView {
        TrackView {
            id: self.id,
            path: self.path@,
            title: self.title@,
            artist: self.artist@,
            album: self.album@,
            genre: self.genre@,
            duration_ms: self.duration_ms,
            bpm: self.bpm,
            present: self.present,
            in_scope: self.in_scope,
            uid: opt_view(self.uid),
        }
    }
}

impl Clone for Track {
    fn clone(&self) -> (r: Self)
        ensures
            r@ == self@,
    {
        Track {
            id: self.id,
            path: self.path.clone(),
            title: self.title.clone(),
            artist: self.artist.clone(),
            album: self.album.clone(),
            genre: self.genre.clone(),
            duration_ms: self.duration_ms,
            bpm: self.bpm,
            present: self.present,
            in_scope: self.in_scope,
            uid: copy_opt(&self.uid),
        }
    }
}

// ---------------------------------------------------------------------------
// Looking up
// ---------------------------------------------------------------------------

pub open spec fn track_of(t: TrackRowView) -> TrackView {
    TrackView {
        id: t.id,
        path: t.path,
        title: t.title,
        artist: t.artist,
        album: t.album,
        genre: t.genre,
        duration_ms: t.duration_ms,
        bpm: t.bpm,
        present: t.local_state == "present"@,
        in_scope: true,
        uid: t.uid,
    }
}

pub(crate) fn show(t: &TrackRow) -> (r: Track)
    ensures
        r@ == track_of(t@),
{
    Track {
        id: t.id,
        path: t.path.clone(),
        title: t.title.clone(),
        artist: t.artist.clone(),
        album: t.album.clone(),
        genre: t.genre.clone(),
        duration_ms: t.duration_ms,
        bpm: t.bpm,
        present: same(t.local_state.as_str(), "present"),
        in_scope: true,
        uid: copy_opt(&t.uid),
    }
}

/// By artist, then album, then title.
pub open spec fn by_artist_album_title() -> spec_fn(TrackView, TrackView) -> bool {
    |a: TrackView, b: TrackView|
        before(a.artist, b.artist) || (a.artist == b.artist && (before(a.album, b.album) || (a.album
            == b.album && before(a.title, b.title))))
}

/// Every track, in the order in which the library is shown.
pub open spec fn all_tracks(l: LibraryView) -> Seq<TrackView> {
    ordered(l.tracks.map_values(|t: TrackRowView| track_of(t)), by_artist_album_title())
}

/// Every track, by artist, album and title.
pub fn list_tracks(lib: &Library) -> (r: Vec<Track>)
    ensures
        views(r@) == all_tracks(lib@),
{
    let mut r: Vec<Track> = Vec::new();
    let ghost f = |t: TrackRowView| track_of(t);
    let ghost goal = lib@.tracks.map_values(f);
    for i in 0..lib.tracks.len()
        invariant
            f == (|t: TrackRowView| track_of(t)),
            goal == lib@.tracks.map_values(f),
            views(r@) == goal.take(i as int),
    {
        let t: Track = show(&lib.tracks[i]);
        proof {
            views_push(r@, t);
            assert(goal.take(i + 1) =~= goal.take(i as int).push(t@));
        }
        r.push(t);
    }
    proof {
        take_all(goal);
    }
    let lt = |a: &Track, b: &Track| -> (c: bool)
        ensures
            c == by_artist_album_title()(a@, b@),
        {
            is_before(a.artist.as_str(), b.artist.as_str()) || (same(
                a.artist.as_str(),
                b.artist.as_str(),
            ) && (is_before(a.album.as_str(), b.album.as_str()) || (same(
                a.album.as_str(),
                b.album.as_str(),
            ) && is_before(a.title.as_str(), b.title.as_str()))))
        };
    sort(r, lt, Ghost(by_artist_album_title()))
}

pub(crate) fn find_track(tracks: &Vec<TrackRow>, id: i64) -> (r: Option<usize>)
    ensures
        match r {
            Some(i) => i < tracks@.len() && tracks@[i as int].id == id
                && crate::table::first_where(views(tracks@), keyed(track_id(), id)) == Some(i as int)
                && is_track(views(tracks@), id),
            None => row_with(views(tracks@), track_id(), id) is None && !is_track(
                views(tracks@),
                id,
            ),
        },
{
    let hit = |t: &TrackRow| -> (b: bool)
        ensures
            b == (t.id == id),
        { t.id == id };
    let r: Option<usize> = find(tracks, hit, Ghost(keyed(track_id(), id)));
    proof {
        first_where_is_first(views(tracks@), keyed(track_id(), id));
        match r {
            Some(i) => {
                assert(views(tracks@)[i as int].id == id);
            },
            None => {
                assert forall|i: int| 0 <= i < tracks@.len() implies (#[trigger] views(
                    tracks@,
                )[i]).id != id by {
                    assert(!keyed(track_id(), id)(views(tracks@)[i]));
                }
            },
        }
    }
    r
}

pub open spec fn track_path_of(l: LibraryView) -> spec_fn(i64) -> Option<Seq<char>> {
    |id: i64|
        match row_with(l.tracks, track_id(), id) {
            Some(t) => Some(t.path),
            None => None,
        }
}

pub open spec fn track_uid_of(l: LibraryView) -> spec_fn(i64) -> Option<Seq<char>> {
    |id: i64|
        match row_with(l.tracks, track_id(), id) {
            Some(t) => t.uid,
            None => None,
        }
}

/// Where the file of a track is, if there is such a track.
pub fn track_path(lib: &Library, id: i64) -> (r: Option<String>)
    ensures
        opt_view(r) == track_path_of(lib@)(id),
{
    match find_track(&lib.tracks, id) {
        Some(i) => Some(lib.tracks[i].path.clone()),
        None => None,
    }
}

/// The uid of a track.
pub fn track_uid(lib: &Library, id: i64) -> (r: Option<String>)
    ensures
        opt_view(r) == track_uid_of(lib@)(id),
{
    match find_track(&lib.tracks, id) {
        Some(i) => copy_opt(&lib.tracks[i].uid),
        None => None,
    }
}

/// What `f` gives for each of the ids that it gives anything for, in their order.
pub open spec fn picked(ids: Seq<i64>, f: spec_fn(i64) -> Option<Seq<char>>) -> Seq<Seq<char>>
    decreases ids.len(),
{
    if ids.len() == 0 {
        Seq::empty()
    } else {
        match f(ids.last()) {
            Some(x) => picked(ids.drop_last(), f).push(x),
            None => picked(ids.drop_last(), f),
        }
    }
}

pub(crate) proof fn picked_holds(ids: Seq<i64>, f: spec_fn(i64) -> Option<Seq<char>>, i: int)
    requires
        0 <= i < ids.len(),
        f(ids[i]) is Some,
    ensures
        picked(ids, f).contains(f(ids[i])->0),
    decreases ids.len(),
{
    let x = f(ids[i])->0;
    if i == ids.len() - 1 {
        let p = picked(ids.drop_last(), f);
        assert(p.push(x)[p.len() as int] == x);
    } else {
        picked_holds(ids.drop_last(), f, i);
        let p = picked(ids.drop_last(), f);
        let k = choose|k: int| 0 <= k < p.len() && p[k] == x;
        assert(picked(ids, f)[k] == x);
    }
}

// ---------------------------------------------------------------------------
// Deleting tracks
// ---------------------------------------------------------------------------

pub open spec fn without_tracks(l: LibraryView, ids: Seq<i64>) -> LibraryView {
    LibraryView {
        tracks: l.tracks.filter(|t: TrackRowView| !ids.contains(t.id)),
        playlist_tracks: l.playlist_tracks.filter(
            |m: PlaylistTrackRowView| !ids.contains(m.track_id),
        ),
        ..l
    }
}

/// The library once those tracks were deleted: they are gone, from every playlist
/// too, and each that had a uid has its tombstone.
pub open spec fn tracks_deleted(
    l: LibraryView,
    ids: Seq<i64>,
    now: i64,
    fresh: Seq<char>,
) -> LibraryView {
    all_recorded(without_tracks(l, ids), "track"@, picked(ids, track_uid_of(l)), now, fresh)
}

pub(crate) proof fn without_tracks_wf(l: LibraryView, ids: Seq<i64>)
    requires
        l.wf(),
    ensures
        without_tracks(l, ids).wf(),
{
    let p = |t: TrackRowView| !ids.contains(t.id);
    let q = |m: PlaylistTrackRowView| !ids.contains(m.track_id);
    let ts = l.tracks.filter(p);
    let ms = l.playlist_tracks.filter(q);
    distinct_filter(l.tracks, p, track_id());
    distinct_filter(l.tracks, p, track_path_key());
    distinct_some_filter(l.tracks, p, track_uid_key());
    distinct_filter(l.playlist_tracks, q, pair_of());
    filter_is_part(l.playlist_tracks, q);
    assert forall|i: int| 0 <= i < ms.len() implies is_playlist(
        l.playlists,
        (#[trigger] ms[i]).playlist_id,
    ) && is_track(ts, ms[i].track_id) by {
        let k = choose|k: int| 0 <= k < l.playlist_tracks.len() && l.playlist_tracks[k] == ms[i];
        let id = l.playlist_tracks[k].track_id;
        assert(is_track(l.tracks, id));
        let j = choose|j: int| 0 <= j < l.tracks.len() && (#[trigger] l.tracks[j]).id == id;
        l.tracks.lemma_filter_contains(p, j);
        let n = choose|n: int| 0 <= n < ts.len() && ts[n] == l.tracks[j];
        assert(ts[n].id == id);
    }
}

fn pick_uids(lib: &Library, ids: &[i64]) -> (r: Vec<String>)
    ensures
        views(r@) == picked(ids@, track_uid_of(lib@)),
{
    let mut r: Vec<String> = Vec::new();
    let ghost f = track_uid_of(lib@);
    proof {
        assert(ids@.take(0) =~= Seq::empty());
        assert(views(r@) =~= picked(ids@.take(0), f));
    }
    for i in 0..ids.len()
        invariant
            f == track_uid_of(lib@),
            views(r@) == picked(ids@.take(i as int), f),
    {
        proof {
            assert(ids@.take(i + 1).drop_last() =~= ids@.take(i as int));
        }
        if let Some(u) = track_uid(lib, ids[i]) {
            proof {
                views_push(r@, u);
            }
            r.push(u);
        }
    }
    proof {
        take_all(ids@);
    }
    r
}

fn pick_paths(lib: &Library, ids: &[i64]) -> (r: Vec<String>)
    ensures
        views(r@) == picked(ids@, track_path_of(lib@)),
{
    let mut r: Vec<String> = Vec::new();
    let ghost f = track_path_of(lib@);
    proof {
        assert(ids@.take(0) =~= Seq::empty());
        assert(views(r@) =~= picked(ids@.take(0), f));
    }
    for i in 0..ids.len()
        invariant
            f == track_path_of(lib@),
            views(r@) == picked(ids@.take(i as int), f),
    {
        proof {
            assert(ids@.take(i + 1).drop_last() =~= ids@.take(i as int));
        }
        if let Some(u) = track_path(lib, ids[i]) {
            proof {
                views_push(r@, u);
            }
            r.push(u);
        }
    }
    proof {
        take_all(ids@);
    }
    r
}

/// Deletes tracks at a given moment, as the device whose uid becomes `fresh` if it
/// had none. The result names the files that belonged to them.
pub fn delete_tracks_at(lib: &mut Library, ids: &[i64], now: i64, fresh: &str) -> (r: Vec<String>)
    ensures
        final(lib)@ == tracks_deleted(old(lib)@, ids@, now, fresh@),
        views(r@) == picked(ids@, track_path_of(old(lib)@)),
        old(lib)@.wf() ==> final(lib)@.wf(),
{
    let ghost l0 = lib@;
    let paths: Vec<String> = pick_paths(lib, ids);
    let uids: Vec<String> = pick_uids(lib, ids);
    proof {
        if l0.wf() {
            without_tracks_wf(l0, ids@);
        }
    }
    let keep_track = |t: &TrackRow| -> (b: bool)
        ensures
            b == !ids@.contains(t.id),
        { !has_id(ids, t.id) };
    retain(&mut lib.tracks, keep_track, Ghost(|t: TrackRowView| !ids@.contains(t.id)));
    let keep_member = |m: &PlaylistTrackRow| -> (b: bool)
        ensures
            b == !ids@.contains(m.track_id),
        { !has_id(ids, m.track_id) };
    retain(
        &mut lib.playlist_tracks,
        keep_member,
        Ghost(|m: PlaylistTrackRowView| !ids@.contains(m.track_id)),
    );
    proof {
        assert(lib@ == without_tracks(l0, ids@));
    }
    record_all(lib, "track", &uids, now, fresh);
    paths
}

/// Deletes tracks. The result names the files that belonged to them.
pub fn delete_tracks(lib: &mut Library, ids: &[i64]) -> (r: Vec<String>)
    ensures
        exists|now: i64, fresh: Seq<char>|
            is_clock_time(now) && is_uid_text(fresh) && final(lib)@ == #[trigger] tracks_deleted(
                old(lib)@,
                ids@,
                now,
                fresh,
            ),
        views(r@) == picked(ids@, track_path_of(old(lib)@)),
        old(lib)@.wf() ==> final(lib)@.wf(),
{
    let now: i64 = now_ms();
    let fresh: String = new_uid();
    delete_tracks_at(lib, ids, now, fresh.as_str())
}

/// A deleted track leaves its tombstone, and is in no playlist any more.
pub proof fn deleting_a_track_is_recorded(
    l: LibraryView,
    ids: Seq<i64>,
    now: i64,
    fresh: Seq<char>,
    i: int,
)
    requires
        0 <= i < ids.len(),
        track_uid_of(l)(ids[i]) is Some,
    ensures
        ({
            let m = tracks_deleted(l, ids, now, fresh);
            &&& !is_track(m.tracks, ids[i])
            &&& forall|j: int|
                0 <= j < m.playlist_tracks.len() ==> (#[trigger] m.playlist_tracks[j]).track_id
                    != ids[i]
            &&& exists|j: int|
                0 <= j < m.tombstones.len() && (#[trigger] m.tombstones[j]).entity == "track"@
                    && m.tombstones[j].uid == track_uid_of(l)(ids[i])->0
                    && m.tombstones[j].deleted_at == now
        }),
{
    let uids = picked(ids, track_uid_of(l));
    recording_keeps_the_rest(without_tracks(l, ids), "track"@, uids, now, fresh);
    filter_is_part(l.tracks, |t: TrackRowView| !ids.contains(t.id));
    filter_is_part(l.playlist_tracks, |m: PlaylistTrackRowView| !ids.contains(m.track_id));
    assert(ids.contains(ids[i]));
    picked_holds(ids, track_uid_of(l), i);
    let k = choose|k: int| 0 <= k < uids.len() && uids[k] == track_uid_of(l)(ids[i])->0;
    crate::db::recorded_deletions_are_found(without_tracks(l, ids), "track"@, uids, now, fresh, k);
}

// ---------------------------------------------------------------------------
// What is in a playlist
// ---------------------------------------------------------------------------

pub open spec fn has_track_id(track: i64) -> spec_fn(PlaylistTrackRowView) -> bool {
    |m: PlaylistTrackRowView| m.track_id == track
}

/// The playlists that a track is in.
pub fn track_playlists(lib: &Library, track_id: i64) -> (r: Vec<i64>)
    ensures
        r@ == lib@.playlist_tracks.filter(has_track_id(track_id)).map_values(
            |m: PlaylistTrackRowView| m.playlist_id,
        ),
{
    let mut r: Vec<i64> = Vec::new();
    let ghost all = lib@.playlist_tracks;
    let ghost p = has_track_id(track_id);
    let ghost f = |m: PlaylistTrackRowView| m.playlist_id;
    proof {
        take_none_filter(all, p);
        assert(r@ =~= all.take(0).filter(p).map_values(f));
    }
    for i in 0..lib.playlist_tracks.len()
        invariant
            all == lib@.playlist_tracks,
            p == has_track_id(track_id),
            f == (|m: PlaylistTrackRowView| m.playlist_id),
            r@ == all.take(i as int).filter(p).map_values(f),
    {
        let m: &PlaylistTrackRow = &lib.playlist_tracks[i];
        let ghost kept = all.take(i as int).filter(p);
        proof {
            filter_step(all, p, i as int);
            assert(all[i as int] == m@);
        }
        if m.track_id == track_id {
            proof {
                assert(kept.push(m@).map_values(f) =~= kept.map_values(f).push(m.playlist_id));
            }
            r.push(m.playlist_id);
        }
    }
    proof {
        take_all(all);
    }
    r
}

pub open spec fn by_rank() -> spec_fn(PlaylistTrackRowView, PlaylistTrackRowView) -> bool {
    |a: PlaylistTrackRowView, b: PlaylistTrackRowView| before(a.rank, b.rank)
}

/// The places of a playlist, in order.
pub open spec fn places(
    members: Seq<PlaylistTrackRowView>,
    playlist: i64,
) -> Seq<PlaylistTrackRowView> {
    ordered(members.filter(placed_in(playlist)), by_rank())
}

pub(crate) fn places_of(lib: &Library, playlist: i64) -> (r: Vec<PlaylistTrackRow>)
    ensures
        views(r@) == places(lib@.playlist_tracks, playlist),
{
    let mut r: Vec<PlaylistTrackRow> = Vec::new();
    let ghost all = lib@.playlist_tracks;
    let ghost p = placed_in(playlist);
    proof {
        take_none_filter(all, p);
        assert(views(r@) =~= all.take(0).filter(p));
    }
    for i in 0..lib.playlist_tracks.len()
        invariant
            all == lib@.playlist_tracks,
            p == placed_in(playlist),
            views(r@) == all.take(i as int).filter(p),
    {
        proof {
            filter_step(all, p, i as int);
        }
        if lib.playlist_tracks[i].playlist_id == playlist {
            let m: PlaylistTrackRow = lib.playlist_tracks[i].clone();
            proof {
                views_push(r@, m);
            }
            r.push(m);
        }
    }
    proof {
        take_all(all);
    }
    let lt = |a: &PlaylistTrackRow, b: &PlaylistTrackRow| -> (c: bool)
        ensures
            c == before(a.rank@, b.rank@),
        { is_before(a.rank.as_str(), b.rank.as_str()) };
    sort(r, lt, Ghost(by_rank()))
}

/// The tracks of a playlist, in its order.
pub open spec fn tracks_in(l: LibraryView, playlist: i64) -> Seq<TrackView> {
    places(l.playlist_tracks, playlist).map_values(
        |m: PlaylistTrackRowView| track_of(row_with(l.tracks, track_id(), m.track_id)->0),
    )
}

pub(crate) proof fn places_are_members(members: Seq<PlaylistTrackRowView>, playlist: i64)
    ensures
        forall|i: int|
            0 <= i < places(members, playlist).len() ==> members.contains(
                #[trigger] places(members, playlist)[i],
            ) && places(members, playlist)[i].playlist_id == playlist,
        places(members, playlist).to_multiset() == members.filter(
            placed_in(playlist),
        ).to_multiset(),
        crate::table::in_order(places(members, playlist), by_rank()),
{
    broadcast use vstd::seq_lib::group_to_multiset_ensures;

    let s = members.filter(placed_in(playlist));
    by_rank_is_an_order();
    crate::table::ordered_is_in_order(s, by_rank());
    filter_is_part(members, placed_in(playlist));
    let o = places(members, playlist);
    assert forall|i: int| 0 <= i < o.len() implies members.contains(#[trigger] o[i])
        && o[i].playlist_id == playlist by {
        assert(o.contains(o[i]));
        assert(o.to_multiset().count(o[i]) > 0);
        assert(s.to_multiset().count(o[i]) > 0);
        assert(s.contains(o[i]));
        let k = choose|k: int| 0 <= k < s.len() && s[k] == o[i];
        assert(members.contains(s[k]));
    }
}

pub(crate) proof fn by_rank_is_an_order()
    ensures
        crate::table::weak_order(by_rank()),
{
    let lt = by_rank();
    assert forall|a: PlaylistTrackRowView, b: PlaylistTrackRowView| #[trigger]
        lt(a, b) implies !lt(b, a) by {
        crate::text::before_asymmetric(a.rank, b.rank);
    }
    assert forall|a: PlaylistTrackRowView, b: PlaylistTrackRowView, c: PlaylistTrackRowView|
        !#[trigger] lt(b, a) && !#[trigger] lt(c, b) implies !lt(c, a) by {
        crate::text::before_total(a.rank, b.rank);
        crate::text::before_total(b.rank, c.rank);
        if before(c.rank, a.rank) {
            crate::text::before_asymmetric(a.rank, c.rank);
            if before(a.rank, b.rank) {
                crate::text::before_transitive(c.rank, a.rank, b.rank);
            }
        }
    }
}

/// The tracks of a playlist, in its order.
pub fn playlist_tracks(lib: &Library, playlist_id: i64) -> (r: Vec<Track>)
    requires
        lib@.wf(),
    ensures
        views(r@) == tracks_in(lib@, playlist_id),
{
    let rows: Vec<PlaylistTrackRow> = places_of(lib, playlist_id);
    let ghost v = views(rows@);
    let ghost goal = tracks_in(lib@, playlist_id);
    let mut r: Vec<Track> = Vec::new();
    proof {
        places_are_members(lib@.playlist_tracks, playlist_id);
        assert(goal.len() == v.len());
    }
    for i in 0..rows.len()
        invariant
            lib@.wf(),
            v == views(rows@),
            v == places(lib@.playlist_tracks, playlist_id),
            goal == tracks_in(lib@, playlist_id),
            goal.len() == v.len(),
            forall|i: int|
                0 <= i < v.len() ==> lib@.playlist_tracks.contains(#[trigger] v[i]),
            views(r@) == goal.take(i as int),
    {
        let m: &PlaylistTrackRow = &rows[i];
        proof {
            assert(v[i as int] == m@);
            let k = choose|k: int|
                0 <= k < lib@.playlist_tracks.len() && lib@.playlist_tracks[k] == m@;
            assert(is_track(lib@.tracks, lib@.playlist_tracks[k].track_id));
        }
        if let Some(j) = find_track(&lib.tracks, m.track_id) {
            let t: Track = show(&lib.tracks[j]);
            proof {
                views_push(r@, t);
                assert(goal[i as int] == t@);
                assert(goal.take(i + 1) =~= goal.take(i as int).push(t@));
            }
            r.push(t);
        }
    }
    proof {
        take_all(goal);
    }
    r
}

// ---------------------------------------------------------------------------
// Adding and removing
// ---------------------------------------------------------------------------

/// The track is in the playlist.
pub open spec fn is_member(
    members: Seq<PlaylistTrackRowView>,
    playlist: i64,
    track: i64,
) -> bool {
    exists|i: int|
        0 <= i < members.len() && (#[trigger] members[i]).playlist_id == playlist
            && members[i].track_id == track
}

fn member(members: &Vec<PlaylistTrackRow>, playlist: i64, track: i64) -> (r: bool)
    ensures
        r == is_member(views(members@), playlist, track),
{
    for i in 0..members.len()
        invariant
            forall|j: int|
                0 <= j < i ==> !((#[trigger] views(members@)[j]).playlist_id == playlist && views(
                    members@,
                )[j].track_id == track),
    {
        if members[i].playlist_id == playlist && members[i].track_id == track {
            proof {
                assert(views(members@)[i as int].playlist_id == playlist);
            }
            return true;
        }
    }
    false
}

/// The highest rank in a playlist.
pub open spec fn last_place(
    members: Seq<PlaylistTrackRowView>,
    playlist: i64,
) -> Option<Seq<char>> {
    greatest(
        members.filter(placed_in(playlist)).map_values(|m: PlaylistTrackRowView| m.rank),
    )
}

fn highest_place(members: &Vec<PlaylistTrackRow>, playlist: i64) -> (r: Option<String>)
    ensures
        opt_view(r) == last_place(views(members@), playlist),
{
    let ghost all = views(members@);
    let ghost p = placed_in(playlist);
    let ghost f = |m: PlaylistTrackRowView| m.rank;
    let mut best: Option<String> = None;
    proof {
        take_none_filter(all, p);
        assert(all.take(0).filter(p).map_values(f) =~= Seq::empty());
    }
    for i in 0..members.len()
        invariant
            all == views(members@),
            p == placed_in(playlist),
            f == (|m: PlaylistTrackRowView| m.rank),
            opt_view(best) == greatest(all.take(i as int).filter(p).map_values(f)),
    {
        let row: &PlaylistTrackRow = &members[i];
        let ghost kept = all.take(i as int).filter(p);
        proof {
            filter_step(all, p, i as int);
            assert(all[i as int] == row@);
        }
        if row.playlist_id == playlist {
            proof {
                assert(kept.push(row@).map_values(f) =~= kept.map_values(f).push(row.rank@));
                assert(kept.map_values(f).push(row.rank@).drop_last() =~= kept.map_values(f));
            }
            let higher: bool = match &best {
                Some(b) => is_before(b.as_str(), row.rank.as_str()),
                None => true,
            };
            if higher {
                best = Some(row.rank.clone());
            }
        }
    }
    proof {
        take_all(all);
    }
    best
}

/// The places and the last rank handed out, once the tracks were put at the end
/// one after another. A track that is in already is passed over.
pub open spec fn appended(
    members: Seq<PlaylistTrackRowView>,
    playlist: i64,
    ids: Seq<i64>,
    now: i64,
) -> (Seq<PlaylistTrackRowView>, Option<Seq<char>>)
    decreases ids.len(),
{
    if ids.len() == 0 {
        (members, last_place(members, playlist))
    } else {
        let (so_far, last) = appended(members, playlist, ids.drop_last(), now);
        if is_member(so_far, playlist, ids.last()) {
            (so_far, last)
        } else {
            let rank = rank_between(last, None);
            (
                so_far.push(
                    PlaylistTrackRowView {
                        playlist_id: playlist,
                        track_id: ids.last(),
                        rank,
                        added_at: now,
                    },
                ),
                Some(rank),
            )
        }
    }
}

/// Every track is in the playlist already, or both it and the playlist exist.
pub open spec fn can_place(l: LibraryView, playlist: i64, ids: Seq<i64>) -> bool {
    forall|i: int|
        0 <= i < ids.len() ==> is_member(l.playlist_tracks, playlist, #[trigger] ids[i]) || (
        is_playlist(l.playlists, playlist) && is_track(l.tracks, ids[i]))
}

/// The names under which tombstones speak of those tracks in that playlist.
pub open spec fn keys_in(l: LibraryView, playlist: i64, ids: Seq<i64>) -> Seq<Seq<char>> {
    match playlist_uid_of(l, playlist) {
        Some(pu) => picked(ids, track_uid_of(l)).map_values(|tu: Seq<char>| pair_key_of(pu, tu)),
        None => Seq::empty(),
    }
}

pub open spec fn not_lifted(keys: Seq<Seq<char>>) -> spec_fn(TombstoneRowView) -> bool {
    |t: TombstoneRowView| !(t.entity == "playlist_track"@ && keys.contains(t.uid))
}

/// The library once the tracks were added at the end of the playlist: those that
/// were not in it come last, in their order; the playlist counts as changed, and
/// no tombstone of the pairs is left.
pub open spec fn tracks_added(l: LibraryView, playlist: i64, ids: Seq<i64>, now: i64) -> LibraryView {
    LibraryView {
        playlist_tracks: appended(l.playlist_tracks, playlist, ids, now).0,
        playlists: touched(l.playlists, playlist, now),
        tombstones: l.tombstones.filter(not_lifted(keys_in(l, playlist, ids))),
        ..l
    }
}

proof fn appended_wf(l: LibraryView, playlist: i64, ids: Seq<i64>, now: i64)
    requires
        l.wf(),
        can_place(l, playlist, ids),
    ensures
        distinct(appended(l.playlist_tracks, playlist, ids, now).0, pair_of()),
        members_exist(appended(l.playlist_tracks, playlist, ids, now).0, l.playlists, l.tracks),
        l.playlist_tracks.len() <= appended(l.playlist_tracks, playlist, ids, now).0.len(),
        appended(l.playlist_tracks, playlist, ids, now).0.take(l.playlist_tracks.len() as int)
            == l.playlist_tracks,
    decreases ids.len(),
{
    let ms = l.playlist_tracks;
    if ids.len() == 0 {
        assert(ms.take(ms.len() as int) =~= ms);
    } else {
        let head = ids.drop_last();
        assert forall|i: int| 0 <= i < head.len() implies is_member(ms, playlist, #[trigger] head[i])
            || (is_playlist(l.playlists, playlist) && is_track(l.tracks, head[i])) by {
            assert(head[i] == ids[i]);
        }
        appended_wf(l, playlist, head, now);
        let (so_far, last) = appended(ms, playlist, head, now);
        if !is_member(so_far, playlist, ids.last()) {
            let row = PlaylistTrackRowView {
                playlist_id: playlist,
                track_id: ids.last(),
                rank: rank_between(last, None),
                added_at: now,
            };
            assert forall|i: int| 0 <= i < so_far.len() implies pair_of()(#[trigger] so_far[i])
                != pair_of()(row) by {}
            distinct_push(so_far, row, pair_of());
            assert(ids[ids.len() - 1] == ids.last());
            if is_member(ms, playlist, ids.last()) {
                let k = choose|k: int|
                    0 <= k < ms.len() && (#[trigger] ms[k]).playlist_id == playlist && ms[k].track_id
                        == ids.last();
                assert(so_far.take(ms.len() as int)[k] == ms[k]);
                assert(so_far[k].playlist_id == playlist);
            }
            assert(so_far.push(row).take(ms.len() as int) =~= so_far.take(ms.len() as int));
        }
    }
}

proof fn tracks_added_wf(l: LibraryView, playlist: i64, ids: Seq<i64>, now: i64)
    requires
        l.wf(),
        can_place(l, playlist, ids),
    ensures
        tracks_added(l, playlist, ids, now).wf(),
{
    appended_wf(l, playlist, ids, now);
    let m = LibraryView { playlist_tracks: appended(l.playlist_tracks, playlist, ids, now).0, ..l };
    assert(m.wf());
    touched_wf(m, playlist, now);
    distinct_filter(l.tombstones, not_lifted(keys_in(l, playlist, ids)), tombstone_key());
}

fn keys_for(lib: &Library, playlist: i64, ids: &[i64]) -> (r: Vec<String>)
    ensures
        views(r@) == keys_in(lib@, playlist, ids@),
{
    let mut r: Vec<String> = Vec::new();
    if let Some(pu) = playlist_uid(lib, playlist) {
        let uids: Vec<String> = pick_uids(lib, ids);
        let ghost f = |tu: Seq<char>| pair_key_of(pu@, tu);
        let ghost goal = views(uids@).map_values(f);
        for i in 0..uids.len()
            invariant
                f == (|tu: Seq<char>| pair_key_of(pu@, tu)),
                goal == views(uids@).map_values(f),
                views(r@) == goal.take(i as int),
        {
            let key: String = pair_key(pu.as_str(), uids[i].as_str());
            proof {
                views_push(r@, key);
                assert(goal.take(i + 1) =~= goal.take(i as int).push(key@));
            }
            r.push(key);
        }
        proof {
            take_all(goal);
        }
    } else {
        proof {
            assert(views(r@) =~= Seq::empty());
        }
    }
    r
}

pub(crate) fn has_text(texts: &Vec<String>, text: &str) -> (r: bool)
    ensures
        r == views(texts@).contains(text@),
{
    for i in 0..texts.len()
        invariant
            forall|j: int| 0 <= j < i ==> views(texts@)[j] != text@,
    {
        if same(texts[i].as_str(), text) {
            proof {
                assert(views(texts@)[i as int] == text@);
            }
            return true;
        }
    }
    false
}

/// Puts tracks at the end of a playlist, at a given moment; how many were new to
/// it. Refused, with nothing changed, where a track or the playlist is missing.
pub fn add_tracks_to_playlist_at(
    lib: &mut Library,
    playlist_id: i64,
    track_ids: &[i64],
    now: i64,
) -> (r: Result<usize, DbError>)
    ensures
        r is Ok <==> can_place(old(lib)@, playlist_id, track_ids@),
        r is Ok ==> final(lib)@ == tracks_added(old(lib)@, playlist_id, track_ids@, now) && r->Ok_0
            == final(lib)@.playlist_tracks.len() - old(lib)@.playlist_tracks.len(),
        r is Err ==> r->Err_0 == DbError::Constraint && final(lib)@ == old(lib)@,
        old(lib)@.wf() ==> final(lib)@.wf(),
{
    let ghost l0 = lib@;
    let there: bool = find_playlist(&lib.playlists, playlist_id).is_some();
    proof {
        first_where_is_first(lib@.playlists, keyed(crate::library::playlist_id(), playlist_id));
        if there {
            assert(is_playlist(lib@.playlists, playlist_id));
        }
    }
    for i in 0..track_ids.len()
        invariant
            lib@ == l0,
            *lib == *old(lib),
            there == is_playlist(l0.playlists, playlist_id),
            forall|j: int|
                0 <= j < i ==> is_member(l0.playlist_tracks, playlist_id, #[trigger] track_ids@[j])
                    || (is_playlist(l0.playlists, playlist_id) && is_track(
                    l0.tracks,
                    track_ids@[j],
                )),
    {
        let ok: bool = member(&lib.playlist_tracks, playlist_id, track_ids[i]) || (there
            && find_track(&lib.tracks, track_ids[i]).is_some());
        if !ok {
            proof {
                assert(!can_place(l0, playlist_id, track_ids@)) by {
                    let x = track_ids@[i as int];
                }
            }
            return Err(DbError::Constraint);
        }
    }
    let keys: Vec<String> = keys_for(lib, playlist_id, track_ids);
    proof {
        if l0.wf() {
            tracks_added_wf(l0, playlist_id, track_ids@, now);
        }
    }
    let added: usize = append_places(&mut lib.playlist_tracks, playlist_id, track_ids, now);
    touch_playlist(&mut lib.playlists, playlist_id, now);
    let keep = |t: &TombstoneRow| -> (b: bool)
        ensures
            b == !(t.entity@ == "playlist_track"@ && views(keys@).contains(t.uid@)),
        { !(same(t.entity.as_str(), "playlist_track") && has_text(&keys, t.uid.as_str())) };
    retain(&mut lib.tombstones, keep, Ghost(not_lifted(keys_in(l0, playlist_id, track_ids@))));
    Ok(added)
}

fn append_places(
    members: &mut Vec<PlaylistTrackRow>,
    playlist: i64,
    ids: &[i64],
    now: i64,
) -> (added: usize)
    ensures
        views(final(members)@) == appended(views(old(members)@), playlist, ids@, now).0,
        added == final(members)@.len() - old(members)@.len(),
{
    let ghost m0 = views(members@);
    let mut last: Option<String> = highest_place(members, playlist);
    let mut added: usize = 0;
    proof {
        assert(ids@.take(0) =~= Seq::empty());
    }
    let n: usize = ids.len();
    for i in 0..n
        invariant
            n == ids@.len(),
            added <= i,
            added == members@.len() - m0.len(),
            views(members@) == appended(m0, playlist, ids@.take(i as int), now).0,
            opt_view(last) == appended(m0, playlist, ids@.take(i as int), now).1,
    {
        proof {
            assert(ids@.take(i + 1).drop_last() =~= ids@.take(i as int));
            assert(ids@.take(i + 1).last() == ids@[i as int]);
        }
        if !member(members, playlist, ids[i]) {
            let prev: Option<&str> = match &last {
                Some(s) => Some(s.as_str()),
                None => None,
            };
            let rank: String = between(prev, None);
            let row: PlaylistTrackRow = PlaylistTrackRow {
                playlist_id: playlist,
                track_id: ids[i],
                rank: rank.clone(),
                added_at: now,
            };
            proof {
                views_push(members@, row);
            }
            members.push(row);
            last = Some(rank);
            added = added + 1;
        }
    }
    proof {
        take_all(ids@);
    }
    added
}

/// Puts tracks at the end of a playlist; how many were new to it.
pub fn add_tracks_to_playlist(
    lib: &mut Library,
    playlist_id: i64,
    track_ids: &[i64],
) -> (r: Result<usize, DbError>)
    ensures
        r is Ok <==> can_place(old(lib)@, playlist_id, track_ids@),
        r is Ok ==> r->Ok_0 == final(lib)@.playlist_tracks.len() - old(lib)@.playlist_tracks.len()
            && exists|now: i64|
            is_clock_time(now) && final(lib)@ == #[trigger] tracks_added(
                old(lib)@,
                playlist_id,
                track_ids@,
                now,
            ),
        r is Err ==> r->Err_0 == DbError::Constraint && final(lib)@ == old(lib)@,
        old(lib)@.wf() ==> final(lib)@.wf(),
{
    let now: i64 = now_ms();
    add_tracks_to_playlist_at(lib, playlist_id, track_ids, now)
}

/// Adding again what is in a playlist already changes nothing there.
pub proof fn adding_again_adds_nothing(
    members: Seq<PlaylistTrackRowView>,
    playlist: i64,
    ids: Seq<i64>,
    now: i64,
)
    requires
        forall|i: int| 0 <= i < ids.len() ==> is_member(members, playlist, #[trigger] ids[i]),
    ensures
        appended(members, playlist, ids, now).0 == members,
    decreases ids.len(),
{
    if ids.len() > 0 {
        let head = ids.drop_last();
        assert forall|i: int| 0 <= i < head.len() implies is_member(
            members,
            playlist,
            #[trigger] head[i],
        ) by {
            assert(head[i] == ids[i]);
        }
        adding_again_adds_nothing(members, playlist, head, now);
        assert(is_member(members, playlist, ids[ids.len() - 1]));
    }
}

/// After adding, every track is in the playlist, what was there before keeps its
/// place, and no tombstone speaks against any of the pairs.
pub proof fn added_tracks_are_in(
    l: LibraryView,
    playlist: i64,
    ids: Seq<i64>,
    now: i64,
    i: int,
)
    requires
        l.wf(),
        can_place(l, playlist, ids),
        0 <= i < ids.len(),
    ensures
        ({
            let m = tracks_added(l, playlist, ids, now);
            &&& is_member(m.playlist_tracks, playlist, ids[i])
            &&& m.playlist_tracks.take(l.playlist_tracks.len() as int) == l.playlist_tracks
            &&& forall|j: int|
                0 <= j < m.tombstones.len() ==> !((#[trigger] m.tombstones[j]).entity
                    == "playlist_track"@ && keys_in(l, playlist, ids).contains(
                    m.tombstones[j].uid,
                ))
        }),
{
    appended_wf(l, playlist, ids, now);
    appended_holds(l.playlist_tracks, playlist, ids, now, i);
    filter_is_part(l.tombstones, not_lifted(keys_in(l, playlist, ids)));
}

proof fn appended_holds(
    members: Seq<PlaylistTrackRowView>,
    playlist: i64,
    ids: Seq<i64>,
    now: i64,
    i: int,
)
    requires
        0 <= i < ids.len(),
    ensures
        is_member(appended(members, playlist, ids, now).0, playlist, ids[i]),
    decreases ids.len(),
{
    let (so_far, last) = appended(members, playlist, ids.drop_last(), now);
    let all = appended(members, playlist, ids, now).0;
    if i == ids.len() - 1 {
        if !is_member(so_far, playlist, ids.last()) {
            assert(all[so_far.len() as int].playlist_id == playlist);
        }
    } else {
        appended_holds(members, playlist, ids.drop_last(), now, i);
        let k = choose|k: int|
            0 <= k < so_far.len() && (#[trigger] so_far[k]).playlist_id == playlist
                && so_far[k].track_id == ids[i];
        assert(all[k] == so_far[k]);
    }
}

/// The places that stay when tracks leave a playlist.
pub open spec fn not_removed(playlist: i64, ids: Seq<i64>) -> spec_fn(PlaylistTrackRowView) -> bool {
    |m: PlaylistTrackRowView| !(m.playlist_id == playlist && ids.contains(m.track_id))
}

/// The library once tracks were taken out of a playlist. Nobody else's rank
/// changes, the playlist counts as changed, and each pair has its tombstone.
pub open spec fn tracks_removed(
    l: LibraryView,
    playlist: i64,
    ids: Seq<i64>,
    now: i64,
    fresh: Seq<char>,
) -> LibraryView {
    all_recorded(
        LibraryView {
            playlist_tracks: l.playlist_tracks.filter(not_removed(playlist, ids)),
            playlists: touched(l.playlists, playlist, now),
            ..l
        },
        "playlist_track"@,
        keys_in(l, playlist, ids),
        now,
        fresh,
    )
}

pub(crate) proof fn members_filter_wf(l: LibraryView, p: spec_fn(PlaylistTrackRowView) -> bool)
    requires
        l.wf(),
    ensures
        (LibraryView { playlist_tracks: l.playlist_tracks.filter(p), ..l }).wf(),
{
    distinct_filter(l.playlist_tracks, p, pair_of());
    filter_is_part(l.playlist_tracks, p);
    let ms = l.playlist_tracks.filter(p);
    assert forall|i: int| 0 <= i < ms.len() implies is_playlist(
        l.playlists,
        (#[trigger] ms[i]).playlist_id,
    ) && is_track(l.tracks, ms[i].track_id) by {
        let k = choose|k: int| 0 <= k < l.playlist_tracks.len() && l.playlist_tracks[k] == ms[i];
        assert(is_playlist(l.playlists, l.playlist_tracks[k].playlist_id));
    }
}

/// Takes tracks out of a playlist at a given moment, as the device whose uid
/// becomes `fresh` if it had none.
pub fn remove_tracks_from_playlist_at(
    lib: &mut Library,
    playlist_id: i64,
    track_ids: &[i64],
    now: i64,
    fresh: &str,
)
    ensures
        final(lib)@ == tracks_removed(old(lib)@, playlist_id, track_ids@, now, fresh@),
        old(lib)@.wf() ==> final(lib)@.wf(),
{
    let ghost l0 = lib@;
    let keys: Vec<String> = keys_for(lib, playlist_id, track_ids);
    let ghost p = not_removed(playlist_id, track_ids@);
    proof {
        if l0.wf() {
            members_filter_wf(l0, p);
            touched_wf(
                LibraryView { playlist_tracks: l0.playlist_tracks.filter(p), ..l0 },
                playlist_id,
                now,
            );
        }
    }
    let keep = |m: &PlaylistTrackRow| -> (b: bool)
        ensures
            b == !(m.playlist_id == playlist_id && track_ids@.contains(m.track_id)),
        { !(m.playlist_id == playlist_id && has_id(track_ids, m.track_id)) };
    retain(&mut lib.playlist_tracks, keep, Ghost(p));
    touch_playlist(&mut lib.playlists, playlist_id, now);
    record_all(lib, "playlist_track", &keys, now, fresh);
}

/// Takes tracks out of a playlist.
pub fn remove_tracks_from_playlist(lib: &mut Library, playlist_id: i64, track_ids: &[i64])
    ensures
        exists|now: i64, fresh: Seq<char>|
            is_clock_time(now) && is_uid_text(fresh) && final(lib)@ == #[trigger] tracks_removed(
                old(lib)@,
                playlist_id,
                track_ids@,
                now,
                fresh,
            ),
        old(lib)@.wf() ==> final(lib)@.wf(),
{
    let now: i64 = now_ms();
    let fresh: String = new_uid();
    remove_tracks_from_playlist_at(lib, playlist_id, track_ids, now, fresh.as_str());
}

/// Taking tracks out leaves every other place as it was, with its rank.
pub proof fn removing_keeps_the_others(
    l: LibraryView,
    playlist: i64,
    ids: Seq<i64>,
    now: i64,
    fresh: Seq<char>,
    i: int,
)
    requires
        0 <= i < l.playlist_tracks.len(),
    ensures
        ({
            let m = tracks_removed(l, playlist, ids, now, fresh);
            let row = l.playlist_tracks[i];
            m.playlist_tracks.contains(row) <==> !(row.playlist_id == playlist && ids.contains(
                row.track_id,
            ))
        }),
{
    let p = not_removed(playlist, ids);
    let without = LibraryView {
        playlist_tracks: l.playlist_tracks.filter(p),
        playlists: touched(l.playlists, playlist, now),
        ..l
    };
    recording_keeps_the_rest(
        without,
        "playlist_track"@,
        keys_in(l, playlist, ids),
        now,
        fresh,
    );
    filter_is_part(l.playlist_tracks, p);
    if p(l.playlist_tracks[i]) {
        l.playlist_tracks.lemma_filter_contains(p, i);
    }
}

/// Taking tracks out of a playlist leaves a tombstone for each pair, and putting
/// them back lifts it.
pub proof fn removal_is_recorded_and_reversible(
    l: LibraryView,
    playlist: i64,
    ids: Seq<i64>,
    now: i64,
    fresh: Seq<char>,
    later: i64,
    i: int,
)
    requires
        0 <= i < keys_in(l, playlist, ids).len(),
    ensures
        ({
            let m = tracks_removed(l, playlist, ids, now, fresh);
            let n = tracks_added(m, playlist, ids, later);
            &&& exists|j: int|
                0 <= j < m.tombstones.len() && (#[trigger] m.tombstones[j]).entity
                    == "playlist_track"@ && m.tombstones[j].uid == keys_in(l, playlist, ids)[i]
                    && m.tombstones[j].deleted_at == now
            &&& keys_in(m, playlist, ids) == keys_in(l, playlist, ids)
            &&& forall|j: int|
                0 <= j < n.tombstones.len() ==> !((#[trigger] n.tombstones[j]).entity
                    == "playlist_track"@ && n.tombstones[j].uid == keys_in(l, playlist, ids)[i])
        }),
{
    let p = not_removed(playlist, ids);
    let without = LibraryView {
        playlist_tracks: l.playlist_tracks.filter(p),
        playlists: touched(l.playlists, playlist, now),
        ..l
    };
    let keys = keys_in(l, playlist, ids);
    let m = tracks_removed(l, playlist, ids, now, fresh);
    recording_keeps_the_rest(without, "playlist_track"@, keys, now, fresh);
    crate::db::recorded_deletions_are_found(without, "playlist_track"@, keys, now, fresh, i);
    touching_keeps_uids(l, playlist, now, playlist);
    assert(track_uid_of(m) =~= track_uid_of(l));
    filter_is_part(m.tombstones, not_lifted(keys_in(m, playlist, ids)));
    assert(keys.contains(keys[i]));
}

proof fn touching_keeps_uids(l: LibraryView, touched_id: i64, now: i64, id: i64)
    ensures
        playlist_uid_of(
            LibraryView { playlists: touched(l.playlists, touched_id, now), ..l },
            id,
        ) == playlist_uid_of(l, id),
{
    let t = touched(l.playlists, touched_id, now);
    let k = keyed(crate::library::playlist_id(), id);
    first_where_is_first(l.playlists, k);
    first_where_is_first(t, k);
    assert forall|j: int| 0 <= j < t.len() implies k(#[trigger] t[j]) == k(l.playlists[j]) by {}
    match crate::table::first_where(l.playlists, k) {
        Some(i) => {
            assert forall|j: int| 0 <= j < i implies !k(#[trigger] t[j]) by {
                assert(!k(l.playlists[j]));
            }
            crate::table::first_where_at(t, k, i);
        },
        None => {
            assert forall|j: int| 0 <= j < t.len() implies !k(#[trigger] t[j]) by {
                assert(!k(l.playlists[j]));
            }
        },
    }
}

// ---------------------------------------------------------------------------
// Reordering
// ---------------------------------------------------------------------------

pub open spec fn in_block(ids: Seq<i64>) -> spec_fn(PlaylistTrackRowView) -> bool {
    |m: PlaylistTrackRowView| ids.contains(m.track_id)
}

pub open spec fn out_of_block(ids: Seq<i64>) -> spec_fn(PlaylistTrackRowView) -> bool {
    |m: PlaylistTrackRowView| !ids.contains(m.track_id)
}

/// Where a block goes when it is dropped at `index`: after as many of the tracks
/// that stay as there were before that index.
pub open spec fn slot_at(places: Seq<PlaylistTrackRowView>, ids: Seq<i64>, index: i64) -> nat {
    count(places.take(clamped(index, places.len())), out_of_block(ids))
}

/// `n` ranks in a row, all between `prev` and `next`.
pub open spec fn ranks_between(
    prev: Option<Seq<char>>,
    next: Option<Seq<char>>,
    n: nat,
) -> Seq<Seq<char>>
    decreases n,
{
    if n == 0 {
        Seq::empty()
    } else {
        let earlier = ranks_between(prev, next, (n - 1) as nat);
        earlier.push(
            rank_between(
                if n == 1 {
                    prev
                } else {
                    Some(earlier.last())
                },
                next,
            ),
        )
    }
}

/// The rows of a playlist whose track is among `moving` with their new ranks, and
/// all other rows as they are.
pub open spec fn reranked(
    members: Seq<PlaylistTrackRowView>,
    playlist: i64,
    moving: Seq<i64>,
    ranks: Seq<Seq<char>>,
) -> Seq<PlaylistTrackRowView> {
    members.map_values(|m: PlaylistTrackRowView| rerank(m, playlist, moving, ranks))
}

pub open spec fn is_id(id: i64) -> spec_fn(i64) -> bool {
    |x: i64| x == id
}

pub open spec fn rerank(
    m: PlaylistTrackRowView,
    playlist: i64,
    moving: Seq<i64>,
    ranks: Seq<Seq<char>>,
) -> PlaylistTrackRowView {
    match crate::table::first_where(moving, is_id(m.track_id)) {
        Some(k) => if m.playlist_id == playlist {
            PlaylistTrackRowView { rank: ranks[k], ..m }
        } else {
            m
        },
        None => m,
    }
}

pub open spec fn ids_of(places: Seq<PlaylistTrackRowView>) -> Seq<i64> {
    places.map_values(|m: PlaylistTrackRowView| m.track_id)
}

/// The places once a block was dropped at `index`: the block gets new ranks
/// between those of its new neighbours.
pub open spec fn block_moved(
    members: Seq<PlaylistTrackRowView>,
    playlist: i64,
    ids: Seq<i64>,
    index: i64,
) -> Seq<PlaylistTrackRowView> {
    let now = places(members, playlist);
    let moving = now.filter(in_block(ids));
    let staying = now.filter(out_of_block(ids));
    let slot = slot_at(now, ids, index);
    let prev = if slot > 0 {
        Some(staying[slot - 1].rank)
    } else {
        None
    };
    let next = if slot < staying.len() {
        Some(staying[slot as int].rank)
    } else {
        None
    };
    reranked(members, playlist, ids_of(moving), ranks_between(prev, next, moving.len()))
}

/// The library once a block of tracks was dropped at `index` of a playlist.
pub open spec fn tracks_reordered(
    l: LibraryView,
    playlist: i64,
    ids: Seq<i64>,
    index: i64,
    now: i64,
) -> LibraryView {
    LibraryView {
        playlist_tracks: block_moved(l.playlist_tracks, playlist, ids, index),
        playlists: touched(l.playlists, playlist, now),
        ..l
    }
}

fn rerank_in(
    members: &mut Vec<PlaylistTrackRow>,
    playlist: i64,
    moving: &Vec<i64>,
    ranks: &Vec<String>,
)
    requires
        moving@.len() == ranks@.len(),
    ensures
        views(final(members)@) == reranked(
            views(old(members)@),
            playlist,
            moving@,
            views(ranks@),
        ),
{
    let ghost all = views(members@);
    let n: usize = members.len();
    for i in 0..n
        invariant
            n == all.len(),
            members@.len() == n,
            moving@.len() == ranks@.len(),
            forall|j: int|
                0 <= j < i ==> (#[trigger] members@[j])@ == rerank(
                    all[j],
                    playlist,
                    moving@,
                    views(ranks@),
                ),
            forall|j: int| i <= j < all.len() ==> (#[trigger] members@[j])@ == all[j],
    {
        if members[i].playlist_id == playlist {
            if let Some(k) = position_of(moving, members[i].track_id) {
                members[i].rank = ranks[k].clone();
            }
        }
    }
    proof {
        assert(views(members@) =~= reranked(all, playlist, moving@, views(ranks@)));
    }
}

fn position_of(ids: &Vec<i64>, id: i64) -> (r: Option<usize>)
    ensures
        match r {
            Some(k) => k < ids@.len() && crate::table::first_where(ids@, is_id(id)) == Some(
                k as int,
            ),
            None => crate::table::first_where(ids@, is_id(id)) is None,
        },
{
    for i in 0..ids.len()
        invariant
            forall|j: int| 0 <= j < i ==> !is_id(id)(#[trigger] ids@[j]),
    {
        if ids[i] == id {
            proof {
                crate::table::first_where_at(ids@, is_id(id), i as int);
            }
            return Some(i);
        }
    }
    proof {
        first_where_is_first(ids@, is_id(id));
    }
    None
}

fn make_ranks(prev: Option<String>, next: Option<String>, n: usize) -> (r: Vec<String>)
    ensures
        views(r@) == ranks_between(opt_view(prev), opt_view(next), n as nat),
{
    let mut r: Vec<String> = Vec::new();
    proof {
        assert(views(r@) =~= ranks_between(opt_view(prev), opt_view(next), 0));
    }
    for i in 0..n
        invariant
            r@.len() == i,
            views(r@) == ranks_between(opt_view(prev), opt_view(next), i as nat),
    {
        let below: Option<&str> = if i == 0 {
            match &prev {
                Some(s) => Some(s.as_str()),
                None => None,
            }
        } else {
            Some(r[i - 1].as_str())
        };
        let above: Option<&str> = match &next {
            Some(s) => Some(s.as_str()),
            None => None,
        };
        let rank: String = between(below, above);
        proof {
            views_push(r@, rank);
            if i > 0 {
                assert(views(r@).last() == r@[i - 1]@);
            }
        }
        r.push(rank);
    }
    r
}

/// Moves a block of tracks, in the order they have, to position `index` of the
/// whole list, at a given moment. Only the ranks of the block are written anew.
pub fn reorder_playlist_tracks_at(
    lib: &mut Library,
    playlist_id: i64,
    track_ids: &[i64],
    index: i64,
    now: i64,
)
    ensures
        final(lib)@ == tracks_reordered(old(lib)@, playlist_id, track_ids@, index, now),
        old(lib)@.wf() ==> final(lib)@.wf(),
{
    let ghost l0 = lib@;
    let current: Vec<PlaylistTrackRow> = places_of(lib, playlist_id);
    let ghost v = views(current@);
    let ghost p = in_block(track_ids@);
    let ghost q = out_of_block(track_ids@);
    let end: usize = clamp_index(index, current.len());
    let mut moving: Vec<i64> = Vec::new();
    let mut staying: Vec<String> = Vec::new();
    let mut slot: usize = 0;
    let ghost f = |m: PlaylistTrackRowView| m.rank;
    let ghost g = |m: PlaylistTrackRowView| m.track_id;
    proof {
        take_none_filter(v, p);
        take_none_filter(v, q);
        assert(moving@ =~= v.take(0).filter(p).map_values(g));
        assert(views(staying@) =~= v.take(0).filter(q).map_values(f));
    }
    for i in 0..current.len()
        invariant
            v == views(current@),
            p == in_block(track_ids@),
            q == out_of_block(track_ids@),
            f == (|m: PlaylistTrackRowView| m.rank),
            g == (|m: PlaylistTrackRowView| m.track_id),
            end <= v.len(),
            moving@ == v.take(i as int).filter(p).map_values(g),
            views(staying@) == v.take(i as int).filter(q).map_values(f),
            i <= end ==> slot == count(v.take(i as int), q),
            i > end ==> slot == count(v.take(end as int), q),
            slot <= staying@.len(),
    {
        let m: &PlaylistTrackRow = &current[i];
        let ghost kept_p = v.take(i as int).filter(p);
        let ghost kept_q = v.take(i as int).filter(q);
        proof {
            filter_step(v, p, i as int);
            filter_step(v, q, i as int);
            assert(v[i as int] == m@);
        }
        if has_id(track_ids, m.track_id) {
            proof {
                assert(kept_p.push(m@).map_values(g) =~= kept_p.map_values(g).push(m.track_id));
            }
            moving.push(m.track_id);
        } else {
            let rank: String = m.rank.clone();
            proof {
                views_push(staying@, rank);
                assert(kept_q.push(m@).map_values(f) =~= kept_q.map_values(f).push(rank@));
            }
            staying.push(rank);
            if i < end {
                slot = slot + 1;
            }
        }
    }
    proof {
        take_all(v);
        assert(slot == slot_at(v, track_ids@, index));
        assert(views(staying@) == v.filter(q).map_values(f));
        assert(moving@ == ids_of(v.filter(p)));
    }
    let prev: Option<String> = if slot > 0 {
        Some(staying[slot - 1].clone())
    } else {
        None
    };
    let next: Option<String> = if slot < staying.len() {
        Some(staying[slot].clone())
    } else {
        None
    };
    proof {
        if slot > 0 {
            assert(views(staying@)[slot - 1] == v.filter(q)[slot - 1].rank);
        }
        if slot < staying@.len() {
            assert(views(staying@)[slot as int] == v.filter(q)[slot as int].rank);
        }
    }
    let ranks: Vec<String> = make_ranks(prev, next, moving.len());
    proof {
        ranks_between_len(opt_view(prev), opt_view(next), moving@.len());
        if l0.wf() {
            block_moved_wf(l0, playlist_id, track_ids@, index);
            touched_wf(
                LibraryView {
                    playlist_tracks: block_moved(l0.playlist_tracks, playlist_id, track_ids@, index),
                    ..l0
                },
                playlist_id,
                now,
            );
        }
    }
    rerank_in(&mut lib.playlist_tracks, playlist_id, &moving, &ranks);
    touch_playlist(&mut lib.playlists, playlist_id, now);
}

proof fn ranks_between_len(prev: Option<Seq<char>>, next: Option<Seq<char>>, n: nat)
    ensures
        ranks_between(prev, next, n).len() == n,
    decreases n,
{
    if n > 0 {
        ranks_between_len(prev, next, (n - 1) as nat);
    }
}

proof fn block_moved_wf(l: LibraryView, playlist: i64, ids: Seq<i64>, index: i64)
    requires
        l.wf(),
    ensures
        (LibraryView {
            playlist_tracks: block_moved(l.playlist_tracks, playlist, ids, index),
            ..l
        }).wf(),
{
    let ms = block_moved(l.playlist_tracks, playlist, ids, index);
    assert forall|i: int| 0 <= i < ms.len() implies (#[trigger] ms[i]).playlist_id
        == l.playlist_tracks[i].playlist_id && ms[i].track_id == l.playlist_tracks[i].track_id by {}
    distinct_same_keys(l.playlist_tracks, ms, pair_of());
    assert forall|i: int| 0 <= i < ms.len() implies is_playlist(
        l.playlists,
        (#[trigger] ms[i]).playlist_id,
    ) && is_track(l.tracks, ms[i].track_id) by {
        assert(is_playlist(l.playlists, l.playlist_tracks[i].playlist_id));
    }
}

/// Moves a block of tracks, in the order they have, to position `index` of the
/// whole list.
pub fn reorder_playlist_tracks(lib: &mut Library, playlist_id: i64, track_ids: &[i64], index: i64)
    ensures
        exists|now: i64|
            is_clock_time(now) && final(lib)@ == #[trigger] tracks_reordered(
                old(lib)@,
                playlist_id,
                track_ids@,
                index,
                now,
            ),
        old(lib)@.wf() ==> final(lib)@.wf(),
{
    let now: i64 = now_ms();
    reorder_playlist_tracks_at(lib, playlist_id, track_ids, index, now);
}

/// Reordering writes no row but those of the block: every other place keeps its
/// rank, in this playlist and in all others.
pub proof fn reordering_writes_only_the_block(
    members: Seq<PlaylistTrackRowView>,
    playlist: i64,
    ids: Seq<i64>,
    index: i64,
    i: int,
)
    requires
        0 <= i < members.len(),
        members[i].playlist_id != playlist || !ids.contains(members[i].track_id),
    ensures
        block_moved(members, playlist, ids, index)[i] == members[i],
{
    let now = places(members, playlist);
    let moving = now.filter(in_block(ids));
    filter_is_part(now, in_block(ids));
    let m = members[i];
    first_where_is_first(ids_of(moving), is_id(m.track_id));
    if !ids.contains(m.track_id) {
        match crate::table::first_where(ids_of(moving), is_id(m.track_id)) {
            Some(k) => {
                assert(ids_of(moving)[k] == m.track_id);
                assert(in_block(ids)(moving[k]));
            },
            None => {},
        }
    }
}

/// The ranks of a list of places are fractions, each after the one before.
pub open spec fn ranks_ascend(s: Seq<PlaylistTrackRowView>) -> bool {
    &&& forall|i: int| 0 <= i < s.len() ==> crate::rank::is_fraction((#[trigger] s[i]).rank)
    &&& forall|i: int, j: int|
        0 <= i < j < s.len() ==> before((#[trigger] s[i]).rank, (#[trigger] s[j]).rank)
}

proof fn ascending_filter(s: Seq<PlaylistTrackRowView>, p: spec_fn(PlaylistTrackRowView) -> bool)
    requires
        ranks_ascend(s),
    ensures
        ranks_ascend(s.filter(p)),
    decreases s.len(),
{
    reveal(Seq::filter);
    if s.len() > 0 {
        let t = s.drop_last();
        assert forall|i: int, j: int| 0 <= i < j < t.len() implies before(
            (#[trigger] t[i]).rank,
            (#[trigger] t[j]).rank,
        ) by {
            assert(t[i] == s[i] && t[j] == s[j]);
        }
        assert forall|i: int| 0 <= i < t.len() implies crate::rank::is_fraction(
            (#[trigger] t[i]).rank,
        ) by {
            assert(t[i] == s[i]);
        }
        ascending_filter(t, p);
        filter_is_part(t, p);
        let k = t.filter(p);
        assert forall|i: int| 0 <= i < k.len() implies before((#[trigger] k[i]).rank, s.last().rank) by {
            let n = choose|n: int| 0 <= n < t.len() && t[n] == k[i];
            assert(s[n] == k[i]);
            assert(before(s[n].rank, s[s.len() - 1].rank));
        }
        assert(crate::rank::is_fraction(s[s.len() - 1].rank));
    }
}

proof fn ranks_between_ascend(prev: Option<Seq<char>>, next: Option<Seq<char>>, n: nat)
    requires
        prev is Some ==> crate::rank::is_fraction(prev->0),
        next is Some ==> crate::rank::is_fraction(next->0) && next->0.len() > 0,
        prev is Some && next is Some ==> before(prev->0, next->0),
    ensures
        ranks_between(prev, next, n).len() == n,
        forall|i: int|
            0 <= i < n ==> crate::rank::is_fraction(#[trigger] ranks_between(prev, next, n)[i]) && (
            prev is Some ==> before(prev->0, ranks_between(prev, next, n)[i])) && (next is Some ==> before(
                ranks_between(prev, next, n)[i],
                next->0,
            )),
        forall|i: int, j: int|
            0 <= i < j < n ==> before(
                #[trigger] ranks_between(prev, next, n)[i],
                #[trigger] ranks_between(prev, next, n)[j],
            ),
    decreases n,
{
    if n > 0 {
        let earlier = ranks_between(prev, next, (n - 1) as nat);
        ranks_between_ascend(prev, next, (n - 1) as nat);
        let below = if n == 1 {
            prev
        } else {
            Some(earlier.last())
        };
        let a = match below {
            Some(p) => p,
            None => Seq::empty(),
        };
        if n > 1 {
            assert(earlier.last() == earlier[n - 2]);
        }
        match next {
            Some(x) => {
                crate::rank::midpoint_lies_between(a, x);
                if below is None {
                    assert(before(a, x));
                }
            },
            None => {
                crate::rank::past_comes_after(a);
            },
        }
        let last = rank_between(below, next);
        assert(ranks_between(prev, next, n) == earlier.push(last));
        assert forall|i: int| 0 <= i < n - 1 implies before(#[trigger] earlier[i], last) by {
            if i < n - 2 {
                crate::text::before_transitive(earlier[i], earlier[n - 2], last);
            }
        }
        if prev is Some && n > 1 {
            crate::text::before_transitive(prev->0, earlier[n - 2], last);
        }
    }
}

/// Two lists with the same places, both with ascending ranks, are the same list.
proof fn ascending_is_unique(s: Seq<PlaylistTrackRowView>, t: Seq<PlaylistTrackRowView>)
    requires
        ranks_ascend(s),
        ranks_ascend(t),
        forall|x: PlaylistTrackRowView| s.contains(x) <==> t.contains(x),
    ensures
        s == t,
    decreases s.len(),
{
    if s.len() == 0 {
        if t.len() > 0 {
            assert(t.contains(t[0]));
        }
        assert(s =~= t);
    } else {
        assert(s.contains(s[s.len() - 1]));
        let a = s.last();
        assert(t.contains(a));
        let b = t.last();
        assert(t.contains(t[t.len() - 1]));
        assert(s.contains(b));
        let i = choose|i: int| 0 <= i < s.len() && s[i] == b;
        let j = choose|j: int| 0 <= j < t.len() && t[j] == a;
        if i < s.len() - 1 && j < t.len() - 1 {
            assert(before(s[i].rank, s[s.len() - 1].rank));
            assert(before(t[j].rank, t[t.len() - 1].rank));
            crate::text::before_asymmetric(a.rank, b.rank);
        }
        assert(a == b);
        let s1 = s.drop_last();
        let t1 = t.drop_last();
        assert forall|i: int, j: int| 0 <= i < j < s1.len() implies before(
            (#[trigger] s1[i]).rank,
            (#[trigger] s1[j]).rank,
        ) by {
            assert(s1[i] == s[i] && s1[j] == s[j]);
        }
        assert forall|i: int, j: int| 0 <= i < j < t1.len() implies before(
            (#[trigger] t1[i]).rank,
            (#[trigger] t1[j]).rank,
        ) by {
            assert(t1[i] == t[i] && t1[j] == t[j]);
        }
        assert forall|i: int| 0 <= i < s1.len() implies crate::rank::is_fraction(
            (#[trigger] s1[i]).rank,
        ) by {
            assert(s1[i] == s[i]);
        }
        assert forall|i: int| 0 <= i < t1.len() implies crate::rank::is_fraction(
            (#[trigger] t1[i]).rank,
        ) by {
            assert(t1[i] == t[i]);
        }
        crate::text::before_irreflexive(a.rank);
        assert forall|x: PlaylistTrackRowView| s1.contains(x) implies t1.contains(x) by {
            let i = choose|i: int| 0 <= i < s1.len() && s1[i] == x;
            assert(s[i] == x);
            assert(s.contains(x));
            assert(before(s[i].rank, s[s.len() - 1].rank));
            let j = choose|j: int| 0 <= j < t.len() && t[j] == x;
            assert(t1[j] == x);
        }
        assert forall|x: PlaylistTrackRowView| t1.contains(x) implies s1.contains(x) by {
            let i = choose|i: int| 0 <= i < t1.len() && t1[i] == x;
            assert(t[i] == x);
            assert(t.contains(x));
            assert(before(t[i].rank, t[t.len() - 1].rank));
            let j = choose|j: int| 0 <= j < s.len() && s[j] == x;
            assert(s1[j] == x);
        }
        ascending_is_unique(s1, t1);
        assert(s =~= s1.push(a));
        assert(t =~= t1.push(b));
    }
}

/// The places of a playlist are all different, and hold exactly its rows.
proof fn places_are_distinct(members: Seq<PlaylistTrackRowView>, playlist: i64)
    requires
        distinct(members, pair_of()),
    ensures
        places(members, playlist).no_duplicates(),
        forall|x: PlaylistTrackRowView|
            #![trigger places(members, playlist).contains(x)]
            #![trigger members.contains(x)]
            places(members, playlist).contains(x) <==> (members.contains(x) && x.playlist_id
                == playlist),
{
    broadcast use vstd::seq_lib::group_to_multiset_ensures;

    let p = placed_in(playlist);
    let s = members.filter(p);
    let o = places(members, playlist);
    distinct_filter(members, p, pair_of());
    filter_is_part(members, p);
    places_are_members(members, playlist);
    assert(s.no_duplicates()) by {
        assert forall|i: int, j: int| 0 <= i < s.len() && 0 <= j < s.len() && i != j implies s[i]
            != s[j] by {
            if i < j {
                assert(pair_of()(s[i]) != pair_of()(s[j]));
            } else {
                assert(pair_of()(s[j]) != pair_of()(s[i]));
            }
        }
    }
    s.lemma_multiset_has_no_duplicates();
    assert forall|x: PlaylistTrackRowView| o.to_multiset().contains(x) implies o.to_multiset().count(
        x,
    ) == 1 by {}
    o.lemma_multiset_has_no_duplicates_conv();
    assert forall|x: PlaylistTrackRowView| members.contains(x) && x.playlist_id
        == playlist implies o.contains(x) by {
        let k = choose|k: int| 0 <= k < members.len() && members[k] == x;
        members.lemma_filter_contains(p, k);
        assert(s.contains(x));
        assert(s.to_multiset().count(x) > 0);
        assert(o.to_multiset().count(x) > 0);
    }
    assert forall|x: PlaylistTrackRowView| o.contains(x) implies members.contains(x)
        && x.playlist_id == playlist by {
        let i = choose|i: int| 0 <= i < o.len() && o[i] == x;
        assert(members.contains(o[i]));
    }
}

/// Dropping a block at `index` gives the order that was asked for: the tracks
/// that stay keep theirs, and the block stands, in its own order, after those that
/// were before the index.
pub proof fn reordering_gives_the_order_asked_for(
    members: Seq<PlaylistTrackRowView>,
    playlist: i64,
    ids: Seq<i64>,
    index: i64,
)
    requires
        distinct(members, pair_of()),
        ranks_ascend(places(members, playlist)),
        forall|i: int|
            0 <= i < places(members, playlist).len() ==> (#[trigger] places(
                members,
                playlist,
            )[i]).rank.len() > 0,
    ensures
        ({
            let was = places(members, playlist);
            let staying = was.filter(out_of_block(ids));
            let slot = slot_at(was, ids, index) as int;
            &&& slot <= staying.len()
            &&& ids_of(places(block_moved(members, playlist, ids, index), playlist)) == ids_of(
                staying.take(slot),
            ) + ids_of(was.filter(in_block(ids))) + ids_of(staying.skip(slot))
        }),
{
    let was = places(members, playlist);
    let moving = was.filter(in_block(ids));
    let staying = was.filter(out_of_block(ids));
    let slot = slot_at(was, ids, index) as int;
    let end = clamped(index, was.len());
    filter_prefix_len(was, out_of_block(ids), end);
    ascending_filter(was, in_block(ids));
    ascending_filter(was, out_of_block(ids));
    filter_is_part(was, in_block(ids));
    filter_is_part(was, out_of_block(ids));
    places_are_distinct(members, playlist);
    let prev = if slot > 0 {
        Some(staying[slot - 1].rank)
    } else {
        None
    };
    let next = if slot < staying.len() {
        Some(staying[slot].rank)
    } else {
        None
    };
    assert forall|i: int| 0 <= i < staying.len() implies (#[trigger] staying[i]).rank.len() > 0 by {
        let k = choose|k: int| 0 <= k < was.len() && was[k] == staying[i];
        assert(was[k].rank.len() > 0);
    }
    let ranks = ranks_between(prev, next, moving.len());
    ranks_between_ascend(prev, next, moving.len());
    let fresh = Seq::new(
        moving.len(),
        |k: int| PlaylistTrackRowView { rank: ranks[k], ..moving[k] },
    );
    let goal = staying.take(slot) + fresh + staying.skip(slot);
    let after = block_moved(members, playlist, ids, index);
    let now = places(after, playlist);
    goal_ascends(staying, fresh, slot, ranks);
    assert forall|i: int| 0 <= i < after.len() implies (#[trigger] after[i]).playlist_id
        == members[i].playlist_id && after[i].track_id == members[i].track_id by {}
    distinct_same_keys(members, after, pair_of());
    places_are_distinct(after, playlist);
    places_are_members(after, playlist);
    // A moved row is the one of its track, with the rank of its position.
    assert forall|k: int| 0 <= k < moving.len() implies rerank(
        #[trigger] moving[k],
        playlist,
        ids_of(moving),
        ranks,
    ) == fresh[k] by {
        assert(was.contains(moving[k]));
        assert(members.contains(moving[k]) && moving[k].playlist_id == playlist);
        first_where_is_first(ids_of(moving), is_id(moving[k].track_id));
        let n = crate::table::first_where(ids_of(moving), is_id(moving[k].track_id));
        assert(ids_of(moving)[k] == moving[k].track_id);
        assert(is_id(moving[k].track_id)(ids_of(moving)[k]));
        let j = n->0;
        assert(ids_of(moving)[j] == moving[k].track_id);
        if j != k {
            let a = moving[j];
            let b = moving[k];
            assert(was.contains(moving[j]));
            assert(members.contains(a) && a.playlist_id == playlist);
            same_track_same_place(members, playlist, a, b);
            if j < k {
                assert(before(moving[j].rank, moving[k].rank));
            } else {
                assert(before(moving[k].rank, moving[j].rank));
            }
            crate::text::before_irreflexive(a.rank);
        }
    }
    assert forall|x: PlaylistTrackRowView| now.contains(x) implies goal.contains(x) by {
        assert(after.contains(x));
        let i = choose|i: int| 0 <= i < after.len() && after[i] == x;
        let m = members[i];
        assert(members.contains(m));
        assert(was.contains(m));
        let w = choose|w: int| 0 <= w < was.len() && was[w] == m;
        if ids.contains(m.track_id) {
            was.lemma_filter_contains(in_block(ids), w);
            let k = choose|k: int| 0 <= k < moving.len() && moving[k] == m;
            assert(rerank(moving[k], playlist, ids_of(moving), ranks) == fresh[k]);
            assert(goal[slot + k] == fresh[k]);
        } else {
            reordering_writes_only_the_block(members, playlist, ids, index, i);
            was.lemma_filter_contains(out_of_block(ids), w);
            let k = choose|k: int| 0 <= k < staying.len() && staying[k] == m;
            if k < slot {
                assert(goal[k] == m);
            } else {
                assert(goal[k + fresh.len()] == m);
            }
        }
    }
    assert forall|x: PlaylistTrackRowView| goal.contains(x) implies now.contains(x) by {
        let g = choose|g: int| 0 <= g < goal.len() && goal[g] == x;
        let m = if g < slot {
            staying[g]
        } else if g < slot + fresh.len() {
            moving[g - slot]
        } else {
            staying[g - fresh.len()]
        };
        assert(was.contains(m));
        assert(members.contains(m) && m.playlist_id == playlist);
        let i = choose|i: int| 0 <= i < members.len() && members[i] == m;
        if slot <= g < slot + fresh.len() {
            assert(rerank(moving[g - slot], playlist, ids_of(moving), ranks) == fresh[g - slot]);
            assert(after[i] == x);
        } else {
            assert(out_of_block(ids)(m));
            reordering_writes_only_the_block(members, playlist, ids, index, i);
            assert(after[i] == x);
        }
        assert(after.contains(x));
    }
    // The new places ascend strictly, since no two of them share a rank.
    assert(ranks_ascend(now)) by {
        assert forall|i: int| 0 <= i < now.len() implies crate::rank::is_fraction(
            (#[trigger] now[i]).rank,
        ) by {
            assert(now.contains(now[i]));
            let g = choose|g: int| 0 <= g < goal.len() && goal[g] == now[i];
            assert(crate::rank::is_fraction(goal[g].rank));
        }
        assert forall|i: int, j: int| 0 <= i < j < now.len() implies before(
            (#[trigger] now[i]).rank,
            (#[trigger] now[j]).rank,
        ) by {
            assert(!by_rank()(now[j], now[i]));
            crate::text::before_total(now[i].rank, now[j].rank);
            if now[i].rank == now[j].rank {
                assert(now.contains(now[i]) && now.contains(now[j]));
                let g = choose|g: int| 0 <= g < goal.len() && goal[g] == now[i];
                let h = choose|h: int| 0 <= h < goal.len() && goal[h] == now[j];
                crate::text::before_irreflexive(now[i].rank);
                if g < h {
                    assert(before(goal[g].rank, goal[h].rank));
                } else if h < g {
                    assert(before(goal[h].rank, goal[g].rank));
                }
                assert(now[i] == now[j]);
            }
        }
    }
    ascending_is_unique(now, goal);
    assert(ids_of(goal) =~= ids_of(staying.take(slot)) + ids_of(moving) + ids_of(staying.skip(slot)));
}

proof fn same_track_same_place(
    members: Seq<PlaylistTrackRowView>,
    playlist: i64,
    a: PlaylistTrackRowView,
    b: PlaylistTrackRowView,
)
    requires
        distinct(members, pair_of()),
        members.contains(a),
        members.contains(b),
        a.playlist_id == b.playlist_id,
        a.track_id == b.track_id,
    ensures
        a == b,
{
    let i = choose|i: int| 0 <= i < members.len() && members[i] == a;
    let j = choose|j: int| 0 <= j < members.len() && members[j] == b;
    if i < j {
        assert(pair_of()(members[i]) != pair_of()(members[j]));
    } else if j < i {
        assert(pair_of()(members[j]) != pair_of()(members[i]));
    }
}

proof fn goal_ascends(
    staying: Seq<PlaylistTrackRowView>,
    fresh: Seq<PlaylistTrackRowView>,
    slot: int,
    ranks: Seq<Seq<char>>,
)
    requires
        ranks_ascend(staying),
        0 <= slot <= staying.len(),
        fresh.len() == ranks.len(),
        forall|k: int| 0 <= k < fresh.len() ==> (#[trigger] fresh[k]).rank == ranks[k],
        forall|k: int| 0 <= k < ranks.len() ==> crate::rank::is_fraction(#[trigger] ranks[k]),
        forall|i: int, j: int| 0 <= i < j < ranks.len() ==> before(#[trigger] ranks[i], #[trigger] ranks[j]),
        forall|k: int|
            0 <= k < ranks.len() && slot > 0 ==> before(staying[slot - 1].rank, #[trigger] ranks[k]),
        forall|k: int|
            0 <= k < ranks.len() && slot < staying.len() ==> before(
                #[trigger] ranks[k],
                staying[slot].rank,
            ),
    ensures
        ranks_ascend(staying.take(slot) + fresh + staying.skip(slot)),
{
    let goal = staying.take(slot) + fresh + staying.skip(slot);
    let n = fresh.len() as int;
    assert forall|i: int| 0 <= i < goal.len() implies crate::rank::is_fraction(
        (#[trigger] goal[i]).rank,
    ) by {
        if i < slot {
            assert(goal[i] == staying[i]);
        } else if i < slot + n {
            assert(goal[i] == fresh[i - slot]);
        } else {
            assert(goal[i] == staying[i - n]);
        }
    }
    assert forall|i: int, j: int| 0 <= i < j < goal.len() implies before(
        (#[trigger] goal[i]).rank,
        (#[trigger] goal[j]).rank,
    ) by {
        if j < slot {
            assert(goal[i] == staying[i] && goal[j] == staying[j]);
        } else if j < slot + n {
            assert(goal[j] == fresh[j - slot]);
            assert(fresh[j - slot].rank == ranks[j - slot]);
            if i < slot {
                assert(goal[i] == staying[i]);
                assert(before(staying[slot - 1].rank, ranks[j - slot]));
                if i < slot - 1 {
                    assert(before(staying[i].rank, staying[slot - 1].rank));
                    crate::text::before_transitive(
                        staying[i].rank,
                        staying[slot - 1].rank,
                        ranks[j - slot],
                    );
                }
            } else {
                assert(goal[i] == fresh[i - slot]);
                assert(fresh[i - slot].rank == ranks[i - slot]);
            }
        } else {
            assert(goal[j] == staying[j - n]);
            if i < slot {
                assert(goal[i] == staying[i]);
            } else if i < slot + n {
                assert(goal[i] == fresh[i - slot]);
                assert(fresh[i - slot].rank == ranks[i - slot]);
                assert(before(ranks[i - slot], staying[slot].rank));
                if j - n > slot {
                    assert(before(staying[slot].rank, staying[j - n].rank));
                    crate::text::before_transitive(
                        ranks[i - slot],
                        staying[slot].rank,
                        staying[j - n].rank,
                    );
                }
            } else {
                assert(goal[i] == staying[i - n]);
            }
        }
    }
}

proof fn filter_prefix_len<A>(s: Seq<A>, p: spec_fn(A) -> bool, k: int)
    requires
        0 <= k <= s.len(),
    ensures
        s.take(k).filter(p).len() <= s.filter(p).len(),
    decreases s.len() - k,
{
    if k < s.len() {
        filter_step(s, p, k);
        filter_prefix_len(s, p, k + 1);
    } else {
        take_all(s);
    }
}

} // verus!
