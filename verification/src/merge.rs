//! Taking in what another device changed.
//!
//! - Metadata and playlists: the newest wins. Equal clocks change nothing, so
//!   synchronising twice in a row changes nothing the second time.
//! - Memberships are joined: a track leaves a playlist only by an explicit
//!   tombstone, and adding it again later beats that tombstone.
//! - Deletions are applied as this device's policy says; their tombstones are
//!   kept whatever it says, for they keep what was deleted from being sent back.

use crate::library::{
    distinct_filter, distinct_push, distinct_same_keys, distinct_some_same_keys, is_playlist,
    is_track, pair_of, playlist_uid_key, tombstone_key, track_id, track_path_key, track_uid_key,
    Library, LibraryView, PlaylistRow, PlaylistRowView, PlaylistTrackRow, PlaylistTrackRowView,
    PolicyRow, PolicyRowView, TombstoneRow, TombstoneRowView, TrackRow, TrackRowView,
};
use crate::manifest::{
    has_tombstone_for, key_of, pair_key, playlist_entry_uid, tombstone_entry_key, tombstoned,
    track_entry_uid, Manifest, ManifestView, Membership, MembershipView, PlaylistEntry,
    PlaylistEntryView, Tombstone, TombstoneView, TrackEntry, TrackEntryView,
};
use crate::seqs::{filter_step, take_all, take_none_filter, views, views_push, views_update};
use crate::table::{find, first_where, first_where_is_first, keyed, retain, row_with};
use crate::text::{chars_of, opt_view, same, text_of};
use crate::tracks::{without_tracks, without_tracks_wf};
use crate::tree::{
    added_playlist_wf, find_playlist_uid, free_playlist_id, has_id, holds, next_playlist_id,
    playlist_uid_taken, same_shape_wf, subtree, without_subtree, without_subtree_wf,
};
use crate::uidset::UidSet;
use vstd::prelude::*;

verus! {

broadcast use vstd::string::group_string_axioms;

/// What one device tells another.
#[derive(Debug)]
pub struct Changes {
    pub tracks: Vec<TrackEntry>,
    pub playlists: Vec<PlaylistEntry>,
    pub memberships: Vec<Membership>,
    pub tombstones: Vec<Tombstone>,
}

#[verifier::ext_equal]
pub struct ChangesView {
    pub tracks: Seq<TrackEntryView>,
    pub playlists: Seq<PlaylistEntryView>,
    pub memberships: Seq<MembershipView>,
    pub tombstones: Seq<TombstoneView>,
}

impl View for Changes {
    type V = ChangesView;

    open spec fn view(&self) -> ChangesView {
        ChangesView {
            tracks: views(self.tracks@),
            playlists: views(self.playlists@),
            memberships: views(self.memberships@),
            tombstones: views(self.tombstones@),
        }
    }
}

impl Default for Changes {
    fn default() -> (r: Self)
        ensures
            r@.tracks.len() == 0,
            r@.playlists.len() == 0,
            r@.memberships.len() == 0,
            r@.tombstones.len() == 0,
    {
        Changes {
            tracks: Vec::new(),
            playlists: Vec::new(),
            memberships: Vec::new(),
            tombstones: Vec::new(),
        }
    }
}

/// How much a set of changes changed.
#[derive(Debug, Clone, Copy, PartialEq, Eq, Structural)]
pub struct Applied {
    pub tracks: usize,
    pub playlists: usize,
    pub memberships: usize,
    /// What incoming tombstones deleted.
    pub deleted: usize,
}

impl Default for Applied {
    fn default() -> (r: Self)
        ensures
            r == (Applied { tracks: 0, playlists: 0, memberships: 0, deleted: 0 }),
    {
        Applied { tracks: 0, playlists: 0, memberships: 0, deleted: 0 }
    }
}

impl Applied {
    /// All of it together.
    pub fn total(&self) -> (r: usize)
        requires
            self.tracks + self.playlists + self.memberships + self.deleted <= usize::MAX,
        ensures
            r == self.tracks + self.playlists + self.memberships + self.deleted,
    {
        self.tracks + self.playlists + self.memberships + self.deleted
    }
}

// ---------------------------------------------------------------------------
// What to send
// ---------------------------------------------------------------------------

/// The other side has the track, with older metadata. One that it lacks is not
/// sent: its row travels with the file.
pub open spec fn track_is_news(remote: ManifestView) -> spec_fn(TrackEntryView) -> bool {
    |t: TrackEntryView|
        match row_with(remote.tracks, track_entry_uid(), t.uid) {
            Some(r) => t.updated_at > r.updated_at,
            None => false,
        }
}

/// The other side has not deleted the playlist, and lacks it or has it older.
pub open spec fn playlist_is_news(remote: ManifestView) -> spec_fn(PlaylistEntryView) -> bool {
    |p: PlaylistEntryView|
        !has_tombstone_for(remote.tombstones, "playlist"@, p.uid) && match row_with(
            remote.playlists,
            playlist_entry_uid(),
            p.uid,
        ) {
            Some(r) => p.updated_at > r.updated_at,
            None => true,
        }
}

/// When `m` says that the thing was deleted.
pub open spec fn deleted_at_in(
    m: ManifestView,
    entity: Seq<char>,
    uid: Seq<char>,
) -> Option<i64> {
    match row_with(m.tombstones, tombstone_entry_key(), (entity, uid)) {
        Some(t) => Some(t.deleted_at),
        None => None,
    }
}

/// The clock of a playlist, zero where there is no such playlist.
pub open spec fn playlist_clock(m: ManifestView, uid: Seq<char>) -> i64 {
    match row_with(m.playlists, playlist_entry_uid(), uid) {
        Some(p) => p.updated_at,
        None => 0,
    }
}

/// The last membership of that name.
pub open spec fn last_membership(s: Seq<MembershipView>, key: Seq<char>) -> Option<MembershipView>
    decreases s.len(),
{
    if s.len() == 0 {
        None
    } else if key_of(s.last()) == key {
        Some(s.last())
    } else {
        last_membership(s.drop_last(), key)
    }
}

/// A membership travels because the other side lacks the pair, or because the
/// order changed and this side touched the playlist last. A tombstone of the other
/// side holds it back only if it is not older than the membership.
pub open spec fn membership_is_news(
    local: ManifestView,
    remote: ManifestView,
) -> spec_fn(MembershipView) -> bool {
    |m: MembershipView|
        {
            let deleted = deleted_at_in(remote, "playlist_track"@, key_of(m));
            !(deleted is Some && deleted->0 >= m.added_at) && match last_membership(
                remote.memberships,
                key_of(m),
            ) {
                None => true,
                Some(r) => r.rank != m.rank && playlist_clock(local, m.playlist_uid)
                    > playlist_clock(remote, m.playlist_uid),
            }
        }
}

/// What `remote` lacks of `local`, or has older.
pub open spec fn news_for(local: ManifestView, remote: ManifestView) -> ChangesView {
    ChangesView {
        tracks: local.tracks.filter(track_is_news(remote)),
        playlists: local.playlists.filter(playlist_is_news(remote)),
        memberships: local.memberships.filter(membership_is_news(local, remote)),
        tombstones: local.tombstones,
    }
}

/// When `m` says that the thing was deleted, by its first record of it.
pub fn tombstone_at_in(m: &Manifest, entity: &str, uid: &str) -> (r: Option<i64>)
    ensures
        r == deleted_at_in(m@, entity@, uid@),
{
    let hit = |t: &Tombstone| -> (b: bool)
        ensures
            b == (t.entity@ == entity@ && t.uid@ == uid@),
        { same(t.entity.as_str(), entity) && same(t.uid.as_str(), uid) };
    match find(&m.tombstones, hit, Ghost(keyed(tombstone_entry_key(), (entity@, uid@)))) {
        Some(i) => Some(m.tombstones[i].deleted_at),
        None => None,
    }
}

fn find_entry(playlists: &Vec<PlaylistEntry>, uid: &str) -> (r: Option<usize>)
    ensures
        match r {
            Some(i) => i < playlists@.len() && row_with(
                views(playlists@),
                playlist_entry_uid(),
                uid@,
            ) == Some(playlists@[i as int]@),
            None => row_with(views(playlists@), playlist_entry_uid(), uid@) is None,
        },
{
    let hit = |p: &PlaylistEntry| -> (b: bool)
        ensures
            b == (p.uid@ == uid@),
        { same(p.uid.as_str(), uid) };
    find(playlists, hit, Ghost(keyed(playlist_entry_uid(), uid@)))
}

fn clock_of(m: &Manifest, uid: &str) -> (r: i64)
    ensures
        r == playlist_clock(m@, uid@),
{
    match find_entry(&m.playlists, uid) {
        Some(i) => m.playlists[i].updated_at,
        None => 0,
    }
}

/// Whether `local` has that playlist newer than `remote`.
pub fn playlist_is_newer(local: &Manifest, remote: &Manifest, playlist_uid: &str) -> (r: bool)
    ensures
        r == (playlist_clock(local@, playlist_uid@) > playlist_clock(remote@, playlist_uid@)),
{
    clock_of(local, playlist_uid) > clock_of(remote, playlist_uid)
}

fn find_last_membership(memberships: &Vec<Membership>, key: &str) -> (r: Option<usize>)
    ensures
        match r {
            Some(i) => i < memberships@.len() && last_membership(views(memberships@), key@) == Some(
                memberships@[i as int]@,
            ),
            None => last_membership(views(memberships@), key@) is None,
        },
{
    let mut n: usize = memberships.len();
    let ghost all = views(memberships@);
    proof {
        take_all(all);
    }
    while n > 0
        invariant
            all == views(memberships@),
            n <= all.len(),
            last_membership(all, key@) == last_membership(all.take(n as int), key@),
        decreases n,
    {
        let m: &Membership = &memberships[n - 1];
        let mine: String = pair_key(m.playlist_uid.as_str(), m.track_uid.as_str());
        proof {
            assert(all.take(n as int).last() == m@);
            assert(all.take(n as int).drop_last() =~= all.take(n - 1));
        }
        if same(mine.as_str(), key) {
            return Some(n - 1);
        }
        n = n - 1;
    }
    None
}

fn tracks_for(local: &Manifest, remote: &Manifest) -> (r: Vec<TrackEntry>)
    ensures
        views(r@) == local@.tracks.filter(track_is_news(remote@)),
{
    let mut r: Vec<TrackEntry> = Vec::new();
    let ghost p = track_is_news(remote@);
    proof {
        take_none_filter(local@.tracks, p);
        assert(views(r@) =~= local@.tracks.take(0).filter(p));
    }
    for i in 0..local.tracks.len()
        invariant
            p == track_is_news(remote@),
            views(r@) == local@.tracks.take(i as int).filter(p),
    {
        let t: &TrackEntry = &local.tracks[i];
        proof {
            filter_step(local@.tracks, p, i as int);
            assert(local@.tracks[i as int] == t@);
        }
        let hit = |x: &TrackEntry| -> (b: bool)
            ensures
                b == (x.uid@ == t.uid@),
            { same(x.uid.as_str(), t.uid.as_str()) };
        let send: bool = match find(
            &remote.tracks,
            hit,
            Ghost(keyed(track_entry_uid(), t.uid@)),
        ) {
            Some(k) => t.updated_at > remote.tracks[k].updated_at,
            None => false,
        };
        if send {
            let x: TrackEntry = t.clone();
            proof {
                views_push(r@, x);
            }
            r.push(x);
        }
    }
    proof {
        take_all(local@.tracks);
    }
    r
}

fn playlists_for(local: &Manifest, remote: &Manifest) -> (r: Vec<PlaylistEntry>)
    ensures
        views(r@) == local@.playlists.filter(playlist_is_news(remote@)),
{
    let mut r: Vec<PlaylistEntry> = Vec::new();
    let ghost p = playlist_is_news(remote@);
    proof {
        take_none_filter(local@.playlists, p);
        assert(views(r@) =~= local@.playlists.take(0).filter(p));
    }
    for i in 0..local.playlists.len()
        invariant
            p == playlist_is_news(remote@),
            views(r@) == local@.playlists.take(i as int).filter(p),
    {
        let x: &PlaylistEntry = &local.playlists[i];
        proof {
            filter_step(local@.playlists, p, i as int);
            assert(local@.playlists[i as int] == x@);
        }
        if !tombstoned(remote, "playlist", x.uid.as_str()) {
            let send: bool = match find_entry(&remote.playlists, x.uid.as_str()) {
                Some(k) => x.updated_at > remote.playlists[k].updated_at,
                None => true,
            };
            if send {
                let y: PlaylistEntry = x.clone();
                proof {
                    views_push(r@, y);
                }
                r.push(y);
            }
        }
    }
    proof {
        take_all(local@.playlists);
    }
    r
}

fn memberships_for(local: &Manifest, remote: &Manifest) -> (r: Vec<Membership>)
    ensures
        views(r@) == local@.memberships.filter(membership_is_news(local@, remote@)),
{
    let mut r: Vec<Membership> = Vec::new();
    let ghost p = membership_is_news(local@, remote@);
    proof {
        take_none_filter(local@.memberships, p);
        assert(views(r@) =~= local@.memberships.take(0).filter(p));
    }
    for i in 0..local.memberships.len()
        invariant
            p == membership_is_news(local@, remote@),
            views(r@) == local@.memberships.take(i as int).filter(p),
    {
        let m: &Membership = &local.memberships[i];
        let key: String = pair_key(m.playlist_uid.as_str(), m.track_uid.as_str());
        proof {
            filter_step(local@.memberships, p, i as int);
            assert(local@.memberships[i as int] == m@);
        }
        let held_back: bool = match tombstone_at_in(remote, "playlist_track", key.as_str()) {
            Some(deleted_at) => deleted_at >= m.added_at,
            None => false,
        };
        if !held_back {
            let send: bool = match find_last_membership(&remote.memberships, key.as_str()) {
                None => true,
                Some(k) => !same(remote.memberships[k].rank.as_str(), m.rank.as_str())
                    && playlist_is_newer(local, remote, m.playlist_uid.as_str()),
            };
            if send {
                let x: Membership = m.clone();
                proof {
                    views_push(r@, x);
                }
                r.push(x);
            }
        }
    }
    proof {
        take_all(local@.memberships);
    }
    r
}

/// What of `local` the other side lacks, or has older: what to send so that it is
/// up to date.
pub fn changes_for_peer(local: &Manifest, remote: &Manifest) -> (r: Changes)
    ensures
        r@ == news_for(local@, remote@),
{
    let mut tombstones: Vec<Tombstone> = Vec::new();
    for i in 0..local.tombstones.len()
        invariant
            views(tombstones@) == local@.tombstones.take(i as int),
    {
        let t: Tombstone = local.tombstones[i].clone();
        proof {
            views_push(tombstones@, t);
            assert(local@.tombstones.take(i + 1) =~= local@.tombstones.take(i as int).push(t@));
        }
        tombstones.push(t);
    }
    proof {
        take_all(local@.tombstones);
    }
    Changes {
        tracks: tracks_for(local, remote),
        playlists: playlists_for(local, remote),
        memberships: memberships_for(local, remote),
        tombstones,
    }
}

// ---------------------------------------------------------------------------
// Taking changes in, one at a time
// ---------------------------------------------------------------------------

/// The library after some changes, and how many of them changed something, when
/// `step` says what one change does.
pub open spec fn all_taken<A>(
    l: LibraryView,
    changes: Seq<A>,
    step: spec_fn(LibraryView, A) -> (LibraryView, nat),
) -> (LibraryView, nat)
    decreases changes.len(),
{
    if changes.len() == 0 {
        (l, 0)
    } else {
        let (m, n) = all_taken(l, changes.drop_last(), step);
        let (k, d) = step(m, changes.last());
        (k, n + d)
    }
}

pub(crate) proof fn taken_one_more<A>(
    l: LibraryView,
    changes: Seq<A>,
    step: spec_fn(LibraryView, A) -> (LibraryView, nat),
    i: int,
)
    requires
        0 <= i < changes.len(),
    ensures
        all_taken(l, changes.take(i + 1), step).0 == step(
            all_taken(l, changes.take(i), step).0,
            changes[i],
        ).0,
        all_taken(l, changes.take(i + 1), step).1 == all_taken(l, changes.take(i), step).1 + step(
            all_taken(l, changes.take(i), step).0,
            changes[i],
        ).1,
{
    assert(changes.take(i + 1).drop_last() =~= changes.take(i));
    assert(changes.take(i + 1).last() == changes[i]);
}

pub(crate) proof fn taken_none<A>(
    l: LibraryView,
    changes: Seq<A>,
    step: spec_fn(LibraryView, A) -> (LibraryView, nat),
)
    ensures
        all_taken(l, changes.take(0), step) == (l, 0nat),
{
    assert(changes.take(0) =~= Seq::empty());
}

// --- metadata ---------------------------------------------------------------

/// The row with the metadata of the entry.
pub open spec fn with_metadata(t: TrackRowView, e: TrackEntryView) -> TrackRowView {
    TrackRowView {
        title: e.title,
        artist: e.artist,
        album: e.album,
        genre: e.genre,
        duration_ms: e.duration_ms,
        bpm: e.bpm,
        updated_at: e.updated_at,
        ..t
    }
}

/// Newer metadata of a track that is here replaces its own. A track that is not
/// here is not made up: its row comes with its file.
pub open spec fn metadata_taken() -> spec_fn(LibraryView, TrackEntryView) -> (LibraryView, nat) {
    |l: LibraryView, e: TrackEntryView|
        match first_where(l.tracks, keyed(track_uid_key(), Some(e.uid))) {
            Some(i) => if e.updated_at > l.tracks[i].updated_at {
                (
                    LibraryView {
                        tracks: l.tracks.update(i, with_metadata(l.tracks[i], e)),
                        ..l
                    },
                    1,
                )
            } else {
                (l, 0)
            },
            None => (l, 0),
        }
}

proof fn metadata_taken_wf(l: LibraryView, e: TrackEntryView)
    requires
        l.wf(),
    ensures
        metadata_taken()(l, e).0.wf(),
{
    let m = metadata_taken()(l, e).0;
    first_where_is_first(l.tracks, keyed(track_uid_key(), Some(e.uid)));
    tracks_same_keys_wf(l, m.tracks);
}

/// Changing tracks without touching id, path or uid keeps the tables well formed.
pub(crate) proof fn tracks_same_keys_wf(l: LibraryView, tracks: Seq<TrackRowView>)
    requires
        l.wf(),
        tracks.len() == l.tracks.len(),
        forall|i: int|
            0 <= i < tracks.len() ==> (#[trigger] tracks[i]).id == l.tracks[i].id && tracks[i].path
                == l.tracks[i].path && tracks[i].uid == l.tracks[i].uid,
    ensures
        (LibraryView { tracks, ..l }).wf(),
{
    distinct_same_keys(l.tracks, tracks, track_id());
    distinct_same_keys(l.tracks, tracks, track_path_key());
    distinct_some_same_keys(l.tracks, tracks, track_uid_key());
    members_keep_tracks(l, tracks);
}

pub(crate) proof fn members_keep_tracks(l: LibraryView, tracks: Seq<TrackRowView>)
    requires
        l.wf(),
        tracks.len() >= l.tracks.len(),
        forall|i: int| 0 <= i < l.tracks.len() ==> (#[trigger] tracks[i]).id == l.tracks[i].id,
    ensures
        crate::library::members_exist(l.playlist_tracks, l.playlists, tracks),
{
    assert forall|i: int| 0 <= i < l.playlist_tracks.len() implies is_playlist(
        l.playlists,
        (#[trigger] l.playlist_tracks[i]).playlist_id,
    ) && is_track(tracks, l.playlist_tracks[i].track_id) by {
        let id = l.playlist_tracks[i].track_id;
        assert(is_track(l.tracks, id));
        let k = choose|k: int| 0 <= k < l.tracks.len() && (#[trigger] l.tracks[k]).id == id;
        assert(tracks[k].id == id);
    }
}

pub(crate) fn find_track_uid(tracks: &Vec<TrackRow>, uid: &str) -> (r: Option<usize>)
    ensures
        match r {
            Some(i) => i < tracks@.len() && opt_view(tracks@[i as int].uid) == Some(uid@)
                && first_where(views(tracks@), keyed(track_uid_key(), Some(uid@))) == Some(i as int),
            None => first_where(views(tracks@), keyed(track_uid_key(), Some(uid@))) is None,
        },
{
    let hit = |t: &TrackRow| -> (b: bool)
        ensures
            b == (opt_view(t.uid) == Some(uid@)),
        {
            match &t.uid {
                Some(u) => same(u.as_str(), uid),
                None => false,
            }
        };
    find(tracks, hit, Ghost(keyed(track_uid_key(), Some(uid@))))
}

fn take_metadata(lib: &mut Library, e: &TrackEntry) -> (r: bool)
    ensures
        final(lib)@ == metadata_taken()(old(lib)@, e@).0,
        r == (metadata_taken()(old(lib)@, e@).1 == 1),
        metadata_taken()(old(lib)@, e@).1 <= 1,
        old(lib)@.wf() ==> final(lib)@.wf(),
{
    proof {
        if lib@.wf() {
            metadata_taken_wf(lib@, e@);
        }
    }
    if let Some(i) = find_track_uid(&lib.tracks, e.uid.as_str()) {
        if e.updated_at > lib.tracks[i].updated_at {
            let old_row: &TrackRow = &lib.tracks[i];
            let row: TrackRow = TrackRow {
                id: old_row.id,
                path: old_row.path.clone(),
                title: e.title.clone(),
                artist: e.artist.clone(),
                album: e.album.clone(),
                genre: e.genre.clone(),
                duration_ms: e.duration_ms,
                bpm: e.bpm,
                uid: crate::text::copy_opt(&old_row.uid),
                content_hash: crate::text::copy_opt(&old_row.content_hash),
                rel_path: crate::text::copy_opt(&old_row.rel_path),
                size_bytes: old_row.size_bytes,
                mtime_ms: old_row.mtime_ms,
                updated_at: e.updated_at,
                local_state: old_row.local_state.clone(),
            };
            proof {
                views_update(lib.tracks@, i as int, row);
                assert(row@ == with_metadata(lib.tracks@[i as int]@, e@));
            }
            lib.tracks.set(i, row);
            return true;
        }
    }
    false
}

// --- playlists --------------------------------------------------------------

/// This device has a tombstone of that thing.
pub open spec fn is_buried(l: LibraryView, entity: Seq<char>, uid: Seq<char>) -> bool {
    first_where(l.tombstones, keyed(tombstone_key(), (entity, uid))) is Some
}

/// A playlist that is new here is created, at the root for now; one that is newer
/// than here gives its name, kind and rank. One that was deleted here stays so.
pub open spec fn playlist_taken() -> spec_fn(LibraryView, PlaylistEntryView) -> (LibraryView, nat) {
    |l: LibraryView, p: PlaylistEntryView|
        if is_buried(l, "playlist"@, p.uid) {
            (l, 0)
        } else {
            match first_where(l.playlists, keyed(playlist_uid_key(), Some(p.uid))) {
                Some(i) => if p.updated_at > l.playlists[i].updated_at {
                    (
                        LibraryView {
                            playlists: l.playlists.update(
                                i,
                                PlaylistRowView {
                                    name: p.name,
                                    kind: p.kind,
                                    rank: p.rank,
                                    updated_at: p.updated_at,
                                    ..l.playlists[i]
                                },
                            ),
                            ..l
                        },
                        1,
                    )
                } else {
                    (l, 0)
                },
                None => (
                    LibraryView {
                        playlists: l.playlists.push(
                            PlaylistRowView {
                                id: next_playlist_id(l.playlists) as i64,
                                name: p.name,
                                kind: p.kind,
                                parent_id: None,
                                rank: p.rank,
                                uid: Some(p.uid),
                                updated_at: p.updated_at,
                            },
                        ),
                        ..l
                    },
                    1,
                ),
            }
        }
}

proof fn playlist_taken_wf(l: LibraryView, p: PlaylistEntryView)
    requires
        l.wf(),
        next_playlist_id(l.playlists) <= i64::MAX,
        l.playlists.len() > 0 ==> next_playlist_id(l.playlists) > i64::MIN,
    ensures
        playlist_taken()(l, p).0.wf(),
{
    let m = playlist_taken()(l, p).0;
    let k = keyed(playlist_uid_key(), Some(p.uid));
    first_where_is_first(l.playlists, k);
    if !is_buried(l, "playlist"@, p.uid) {
        match first_where(l.playlists, k) {
            Some(i) => {
                same_shape_wf(l, m.playlists);
            },
            None => {
                assert(!playlist_uid_taken(l.playlists, p.uid)) by {
                    assert forall|i: int| 0 <= i < l.playlists.len() implies (
                    #[trigger] l.playlists[i]).uid != Some(p.uid) by {
                        assert(!k(l.playlists[i]));
                    }
                }
                added_playlist_wf(l, m.playlists.last());
                assert(m.playlists =~= l.playlists.push(m.playlists.last()));
            },
        }
    }
}

proof fn next_id_grows(l: LibraryView, p: PlaylistEntryView)
    requires
        next_playlist_id(l.playlists) <= i64::MAX,
    ensures
        next_playlist_id(playlist_taken()(l, p).0.playlists) <= next_playlist_id(l.playlists) + 1,
{
    let m = playlist_taken()(l, p).0;
    let k = keyed(playlist_uid_key(), Some(p.uid));
    first_where_is_first(l.playlists, k);
    next_id_above_min(l.playlists);
    if !is_buried(l, "playlist"@, p.uid) {
        match first_where(l.playlists, k) {
            Some(i) => {
                same_ids_same_next(l.playlists, m.playlists);
            },
            None => {
                assert(m.playlists.drop_last() =~= l.playlists);
            },
        }
    }
}

proof fn next_id_above_min(playlists: Seq<PlaylistRowView>)
    ensures
        next_playlist_id(playlists) > i64::MIN,
    decreases playlists.len(),
{
    if playlists.len() > 1 {
        next_id_above_min(playlists.drop_last());
    }
}

proof fn same_ids_same_next(a: Seq<PlaylistRowView>, b: Seq<PlaylistRowView>)
    requires
        a.len() == b.len(),
        forall|i: int| 0 <= i < a.len() ==> (#[trigger] a[i]).id == b[i].id,
    ensures
        next_playlist_id(a) == next_playlist_id(b),
    decreases a.len(),
{
    if a.len() == 1 {
        assert(a[0].id == b[0].id);
    } else if a.len() > 1 {
        assert forall|i: int| 0 <= i < a.drop_last().len() implies (#[trigger] a.drop_last()[i]).id
            == b.drop_last()[i].id by {
            assert(a[i].id == b[i].id);
        }
        same_ids_same_next(a.drop_last(), b.drop_last());
        assert(a[a.len() - 1].id == b[b.len() - 1].id);
    }
}

pub(crate) fn find_tombstone(tombstones: &Vec<TombstoneRow>, entity: &str, uid: &str) -> (r: Option<
    usize,
>)
    ensures
        match r {
            Some(i) => i < tombstones@.len() && first_where(
                views(tombstones@),
                keyed(tombstone_key(), (entity@, uid@)),
            ) == Some(i as int),
            None => first_where(views(tombstones@), keyed(tombstone_key(), (entity@, uid@))) is None,
        },
{
    let hit = |t: &TombstoneRow| -> (b: bool)
        ensures
            b == (t.entity@ == entity@ && t.uid@ == uid@),
        { same(t.entity.as_str(), entity) && same(t.uid.as_str(), uid) };
    find(tombstones, hit, Ghost(keyed(tombstone_key(), (entity@, uid@))))
}

fn take_playlist(lib: &mut Library, p: &PlaylistEntry) -> (r: bool)
    requires
        next_playlist_id(old(lib)@.playlists) <= i64::MAX,
    ensures
        final(lib)@ == playlist_taken()(old(lib)@, p@).0,
        r == (playlist_taken()(old(lib)@, p@).1 == 1),
        playlist_taken()(old(lib)@, p@).1 <= 1,
        old(lib)@.wf() ==> final(lib)@.wf(),
{
    proof {
        next_id_above_min(lib@.playlists);
        if lib@.wf() {
            playlist_taken_wf(lib@, p@);
        }
    }
    if find_tombstone(&lib.tombstones, "playlist", p.uid.as_str()).is_some() {
        return false;
    }
    match find_playlist_uid(&lib.playlists, p.uid.as_str()) {
        Some(i) => {
            if p.updated_at > lib.playlists[i].updated_at {
                let row: PlaylistRow = PlaylistRow {
                    id: lib.playlists[i].id,
                    name: p.name.clone(),
                    kind: p.kind.clone(),
                    parent_id: lib.playlists[i].parent_id,
                    rank: p.rank.clone(),
                    uid: crate::text::copy_opt(&lib.playlists[i].uid),
                    updated_at: p.updated_at,
                };
                proof {
                    views_update(lib.playlists@, i as int, row);
                }
                lib.playlists.set(i, row);
                true
            } else {
                false
            }
        },
        None => {
            let id: i64 = free_playlist_id(&lib.playlists);
            let row: PlaylistRow = PlaylistRow {
                id,
                name: p.name.clone(),
                kind: p.kind.clone(),
                parent_id: None,
                rank: p.rank.clone(),
                uid: Some(p.uid.clone()),
                updated_at: p.updated_at,
            };
            proof {
                views_push(lib.playlists@, row);
            }
            lib.playlists.push(row);
            true
        },
    }
}

/// The id of the playlist with that uid.
pub open spec fn id_of_playlist(l: LibraryView, uid: Option<Seq<char>>) -> Option<i64> {
    match uid {
        Some(u) => match row_with(l.playlists, playlist_uid_key(), Some(u)) {
            Some(p) => Some(p.id),
            None => None,
        },
        None => None,
    }
}

/// The entries that created a playlist, or were newer than the one here, in their
/// order.
pub open spec fn newer_ones(l: LibraryView, c: Seq<PlaylistEntryView>) -> Seq<PlaylistEntryView>
    decreases c.len(),
{
    if c.len() == 0 {
        Seq::empty()
    } else {
        let m = all_taken(l, c.drop_last(), playlist_taken()).0;
        let before = newer_ones(l, c.drop_last());
        if playlist_taken()(m, c.last()).1 == 1 {
            before.push(c.last())
        } else {
            before
        }
    }
}

proof fn newer_one_more(l: LibraryView, c: Seq<PlaylistEntryView>, i: int)
    requires
        0 <= i < c.len(),
    ensures
        newer_ones(l, c.take(i + 1)) == if playlist_taken()(
            all_taken(l, c.take(i), playlist_taken()).0,
            c[i],
        ).1 == 1 {
            newer_ones(l, c.take(i)).push(c[i])
        } else {
            newer_ones(l, c.take(i))
        },
{
    assert(c.take(i + 1).drop_last() =~= c.take(i));
    assert(c.take(i + 1).last() == c[i]);
}

/// The entries at those places.
pub open spec fn picked(c: Seq<PlaylistEntryView>, at: Seq<usize>) -> Seq<PlaylistEntryView> {
    at.map_values(|i: usize| c[i as int])
}

/// Once all playlists are here, each that an entry created or renewed is hung under
/// the parent that the entry names, or at the root where that parent is not here.
pub open spec fn parent_taken() -> spec_fn(LibraryView, PlaylistEntryView) -> (LibraryView, nat) {
    |l: LibraryView, p: PlaylistEntryView|
        if is_buried(l, "playlist"@, p.uid) {
            (l, 0)
        } else {
            match first_where(l.playlists, keyed(playlist_uid_key(), Some(p.uid))) {
                Some(i) => (
                    LibraryView {
                        playlists: l.playlists.update(
                            i,
                            PlaylistRowView {
                                parent_id: id_of_playlist(l, p.parent_uid),
                                ..l.playlists[i]
                            },
                        ),
                        ..l
                    },
                    0,
                ),
                None => (l, 0),
            }
        }
}

pub(crate) proof fn parent_taken_wf(l: LibraryView, p: PlaylistEntryView)
    requires
        l.wf(),
    ensures
        parent_taken()(l, p).0.wf(),
{
    let m = parent_taken()(l, p).0;
    first_where_is_first(l.playlists, keyed(playlist_uid_key(), Some(p.uid)));
    if p.parent_uid is Some {
        first_where_is_first(l.playlists, keyed(playlist_uid_key(), Some(p.parent_uid->0)));
    }
    assert forall|i: int| 0 <= i < m.playlists.len() implies (#[trigger] m.playlists[i]).id
        == l.playlists[i].id && m.playlists[i].uid == l.playlists[i].uid && (
    m.playlists[i].parent_id == l.playlists[i].parent_id || m.playlists[i].parent_id is None
        || is_playlist(l.playlists, m.playlists[i].parent_id->0)) by {}
    same_shape_wf(l, m.playlists);
}

fn take_parent(lib: &mut Library, p: &PlaylistEntry)
    ensures
        final(lib)@ == parent_taken()(old(lib)@, p@).0,
        old(lib)@.wf() ==> final(lib)@.wf(),
{
    proof {
        if lib@.wf() {
            parent_taken_wf(lib@, p@);
        }
    }
    if find_tombstone(&lib.tombstones, "playlist", p.uid.as_str()).is_some() {
        return;
    }
    let parent: Option<i64> = match &p.parent_uid {
        Some(u) => match find_playlist_uid(&lib.playlists, u.as_str()) {
            Some(k) => Some(lib.playlists[k].id),
            None => None,
        },
        None => None,
    };
    if let Some(i) = find_playlist_uid(&lib.playlists, p.uid.as_str()) {
        let mut row: PlaylistRow = lib.playlists[i].clone();
        row.parent_id = parent;
        proof {
            views_update(lib.playlists@, i as int, row);
        }
        lib.playlists.set(i, row);
    }
}

// --- memberships ------------------------------------------------------------

/// The tombstone of a pair is out of the way.
pub open spec fn unburied(l: LibraryView, key: Seq<char>) -> LibraryView {
    LibraryView {
        tombstones: l.tombstones.filter(crate::db::other_than("playlist_track"@, key)),
        ..l
    }
}

/// The track stands in the playlist under that rank. A pair that is there already
/// keeps everything but its rank.
pub open spec fn placed(
    l: LibraryView,
    playlist: i64,
    track: i64,
    rank: Seq<char>,
    added_at: i64,
) -> (LibraryView, nat) {
    match first_where(l.playlist_tracks, keyed(pair_of(), (playlist, track))) {
        Some(i) => if l.playlist_tracks[i].rank != rank {
            (
                LibraryView {
                    playlist_tracks: l.playlist_tracks.update(
                        i,
                        PlaylistTrackRowView { rank, ..l.playlist_tracks[i] },
                    ),
                    ..l
                },
                1,
            )
        } else {
            (l, 0)
        },
        None => (
            LibraryView {
                playlist_tracks: l.playlist_tracks.push(
                    PlaylistTrackRowView { playlist_id: playlist, track_id: track, rank, added_at },
                ),
                ..l
            },
            1,
        ),
    }
}

/// A membership enters unless this device removed the pair, not before it was
/// added. An older tombstone of the pair gives way. A membership of a playlist or
/// a track that is not here yet waits for another time.
pub open spec fn membership_taken() -> spec_fn(LibraryView, MembershipView) -> (LibraryView, nat) {
    |l: LibraryView, m: MembershipView|
        {
            let grave = row_with(l.tombstones, tombstone_key(), ("playlist_track"@, key_of(m)));
            if grave is Some && grave->0.deleted_at >= m.added_at {
                (l, 0)
            } else {
                let n = if grave is Some {
                    unburied(l, key_of(m))
                } else {
                    l
                };
                let p = row_with(l.playlists, playlist_uid_key(), Some(m.playlist_uid));
                let t = row_with(l.tracks, track_uid_key(), Some(m.track_uid));
                if p is Some && t is Some {
                    placed(n, p->0.id, t->0.id, m.rank, m.added_at)
                } else {
                    (n, 0)
                }
            }
        }
}

proof fn placed_wf(l: LibraryView, playlist: i64, track: i64, rank: Seq<char>, added_at: i64)
    requires
        l.wf(),
        is_playlist(l.playlists, playlist),
        is_track(l.tracks, track),
    ensures
        placed(l, playlist, track, rank, added_at).0.wf(),
{
    let m = placed(l, playlist, track, rank, added_at).0;
    let k = keyed(pair_of(), (playlist, track));
    first_where_is_first(l.playlist_tracks, k);
    match first_where(l.playlist_tracks, k) {
        Some(i) => {
            assert forall|j: int| 0 <= j < l.playlist_tracks.len() implies pair_of()(
                #[trigger] m.playlist_tracks[j],
            ) == pair_of()(l.playlist_tracks[j]) by {}
            distinct_same_keys(l.playlist_tracks, m.playlist_tracks, pair_of());
            assert forall|j: int| 0 <= j < m.playlist_tracks.len() implies is_playlist(
                l.playlists,
                (#[trigger] m.playlist_tracks[j]).playlist_id,
            ) && is_track(l.tracks, m.playlist_tracks[j].track_id) by {
                assert(is_playlist(l.playlists, l.playlist_tracks[j].playlist_id));
            }
        },
        None => {
            let row = PlaylistTrackRowView { playlist_id: playlist, track_id: track, rank, added_at };
            assert forall|j: int| 0 <= j < l.playlist_tracks.len() implies pair_of()(
                #[trigger] l.playlist_tracks[j],
            ) != pair_of()(row) by {
                assert(!k(l.playlist_tracks[j]));
            }
            distinct_push(l.playlist_tracks, row, pair_of());
        },
    }
}

pub(crate) proof fn membership_taken_wf(l: LibraryView, m: MembershipView)
    requires
        l.wf(),
    ensures
        membership_taken()(l, m).0.wf(),
{
    let n = unburied(l, key_of(m));
    distinct_filter(
        l.tombstones,
        crate::db::other_than("playlist_track"@, key_of(m)),
        tombstone_key(),
    );
    assert(n.wf());
    first_where_is_first(l.playlists, keyed(playlist_uid_key(), Some(m.playlist_uid)));
    first_where_is_first(l.tracks, keyed(track_uid_key(), Some(m.track_uid)));
    let p = row_with(l.playlists, playlist_uid_key(), Some(m.playlist_uid));
    let t = row_with(l.tracks, track_uid_key(), Some(m.track_uid));
    if p is Some && t is Some {
        assert(is_playlist(l.playlists, p->0.id));
        assert(is_track(l.tracks, t->0.id));
        placed_wf(n, p->0.id, t->0.id, m.rank, m.added_at);
        placed_wf(l, p->0.id, t->0.id, m.rank, m.added_at);
    }
}

fn place(
    members: &mut Vec<PlaylistTrackRow>,
    playlist: i64,
    track: i64,
    rank: &str,
    added_at: i64,
    Ghost(l): Ghost<LibraryView>,
) -> (r: bool)
    requires
        views(old(members)@) == l.playlist_tracks,
    ensures
        views(final(members)@) == placed(l, playlist, track, rank@, added_at).0.playlist_tracks,
        r == (placed(l, playlist, track, rank@, added_at).1 == 1),
{
    let hit = |m: &PlaylistTrackRow| -> (b: bool)
        ensures
            b == (m.playlist_id == playlist && m.track_id == track),
        { m.playlist_id == playlist && m.track_id == track };
    match find(members, hit, Ghost(keyed(pair_of(), (playlist, track)))) {
        Some(i) => {
            if same(members[i].rank.as_str(), rank) {
                false
            } else {
                let mut row: PlaylistTrackRow = members[i].clone();
                row.rank = rank.to_owned();
                proof {
                    views_update(members@, i as int, row);
                }
                members.set(i, row);
                true
            }
        },
        None => {
            let row: PlaylistTrackRow = PlaylistTrackRow {
                playlist_id: playlist,
                track_id: track,
                rank: rank.to_owned(),
                added_at,
            };
            proof {
                views_push(members@, row);
            }
            members.push(row);
            true
        },
    }
}

fn take_membership(lib: &mut Library, m: &Membership) -> (r: bool)
    ensures
        final(lib)@ == membership_taken()(old(lib)@, m@).0,
        r == (membership_taken()(old(lib)@, m@).1 == 1),
        membership_taken()(old(lib)@, m@).1 <= 1,
        old(lib)@.wf() ==> final(lib)@.wf(),
{
    let ghost l0 = lib@;
    proof {
        if lib@.wf() {
            membership_taken_wf(lib@, m@);
        }
    }
    let key: String = pair_key(m.playlist_uid.as_str(), m.track_uid.as_str());
    let ghost e = "playlist_track"@;
    if let Some(i) = find_tombstone(&lib.tombstones, "playlist_track", key.as_str()) {
        if lib.tombstones[i].deleted_at >= m.added_at {
            return false;
        }
        let keep = |t: &TombstoneRow| -> (b: bool)
            ensures
                b == !(t.entity@ == "playlist_track"@ && t.uid@ == key@),
            { !(same(t.entity.as_str(), "playlist_track") && same(t.uid.as_str(), key.as_str())) };
        retain(&mut lib.tombstones, keep, Ghost(crate::db::other_than("playlist_track"@, key@)));
        proof {
            assert(lib@ == unburied(l0, key_of(m@)));
        }
    }
    let p: Option<usize> = find_playlist_uid(&lib.playlists, m.playlist_uid.as_str());
    let t: Option<usize> = find_track_uid(&lib.tracks, m.track_uid.as_str());
    match (p, t) {
        (Some(pi), Some(ti)) => {
            let pid: i64 = lib.playlists[pi].id;
            let tid: i64 = lib.tracks[ti].id;
            let ghost n = lib@;
            place(&mut lib.playlist_tracks, pid, tid, m.rank.as_str(), m.added_at, Ghost(n))
        },
        _ => false,
    }
}

// --- tombstones -------------------------------------------------------------

/// A tombstone is kept, unless there is one of the same thing already.
pub open spec fn tombstone_kept() -> spec_fn(LibraryView, TombstoneView) -> (LibraryView, nat) {
    |l: LibraryView, t: TombstoneView|
        if is_buried(l, t.entity, t.uid) {
            (l, 0)
        } else {
            (
                LibraryView {
                    tombstones: l.tombstones.push(
                        TombstoneRowView {
                            entity: t.entity,
                            uid: t.uid,
                            deleted_at: t.deleted_at,
                            device_uid: ""@,
                        },
                    ),
                    ..l
                },
                0,
            )
        }
}

pub(crate) proof fn tombstone_kept_wf(l: LibraryView, t: TombstoneView)
    requires
        l.wf(),
    ensures
        tombstone_kept()(l, t).0.wf(),
{
    let k = keyed(tombstone_key(), (t.entity, t.uid));
    first_where_is_first(l.tombstones, k);
    if !is_buried(l, t.entity, t.uid) {
        let row = TombstoneRowView {
            entity: t.entity,
            uid: t.uid,
            deleted_at: t.deleted_at,
            device_uid: ""@,
        };
        assert forall|i: int| 0 <= i < l.tombstones.len() implies tombstone_key()(
            #[trigger] l.tombstones[i],
        ) != tombstone_key()(row) by {
            assert(!k(l.tombstones[i]));
        }
        distinct_push(l.tombstones, row, tombstone_key());
    }
}

fn keep_tombstone(lib: &mut Library, t: &Tombstone)
    ensures
        final(lib)@ == tombstone_kept()(old(lib)@, t@).0,
        old(lib)@.wf() ==> final(lib)@.wf(),
{
    proof {
        if lib@.wf() {
            tombstone_kept_wf(lib@, t@);
        }
    }
    if find_tombstone(&lib.tombstones, t.entity.as_str(), t.uid.as_str()).is_none() {
        let row: TombstoneRow = TombstoneRow {
            entity: t.entity.clone(),
            uid: t.uid.clone(),
            deleted_at: t.deleted_at,
            device_uid: "".to_owned(),
        };
        proof {
            views_push(lib.tombstones@, row);
        }
        lib.tombstones.push(row);
    }
}

/// Where the first colon of a text is.
pub open spec fn colon_at(s: Seq<char>) -> Option<int> {
    first_where(s, |c: char| c == ':')
}

/// The place that a tombstone of a pair takes away: the pair it names, if that was
/// not added after the deletion.
pub open spec fn place_survives(
    l: LibraryView,
    playlist_uid: Seq<char>,
    track_uid: Seq<char>,
    deleted_at: i64,
) -> spec_fn(PlaylistTrackRowView) -> bool {
    |m: PlaylistTrackRowView|
        {
            let p = row_with(l.playlists, playlist_uid_key(), Some(playlist_uid));
            let t = row_with(l.tracks, track_uid_key(), Some(track_uid));
            !(p is Some && t is Some && m.playlist_id == p->0.id && m.track_id == t->0.id
                && m.added_at <= deleted_at)
        }
}

/// What a deletion of another device deletes here, and how much. `kept` holds the
/// uids of the tracks whose file could not be moved away: their rows stay, for a
/// row without a file is worse than a deletion that has to wait.
pub open spec fn deletion_taken(kept: Set<Seq<char>>) -> spec_fn(LibraryView, TombstoneView) -> (
    LibraryView,
    nat,
) {
    |l: LibraryView, t: TombstoneView|
        if t.entity == "track"@ {
            match row_with(l.tracks, track_uid_key(), Some(t.uid)) {
                Some(row) => if kept.contains(t.uid) {
                    (l, 0)
                } else {
                    (without_tracks(l, seq![row.id]), 1)
                },
                None => (l, 0),
            }
        } else if t.entity == "playlist"@ {
            match row_with(l.playlists, playlist_uid_key(), Some(t.uid)) {
                Some(row) => (without_subtree(l, row.id), 1),
                None => (l, 0),
            }
        } else if t.entity == "playlist_track"@ {
            match colon_at(t.uid) {
                Some(i) => {
                    let p = place_survives(
                        l,
                        t.uid.subrange(0, i),
                        t.uid.subrange(i + 1, t.uid.len() as int),
                        t.deleted_at,
                    );
                    let ms = l.playlist_tracks.filter(p);
                    (
                        LibraryView { playlist_tracks: ms, ..l },
                        (l.playlist_tracks.len() - ms.len()) as nat,
                    )
                },
                None => (l, 0),
            }
        } else {
            (l, 0)
        }
}

pub(crate) proof fn deletion_taken_wf(l: LibraryView, kept: Set<Seq<char>>, t: TombstoneView)
    requires
        l.wf(),
    ensures
        deletion_taken(kept)(l, t).0.wf(),
{
    if t.entity == "track"@ {
        if let Some(row) = row_with(l.tracks, track_uid_key(), Some(t.uid)) {
            without_tracks_wf(l, seq![row.id]);
        }
    } else if t.entity == "playlist"@ {
        if let Some(row) = row_with(l.playlists, playlist_uid_key(), Some(t.uid)) {
            without_subtree_wf(l, row.id);
        }
    } else if t.entity == "playlist_track"@ {
        if let Some(i) = colon_at(t.uid) {
            crate::tracks::members_filter_wf(
                l,
                place_survives(
                    l,
                    t.uid.subrange(0, i),
                    t.uid.subrange(i + 1, t.uid.len() as int),
                    t.deleted_at,
                ),
            );
        }
    }
}

/// Splits a text at its first colon.
pub fn split_at_colon(s: &str) -> (r: Option<(String, String)>)
    ensures
        match r {
            Some((a, b)) => colon_at(s@) is Some && a@ == s@.subrange(0, colon_at(s@)->0) && b@
                == s@.subrange(colon_at(s@)->0 + 1, s@.len() as int),
            None => colon_at(s@) is None,
        },
{
    let v: Vec<char> = chars_of(s);
    let ghost p = |c: char| c == ':';
    let n: usize = v.len();
    for i in 0..n
        invariant
            v@ == s@,
            n == v@.len(),
            p == (|c: char| c == ':'),
            forall|j: int| 0 <= j < i ==> !p(#[trigger] s@[j]),
    {
        if v[i] == ':' {
            proof {
                crate::table::first_where_at(s@, p, i as int);
            }
            return Some((text_of(&v, 0, i), text_of(&v, i + 1, n)));
        }
    }
    proof {
        first_where_is_first(s@, p);
    }
    None
}

/// Deletes here what another device deleted; how much it was.
fn apply_tombstone(lib: &mut Library, t: &Tombstone, kept: &UidSet) -> (r: usize)
    ensures
        final(lib)@ == deletion_taken(kept@)(old(lib)@, t@).0,
        r == deletion_taken(kept@)(old(lib)@, t@).1,
        old(lib)@.wf() ==> final(lib)@.wf(),
{
    let ghost l0 = lib@;
    proof {
        if l0.wf() {
            deletion_taken_wf(l0, kept@, t@);
        }
    }
    if same(t.entity.as_str(), "track") {
        match find_track_uid(&lib.tracks, t.uid.as_str()) {
            Some(i) => {
                if kept.contains(t.uid.as_str()) {
                    return 0;
                }
                let id: i64 = lib.tracks[i].id;
                let ghost ids: Seq<i64> = seq![id];
                let keep_track = |x: &TrackRow| -> (b: bool)
                    ensures
                        b == (x.id != id),
                    { x.id != id };
                proof {
                    assert forall|x: i64| #[trigger] ids.contains(x) <==> x == id by {
                        assert(ids[0] == id);
                    }
                }
                retain(
                    &mut lib.tracks,
                    keep_track,
                    Ghost(|x: TrackRowView| !ids.contains(x.id)),
                );
                let keep_member = |m: &PlaylistTrackRow| -> (b: bool)
                    ensures
                        b == (m.track_id != id),
                    { m.track_id != id };
                retain(
                    &mut lib.playlist_tracks,
                    keep_member,
                    Ghost(|m: PlaylistTrackRowView| !ids.contains(m.track_id)),
                );
                proof {
                    assert(lib@ == without_tracks(l0, ids));
                }
                1
            },
            None => 0,
        }
    } else if same(t.entity.as_str(), "playlist") {
        match find_playlist_uid(&lib.playlists, t.uid.as_str()) {
            Some(i) => {
                let id: i64 = lib.playlists[i].id;
                let gone: Vec<i64> = subtree(&lib.playlists, id);
                let keep_playlist = |r: &PlaylistRow| -> (b: bool)
                    ensures
                        b == !gone@.contains(r.id),
                    { !has_id(gone.as_slice(), r.id) };
                retain(
                    &mut lib.playlists,
                    keep_playlist,
                    Ghost(|r: PlaylistRowView| !holds(l0.playlists, id, r.id)),
                );
                let keep_member = |m: &PlaylistTrackRow| -> (b: bool)
                    ensures
                        b == !gone@.contains(m.playlist_id),
                    { !has_id(gone.as_slice(), m.playlist_id) };
                retain(
                    &mut lib.playlist_tracks,
                    keep_member,
                    Ghost(|m: PlaylistTrackRowView| !holds(l0.playlists, id, m.playlist_id)),
                );
                proof {
                    assert(lib@ == without_subtree(l0, id));
                }
                1
            },
            None => 0,
        }
    } else if same(t.entity.as_str(), "playlist_track") {
        match split_at_colon(t.uid.as_str()) {
            Some((pl, tr)) => {
                let p: Option<i64> = match find_playlist_uid(&lib.playlists, pl.as_str()) {
                    Some(i) => Some(lib.playlists[i].id),
                    None => None,
                };
                let q: Option<i64> = match find_track_uid(&lib.tracks, tr.as_str()) {
                    Some(i) => Some(lib.tracks[i].id),
                    None => None,
                };
                let at: i64 = t.deleted_at;
                let keep = |m: &PlaylistTrackRow| -> (b: bool)
                    ensures
                        b == !(p == Some(m.playlist_id) && q == Some(m.track_id) && m.added_at
                            <= at),
                    {
                        let here: bool = match p {
                            Some(x) => x == m.playlist_id,
                            None => false,
                        };
                        let it: bool = match q {
                            Some(x) => x == m.track_id,
                            None => false,
                        };
                        !(here && it && m.added_at <= at)
                    };
                retain(
                    &mut lib.playlist_tracks,
                    keep,
                    Ghost(place_survives(l0, pl@, tr@, at)),
                )
            },
            None => 0,
        }
    } else {
        0
    }
}

// ---------------------------------------------------------------------------
// Taking all changes in
// ---------------------------------------------------------------------------

/// What is done with a deletion that another device sends. The receiving side
/// decides: `Ask` on the main computer protects it from a deletion made on the
/// phone, without holding anything else back.
#[derive(Debug, Clone, Copy, PartialEq, Eq, Structural)]
pub enum DeletePolicy {
    Propagate,
    /// Leave it to the user. It is not applied by itself.
    Ask,
    Ignore,
}

impl DeletePolicy {
    pub open spec fn of_setting(s: Seq<char>) -> DeletePolicy {
        if s == "ignore"@ {
            DeletePolicy::Ignore
        } else if s == "ask"@ {
            DeletePolicy::Ask
        } else {
            DeletePolicy::Propagate
        }
    }

    /// The policy that a stored text stands for.
    pub fn from_setting(s: &str) -> (r: Self)
        ensures
            r == DeletePolicy::of_setting(s@),
    {
        if same(s, "ignore") {
            DeletePolicy::Ignore
        } else if same(s, "ask") {
            DeletePolicy::Ask
        } else {
            DeletePolicy::Propagate
        }
    }
}

pub open spec fn policy_device() -> spec_fn(PolicyRowView) -> Seq<char> {
    |p: PolicyRowView| p.device_uid
}

/// What is done with the deletions that a device sends: what was chosen for it, and
/// they are taken where nothing was.
pub open spec fn chosen_policy(l: LibraryView, device_uid: Seq<char>) -> DeletePolicy {
    match row_with(l.sync_policy, policy_device(), device_uid) {
        Some(p) => DeletePolicy::of_setting(p.deletes),
        None => DeletePolicy::Propagate,
    }
}

/// What is done with the deletions that a device sends.
pub fn policy_for(lib: &Library, device_uid: &str) -> (r: DeletePolicy)
    ensures
        r == chosen_policy(lib@, device_uid@),
{
    let hit = |p: &PolicyRow| -> (b: bool)
        ensures
            b == (p.device_uid@ == device_uid@),
        { same(p.device_uid.as_str(), device_uid) };
    match find(&lib.sync_policy, hit, Ghost(keyed(policy_device(), device_uid@))) {
        Some(i) => DeletePolicy::from_setting(lib.sync_policy[i].deletes.as_str()),
        None => DeletePolicy::Propagate,
    }
}

/// The library after each stage of taking changes in, and how much each changed.
pub struct Taken {
    pub library: LibraryView,
    pub tracks: nat,
    pub playlists: nat,
    pub memberships: nat,
    pub deleted: nat,
}

/// The library once metadata, playlists, their parents and memberships are in.
pub open spec fn joined(l: LibraryView, c: ChangesView) -> Taken {
    let (l1, n1) = all_taken(l, c.tracks, metadata_taken());
    let (l2, n2) = all_taken(l1, c.playlists, playlist_taken());
    let l3 = all_taken(l2, newer_ones(l1, c.playlists), parent_taken()).0;
    let (l4, n4) = all_taken(l3, c.memberships, membership_taken());
    Taken { library: l4, tracks: n1, playlists: n2, memberships: n4, deleted: 0 }
}

/// The library once the tombstones are kept as well.
pub open spec fn joined_and_recorded(l: LibraryView, c: ChangesView) -> LibraryView {
    all_taken(joined(l, c).library, c.tombstones, tombstone_kept()).0
}

/// The library once all changes are in, and how much they changed.
pub open spec fn taken(
    l: LibraryView,
    c: ChangesView,
    policy: DeletePolicy,
    kept: Set<Seq<char>>,
) -> Taken {
    let j = joined(l, c);
    let l5 = joined_and_recorded(l, c);
    let (l6, n6) = if policy == DeletePolicy::Propagate {
        all_taken(l5, c.tombstones, deletion_taken(kept))
    } else {
        (l5, 0nat)
    };
    Taken { library: l6, deleted: n6, ..j }
}

/// There are ids left for every playlist of the changes.
pub open spec fn room_for(l: LibraryView, c: ChangesView) -> bool {
    next_playlist_id(l.playlists) + c.playlists.len() <= i64::MAX
}

proof fn metadata_keeps_playlists(l: LibraryView, c: Seq<TrackEntryView>)
    ensures
        all_taken(l, c, metadata_taken()).0.playlists == l.playlists,
    decreases c.len(),
{
    if c.len() > 0 {
        metadata_keeps_playlists(l, c.drop_last());
    }
}

proof fn filter_drops_one<A>(s: Seq<A>, p: spec_fn(A) -> bool, k: int)
    requires
        forall|i: int| 0 <= i < s.len() && i != k ==> p(#[trigger] s[i]),
    ensures
        s.filter(p).len() + 1 >= s.len(),
    decreases s.len(),
{
    reveal(Seq::filter);
    if s.len() > 0 {
        let t = s.drop_last();
        assert forall|i: int| 0 <= i < t.len() && i != k implies p(#[trigger] t[i]) by {
            assert(t[i] == s[i]);
        }
        if k == s.len() - 1 {
            crate::seqs::filter_all(t, p);
        } else {
            filter_drops_one(t, p, k);
            assert(p(s[s.len() - 1]));
        }
    }
}

/// A deletion deletes at most one row of its own kind.
proof fn deletion_takes_one(l: LibraryView, kept: Set<Seq<char>>, t: TombstoneView)
    requires
        l.wf(),
    ensures
        deletion_taken(kept)(l, t).1 <= 1,
{
    if t.entity != "track"@ && t.entity != "playlist"@ && t.entity == "playlist_track"@ {
        if let Some(c) = colon_at(t.uid) {
            let pu = t.uid.subrange(0, c);
            let tu = t.uid.subrange(c + 1, t.uid.len() as int);
            let p = place_survives(l, pu, tu, t.deleted_at);
            let ms = l.playlist_tracks;
            let bad = first_where(ms, |m: PlaylistTrackRowView| !p(m));
            first_where_is_first(ms, |m: PlaylistTrackRowView| !p(m));
            match bad {
                Some(k) => {
                    assert forall|i: int| 0 <= i < ms.len() && i != k implies p(
                        #[trigger] ms[i],
                    ) by {
                        if !p(ms[i]) {
                            assert(!p(ms[k]));
                            if i < k {
                                assert(pair_of()(ms[i]) != pair_of()(ms[k]));
                            } else {
                                assert(pair_of()(ms[k]) != pair_of()(ms[i]));
                            }
                        }
                    }
                    filter_drops_one(ms, p, k);
                },
                None => {
                    assert forall|i: int| 0 <= i < ms.len() implies p(#[trigger] ms[i]) by {
                        assert(!(|m: PlaylistTrackRowView| !p(m))(ms[i]));
                    }
                    crate::seqs::filter_all(ms, p);
                },
            }
        }
    }
}

fn take_all_metadata(lib: &mut Library, tracks: &Vec<TrackEntry>) -> (r: usize)
    ensures
        (final(lib)@, r as nat) == all_taken(old(lib)@, views(tracks@), metadata_taken()),
        old(lib)@.wf() ==> final(lib)@.wf(),
{
    let ghost l0 = lib@;
    let ghost v = views(tracks@);
    let mut n: usize = 0;
    proof {
        taken_none(l0, v, metadata_taken());
    }
    for i in 0..tracks.len()
        invariant
            v == views(tracks@),
            n <= i,
            (lib@, n as nat) == all_taken(l0, v.take(i as int), metadata_taken()),
            l0.wf() ==> lib@.wf(),
    {
        proof {
            taken_one_more(l0, v, metadata_taken(), i as int);
        }
        if take_metadata(lib, &tracks[i]) {
            n = n + 1;
        }
    }
    proof {
        take_all(v);
    }
    n
}

/// How many playlists were created or renewed, and by which entries.
fn take_all_playlists(lib: &mut Library, playlists: &Vec<PlaylistEntry>) -> (r: (usize, Vec<usize>))
    requires
        next_playlist_id(old(lib)@.playlists) + playlists@.len() <= i64::MAX,
    ensures
        (final(lib)@, r.0 as nat) == all_taken(old(lib)@, views(playlists@), playlist_taken()),
        forall|k: int| 0 <= k < r.1@.len() ==> #[trigger] r.1@[k] < playlists@.len(),
        picked(views(playlists@), r.1@) == newer_ones(old(lib)@, views(playlists@)),
        old(lib)@.wf() ==> final(lib)@.wf(),
{
    let ghost l0 = lib@;
    let ghost v = views(playlists@);
    let mut n: usize = 0;
    let mut at: Vec<usize> = Vec::new();
    proof {
        taken_none(l0, v, playlist_taken());
        assert(v.take(0) =~= Seq::empty());
        assert(picked(v, at@) =~= newer_ones(l0, v.take(0)));
    }
    for i in 0..playlists.len()
        invariant
            v == views(playlists@),
            n <= i,
            next_playlist_id(l0.playlists) + v.len() <= i64::MAX,
            next_playlist_id(lib@.playlists) <= next_playlist_id(l0.playlists) + i,
            (lib@, n as nat) == all_taken(l0, v.take(i as int), playlist_taken()),
            forall|k: int| 0 <= k < at@.len() ==> #[trigger] at@[k] < playlists@.len(),
            picked(v, at@) == newer_ones(l0, v.take(i as int)),
            l0.wf() ==> lib@.wf(),
    {
        proof {
            taken_one_more(l0, v, playlist_taken(), i as int);
            newer_one_more(l0, v, i as int);
            next_id_grows(lib@, v[i as int]);
        }
        if take_playlist(lib, &playlists[i]) {
            n = n + 1;
            let ghost before = at@;
            at.push(i);
            assert(picked(v, at@) =~= picked(v, before).push(v[i as int]));
        }
    }
    proof {
        take_all(v);
    }
    (n, at)
}

fn take_all_parents(lib: &mut Library, playlists: &Vec<PlaylistEntry>, at: &Vec<usize>)
    requires
        forall|k: int| 0 <= k < at@.len() ==> #[trigger] at@[k] < playlists@.len(),
    ensures
        final(lib)@ == all_taken(old(lib)@, picked(views(playlists@), at@), parent_taken()).0,
        old(lib)@.wf() ==> final(lib)@.wf(),
{
    let ghost l0 = lib@;
    let ghost v = picked(views(playlists@), at@);
    proof {
        taken_none(l0, v, parent_taken());
    }
    for i in 0..at.len()
        invariant
            v == picked(views(playlists@), at@),
            forall|k: int| 0 <= k < at@.len() ==> #[trigger] at@[k] < playlists@.len(),
            lib@ == all_taken(l0, v.take(i as int), parent_taken()).0,
            l0.wf() ==> lib@.wf(),
    {
        proof {
            taken_one_more(l0, v, parent_taken(), i as int);
            assert(v[i as int] == playlists@[at@[i as int] as int]@);
        }
        take_parent(lib, &playlists[at[i]]);
    }
    proof {
        take_all(v);
    }
}

fn take_all_memberships(lib: &mut Library, memberships: &Vec<Membership>) -> (r: usize)
    ensures
        (final(lib)@, r as nat) == all_taken(old(lib)@, views(memberships@), membership_taken()),
        old(lib)@.wf() ==> final(lib)@.wf(),
{
    let ghost l0 = lib@;
    let ghost v = views(memberships@);
    let mut n: usize = 0;
    proof {
        taken_none(l0, v, membership_taken());
    }
    for i in 0..memberships.len()
        invariant
            v == views(memberships@),
            n <= i,
            (lib@, n as nat) == all_taken(l0, v.take(i as int), membership_taken()),
            l0.wf() ==> lib@.wf(),
    {
        proof {
            taken_one_more(l0, v, membership_taken(), i as int);
        }
        if take_membership(lib, &memberships[i]) {
            n = n + 1;
        }
    }
    proof {
        take_all(v);
    }
    n
}

fn keep_all_tombstones(lib: &mut Library, tombstones: &Vec<Tombstone>)
    ensures
        final(lib)@ == all_taken(old(lib)@, views(tombstones@), tombstone_kept()).0,
        old(lib)@.wf() ==> final(lib)@.wf(),
{
    let ghost l0 = lib@;
    let ghost v = views(tombstones@);
    proof {
        taken_none(l0, v, tombstone_kept());
    }
    for i in 0..tombstones.len()
        invariant
            v == views(tombstones@),
            lib@ == all_taken(l0, v.take(i as int), tombstone_kept()).0,
            l0.wf() ==> lib@.wf(),
    {
        proof {
            taken_one_more(l0, v, tombstone_kept(), i as int);
        }
        keep_tombstone(lib, &tombstones[i]);
    }
    proof {
        take_all(v);
    }
}

fn take_all_deletions(lib: &mut Library, tombstones: &Vec<Tombstone>, kept: &UidSet) -> (r: usize)
    requires
        old(lib)@.wf(),
    ensures
        (final(lib)@, r as nat) == all_taken(old(lib)@, views(tombstones@), deletion_taken(kept@)),
        final(lib)@.wf(),
{
    let ghost l0 = lib@;
    let ghost v = views(tombstones@);
    let mut n: usize = 0;
    proof {
        taken_none(l0, v, deletion_taken(kept@));
    }
    for i in 0..tombstones.len()
        invariant
            v == views(tombstones@),
            n <= i,
            (lib@, n as nat) == all_taken(l0, v.take(i as int), deletion_taken(kept@)),
            lib@.wf(),
    {
        proof {
            taken_one_more(l0, v, deletion_taken(kept@), i as int);
            deletion_takes_one(lib@, kept@, v[i as int]);
        }
        let d: usize = apply_tombstone(lib, &tombstones[i], kept);
        n = n + d;
    }
    proof {
        take_all(v);
    }
    n
}

/// Takes in what another device sent, deletions as the policy says; how much it
/// changed.
///
/// `kept` holds the uids of the tracks to delete whose file could not be moved
/// away (see `files_to_move_away`): they stay in the library.
pub fn apply(lib: &mut Library, changes: &Changes, policy: DeletePolicy, kept: &UidSet) -> (r:
    Applied)
    requires
        old(lib)@.wf(),
        room_for(old(lib)@, changes@),
    ensures
        ({
            let t = taken(old(lib)@, changes@, policy, kept@);
            &&& final(lib)@ == t.library
            &&& r.tracks == t.tracks
            &&& r.playlists == t.playlists
            &&& r.memberships == t.memberships
            &&& r.deleted == t.deleted
        }),
        final(lib)@.wf(),
{
    proof {
        metadata_keeps_playlists(lib@, changes@.tracks);
    }
    let tracks: usize = take_all_metadata(lib, &changes.tracks);
    let (playlists, newer) = take_all_playlists(lib, &changes.playlists);
    take_all_parents(lib, &changes.playlists, &newer);
    let memberships: usize = take_all_memberships(lib, &changes.memberships);
    keep_all_tombstones(lib, &changes.tombstones);
    let deleted: usize = if policy == DeletePolicy::Propagate {
        take_all_deletions(lib, &changes.tombstones, kept)
    } else {
        0
    };
    Applied { tracks, playlists, memberships, deleted }
}

/// The tables stay well formed from stage to stage.
pub(crate) proof fn stages_wf(l: LibraryView, c: ChangesView)
    requires
        l.wf(),
        room_for(l, c),
    ensures
        ({
            let l1 = all_taken(l, c.tracks, metadata_taken()).0;
            let l2 = all_taken(l1, c.playlists, playlist_taken()).0;
            &&& l1.wf()
            &&& l2.wf()
            &&& all_taken(l2, newer_ones(l1, c.playlists), parent_taken()).0.wf()
        }),
{
    metadata_stage_wf(l, c.tracks);
    metadata_keeps_playlists(l, c.tracks);
    let l1 = all_taken(l, c.tracks, metadata_taken()).0;
    playlist_stage_wf(l1, c.playlists);
    parent_stage_wf(
        all_taken(l1, c.playlists, playlist_taken()).0,
        newer_ones(l1, c.playlists),
    );
}

proof fn metadata_stage_wf(l: LibraryView, c: Seq<TrackEntryView>)
    requires
        l.wf(),
    ensures
        all_taken(l, c, metadata_taken()).0.wf(),
    decreases c.len(),
{
    if c.len() > 0 {
        metadata_stage_wf(l, c.drop_last());
        metadata_taken_wf(all_taken(l, c.drop_last(), metadata_taken()).0, c.last());
    }
}

proof fn playlist_stage_wf(l: LibraryView, c: Seq<PlaylistEntryView>)
    requires
        l.wf(),
        next_playlist_id(l.playlists) + c.len() <= i64::MAX,
    ensures
        all_taken(l, c, playlist_taken()).0.wf(),
        next_playlist_id(all_taken(l, c, playlist_taken()).0.playlists) <= next_playlist_id(
            l.playlists,
        ) + c.len(),
    decreases c.len(),
{
    if c.len() > 0 {
        playlist_stage_wf(l, c.drop_last());
        let m = all_taken(l, c.drop_last(), playlist_taken()).0;
        next_id_above_min(m.playlists);
        playlist_taken_wf(m, c.last());
        next_id_grows(m, c.last());
    }
}

proof fn parent_stage_wf(l: LibraryView, c: Seq<PlaylistEntryView>)
    requires
        l.wf(),
    ensures
        all_taken(l, c, parent_taken()).0.wf(),
    decreases c.len(),
{
    if c.len() > 0 {
        parent_stage_wf(l, c.drop_last());
        parent_taken_wf(all_taken(l, c.drop_last(), parent_taken()).0, c.last());
    }
}

/// The deletion is of a track that is here.
pub open spec fn deletes_a_track(l: LibraryView) -> spec_fn(TombstoneView) -> bool {
    |t: TombstoneView|
        t.entity == "track"@ && row_with(l.tracks, track_uid_key(), Some(t.uid)) is Some
}

/// The tracks, by uid and path, whose files have to be moved away before the
/// changes are taken in. What is not in the managed folder, or not there at all,
/// needs no moving.
pub fn files_to_move_away(lib: &Library, changes: &Changes, policy: DeletePolicy) -> (r: Vec<
    (String, String),
>)
    ensures
        policy != DeletePolicy::Propagate ==> r@.len() == 0,
        policy == DeletePolicy::Propagate ==> r@.len() == changes@.tombstones.filter(
            deletes_a_track(lib@),
        ).len() && forall|i: int|
            0 <= i < r@.len() ==> {
                let t = changes@.tombstones.filter(deletes_a_track(lib@))[i];
                (#[trigger] r@[i]).0@ == t.uid && r@[i].1@ == (row_with(
                    lib@.tracks,
                    track_uid_key(),
                    Some(t.uid),
                )->0).path
            },
{
    let mut r: Vec<(String, String)> = Vec::new();
    if policy != DeletePolicy::Propagate {
        return r;
    }
    let ghost all = changes@.tombstones;
    let ghost p = deletes_a_track(lib@);
    proof {
        take_none_filter(all, p);
    }
    for i in 0..changes.tombstones.len()
        invariant
            all == changes@.tombstones,
            p == deletes_a_track(lib@),
            r@.len() == all.take(i as int).filter(p).len(),
            forall|k: int|
                0 <= k < r@.len() ==> {
                    let t = all.take(i as int).filter(p)[k];
                    (#[trigger] r@[k]).0@ == t.uid && r@[k].1@ == (row_with(
                        lib@.tracks,
                        track_uid_key(),
                        Some(t.uid),
                    )->0).path
                },
    {
        let t: &Tombstone = &changes.tombstones[i];
        proof {
            filter_step(all, p, i as int);
            assert(all[i as int] == t@);
        }
        if same(t.entity.as_str(), "track") {
            if let Some(k) = find_track_uid(&lib.tracks, t.uid.as_str()) {
                r.push((t.uid.clone(), lib.tracks[k].path.clone()));
            }
        }
    }
    proof {
        take_all(all);
    }
    r
}

} // verus!
