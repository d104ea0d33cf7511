//! What a device has, and what synchronising two devices would do.
//!
//! Nothing is written here. Both sides tell each other what they have, and
//! `plan` works out what would have to move. Where there is doubt, things are
//! kept.

use crate::db::{device_uid_or, identity_or, is_uid_text, new_uid, with_identity};
use crate::library::{
    playlist_id, Library, LibraryView, PlaylistRow, PlaylistRowView, PlaylistTrackRow,
    PlaylistTrackRowView, TombstoneRowView, TrackRow, TrackRowView,
};
use crate::seqs::{count, filter_none, filter_step, take_all, take_none_filter, views, views_push};
use crate::text::{copy_opt, join3, opt_view, same};
use crate::tracks::{track_uid, track_uid_of};
use crate::tree::{playlist_uid, playlist_uid_of};
use vstd::hash_map::StringHashMap;
use vstd::hash_set::StringHashSet;
use vstd::prelude::*;

verus! {

broadcast use vstd::string::group_string_axioms;

/// One track of a device.
#[derive(Debug)]
pub struct TrackEntry {
    pub uid: String,
    /// Absent until the file has been hashed. Without it the file can be neither
    /// asked for nor checked, so it takes no part.
    pub hash: Option<String>,
    pub size: i64,
    pub filename: String,
    pub title: String,
    pub artist: String,
    pub album: String,
    pub genre: String,
    pub duration_ms: i64,
    pub bpm: Option<i64>,
    pub updated_at: i64,
    /// The file is on that device.
    pub present: bool,
}

pub struct TrackEntryView {
    pub uid: Seq<char>,
    pub hash: Option<Seq<char>>,
    pub size: i64,
    pub filename: Seq<char>,
    pub title: Seq<char>,
    pub artist: Seq<char>,
    pub album: Seq<char>,
    pub genre: Seq<char>,
    pub duration_ms: i64,
    pub bpm: Option<i64>,
    pub updated_at: i64,
    pub present: bool,
}

impl View for TrackEntry {
    type V = TrackEntryView;

    open spec fn view(&self) -> TrackEntryView {
        TrackEntryView {
            uid: self.uid@,
            hash: opt_view(self.hash),
            size: self.size,
            filename: self.filename@,
            title: self.title@,
            artist: self.artist@,
            album: self.album@,
            genre: self.genre@,
            duration_ms: self.duration_ms,
            bpm: self.bpm,
            updated_at: self.updated_at,
            present: self.present,
        }
    }
}

impl Clone for TrackEntry {
    fn clone(&self) -> (r: Self)
        ensures
            r@ == self@,
    {
        TrackEntry {
            uid: self.uid.clone(),
            hash: copy_opt(&self.hash),
            size: self.size,
            filename: self.filename.clone(),
            title: self.title.clone(),
            artist: self.artist.clone(),
            album: self.album.clone(),
            genre: self.genre.clone(),
            duration_ms: self.duration_ms,
            bpm: self.bpm,
            updated_at: self.updated_at,
            present: self.present,
        }
    }
}

/// One playlist or folder of a device. The parent is named by its uid: row ids
/// mean nothing on the other side.
#[derive(Debug)]
pub struct PlaylistEntry {
    pub uid: String,
    pub name: String,
    pub kind: String,
    pub parent_uid: Option<String>,
    pub rank: String,
    pub updated_at: i64,
}

pub struct PlaylistEntryView {
    pub uid: Seq<char>,
    pub name: Seq<char>,
    pub kind: Seq<char>,
    pub parent_uid: Option<Seq<char>>,
    pub rank: Seq<char>,
    pub updated_at: i64,
}

impl View for PlaylistEntry {
    type V = PlaylistEntryView;

    open spec fn view(&self) -> PlaylistEntryView {
        PlaylistEntryView {
            uid: self.uid@,
            name: self.name@,
            kind: self.kind@,
            parent_uid: opt_view(self.parent_uid),
            rank: self.rank@,
            updated_at: self.updated_at,
        }
    }
}

impl Clone for PlaylistEntry {
    fn clone(&self) -> (r: Self)
        ensures
            r@ == self@,
    {
        PlaylistEntry {
            uid: self.uid.clone(),
            name: self.name.clone(),
            kind: self.kind.clone(),
            parent_uid: copy_opt(&self.parent_uid),
            rank: self.rank.clone(),
            updated_at: self.updated_at,
        }
    }
}

/// A track inside a playlist, with its place and the moment it was put there.
#[derive(Debug)]
pub struct Membership {
    pub playlist_uid: String,
    pub track_uid: String,
    pub rank: String,
    pub added_at: i64,
}

pub struct MembershipView {
    pub playlist_uid: Seq<char>,
    pub track_uid: Seq<char>,
    pub rank: Seq<char>,
    pub added_at: i64,
}

impl View for Membership {
    type V = MembershipView;

    open spec fn view(&self) -> MembershipView {
        MembershipView {
            playlist_uid: self.playlist_uid@,
            track_uid: self.track_uid@,
            rank: self.rank@,
            added_at: self.added_at,
        }
    }
}

impl Clone for Membership {
    fn clone(&self) -> (r: Self)
        ensures
            r@ == self@,
    {
        Membership {
            playlist_uid: self.playlist_uid.clone(),
            track_uid: self.track_uid.clone(),
            rank: self.rank.clone(),
            added_at: self.added_at,
        }
    }
}

/// The record that something was deleted.
#[derive(Debug)]
pub struct Tombstone {
    pub entity: String,
    pub uid: String,
    pub deleted_at: i64,
}

pub struct TombstoneView {
    pub entity: Seq<char>,
    pub uid: Seq<char>,
    pub deleted_at: i64,
}

impl View for Tombstone {
    type V = TombstoneView;

    open spec fn view(&self) -> TombstoneView {
        TombstoneView { entity: self.entity@, uid: self.uid@, deleted_at: self.deleted_at }
    }
}

impl Clone for Tombstone {
    fn clone(&self) -> (r: Self)
        ensures
            r@ == self@,
    {
        Tombstone {
            entity: self.entity.clone(),
            uid: self.uid.clone(),
            deleted_at: self.deleted_at,
        }
    }
}

/// Whether a device wants a playlist. Unmarking leaves the row, with `selected`
/// off: a missing row would come back from the other side.
#[derive(Debug)]
pub struct ScopeEntry {
    pub device_uid: String,
    pub playlist_uid: String,
    pub selected: bool,
    pub updated_at: i64,
}

pub struct ScopeEntryView {
    pub device_uid: Seq<char>,
    pub playlist_uid: Seq<char>,
    pub selected: bool,
    pub updated_at: i64,
}

impl View for ScopeEntry {
    type V = ScopeEntryView;

    open spec fn view(&self) -> ScopeEntryView {
        ScopeEntryView {
            device_uid: self.device_uid@,
            playlist_uid: self.playlist_uid@,
            selected: self.selected,
            updated_at: self.updated_at,
        }
    }
}

impl Clone for ScopeEntry {
    fn clone(&self) -> (r: Self)
        ensures
            r@ == self@,
    {
        ScopeEntry {
            device_uid: self.device_uid.clone(),
            playlist_uid: self.playlist_uid.clone(),
            selected: self.selected,
            updated_at: self.updated_at,
        }
    }
}

/// What a device does, and whether it wants everything or a selection.
#[derive(Debug)]
pub struct DeviceSync {
    pub device_uid: String,
    pub mode: String,
    pub direction: String,
    pub updated_at: i64,
}

pub struct DeviceSyncView {
    pub device_uid: Seq<char>,
    pub mode: Seq<char>,
    pub direction: Seq<char>,
    pub updated_at: i64,
}

impl View for DeviceSync {
    type V = DeviceSyncView;

    open spec fn view(&self) -> DeviceSyncView {
        DeviceSyncView {
            device_uid: self.device_uid@,
            mode: self.mode@,
            direction: self.direction@,
            updated_at: self.updated_at,
        }
    }
}

impl Clone for DeviceSync {
    fn clone(&self) -> (r: Self)
        ensures
            r@ == self@,
    {
        DeviceSync {
            device_uid: self.device_uid.clone(),
            mode: self.mode.clone(),
            direction: self.direction.clone(),
            updated_at: self.updated_at,
        }
    }
}

/// Everything that a device has.
#[derive(Debug)]
pub struct Manifest {
    pub device_uid: String,
    pub tracks: Vec<TrackEntry>,
    pub playlists: Vec<PlaylistEntry>,
    pub memberships: Vec<Membership>,
    pub tombstones: Vec<Tombstone>,
}

pub struct ManifestView {
    pub device_uid: Seq<char>,
    pub tracks: Seq<TrackEntryView>,
    pub playlists: Seq<PlaylistEntryView>,
    pub memberships: Seq<MembershipView>,
    pub tombstones: Seq<TombstoneView>,
}

impl View for Manifest {
    type V = ManifestView;

    open spec fn view(&self) -> ManifestView {
        ManifestView {
            device_uid: self.device_uid@,
            tracks: views(self.tracks@),
            playlists: views(self.playlists@),
            memberships: views(self.memberships@),
            tombstones: views(self.tombstones@),
        }
    }
}

/// A file that one side has and the other lacks.
#[derive(Debug)]
pub struct FileTransfer {
    pub track_uid: String,
    pub hash: String,
    pub filename: String,
    pub size: i64,
}

pub struct FileTransferView {
    pub track_uid: Seq<char>,
    pub hash: Seq<char>,
    pub filename: Seq<char>,
    pub size: i64,
}

impl View for FileTransfer {
    type V = FileTransferView;

    open spec fn view(&self) -> FileTransferView {
        FileTransferView {
            track_uid: self.track_uid@,
            hash: self.hash@,
            filename: self.filename@,
            size: self.size,
        }
    }
}

impl Clone for FileTransfer {
    fn clone(&self) -> (r: Self)
        ensures
            r@ == self@,
    {
        FileTransfer {
            track_uid: self.track_uid.clone(),
            hash: self.hash.clone(),
            filename: self.filename.clone(),
            size: self.size,
        }
    }
}

impl Default for FileTransfer {
    fn default() -> (r: Self)
        ensures
            r@ == (FileTransferView {
                track_uid: Seq::empty(),
                hash: Seq::empty(),
                filename: Seq::empty(),
                size: 0,
            }),
    {
        FileTransfer {
            track_uid: String::new(),
            hash: String::new(),
            filename: String::new(),
            size: 0,
        }
    }
}

/// What would happen if two devices synchronised now.
#[derive(Debug)]
pub struct Plan {
    /// Files that the other side has and this one lacks.
    pub pull_files: Vec<FileTransfer>,
    /// Files that this side has and the other lacks.
    pub push_files: Vec<FileTransfer>,
    /// Tracks whose metadata is newer on the other side, and here.
    pub pull_meta: usize,
    pub push_meta: usize,
    /// Playlists and folders that exist only there, and only here.
    pub pull_playlists: usize,
    pub push_playlists: usize,
    /// Tracks that are in a playlist only there, and only here.
    pub pull_memberships: usize,
    pub push_memberships: usize,
    /// Deletions that would be applied here, and there.
    pub deletes_in: usize,
    pub deletes_out: usize,
    /// Tracks that take no part because they have no hash yet.
    pub unhashed: usize,
}

impl Default for Plan {
    fn default() -> (r: Self)
        ensures
            r.pull_files@.len() == 0,
            r.push_files@.len() == 0,
            r.pull_meta == 0,
            r.push_meta == 0,
            r.pull_playlists == 0,
            r.push_playlists == 0,
            r.pull_memberships == 0,
            r.push_memberships == 0,
            r.deletes_in == 0,
            r.deletes_out == 0,
            r.unhashed == 0,
    {
        Plan {
            pull_files: Vec::new(),
            push_files: Vec::new(),
            pull_meta: 0,
            push_meta: 0,
            pull_playlists: 0,
            push_playlists: 0,
            pull_memberships: 0,
            push_memberships: 0,
            deletes_in: 0,
            deletes_out: 0,
            unhashed: 0,
        }
    }
}

/// The sum of the sizes of some files.
pub open spec fn total_size(files: Seq<FileTransferView>) -> int
    decreases files.len(),
{
    if files.len() == 0 {
        0
    } else {
        total_size(files.drop_last()) + files.last().size
    }
}

/// The sizes can be summed from the first to the last without leaving `i64`.
pub open spec fn sizes_fit(files: Seq<FileTransferView>) -> bool {
    forall|i: int|
        0 <= i <= files.len() ==> i64::MIN <= #[trigger] total_size(files.take(i)) <= i64::MAX
}

fn sum_sizes(files: &Vec<FileTransfer>) -> (r: i64)
    requires
        sizes_fit(views(files@)),
    ensures
        r == total_size(views(files@)),
{
    let mut n: i64 = 0;
    let ghost all = views(files@);
    proof {
        assert(all.take(0) =~= Seq::empty());
    }
    for i in 0..files.len()
        invariant
            all == views(files@),
            sizes_fit(all),
            n == total_size(all.take(i as int)),
    {
        proof {
            assert(all.take(i + 1).drop_last() =~= all.take(i as int));
            assert(all.take(i + 1).last() == files@[i as int]@);
            assert(i64::MIN <= total_size(all.take(i + 1)) <= i64::MAX);
        }
        n = n + files[i].size;
    }
    proof {
        take_all(all);
    }
    n
}

impl Plan {
    /// How many bytes would come in.
    pub fn bytes_in(&self) -> (r: i64)
        requires
            sizes_fit(views(self.pull_files@)),
        ensures
            r == total_size(views(self.pull_files@)),
    {
        sum_sizes(&self.pull_files)
    }

    /// How many bytes would go out.
    pub fn bytes_out(&self) -> (r: i64)
        requires
            sizes_fit(views(self.push_files@)),
        ensures
            r == total_size(views(self.push_files@)),
    {
        sum_sizes(&self.push_files)
    }

    /// Nothing would move in either direction.
    pub open spec fn nothing_to_do(&self) -> bool {
        &&& self.pull_files@.len() == 0
        &&& self.push_files@.len() == 0
        &&& self.pull_meta == 0
        &&& self.push_meta == 0
        &&& self.pull_playlists == 0
        &&& self.push_playlists == 0
        &&& self.pull_memberships == 0
        &&& self.push_memberships == 0
        &&& self.deletes_in == 0
        &&& self.deletes_out == 0
    }

    /// Whether there is nothing to do.
    pub fn is_empty(&self) -> (r: bool)
        ensures
            r == self.nothing_to_do(),
    {
        self.pull_files.is_empty() && self.push_files.is_empty() && self.pull_meta == 0
            && self.push_meta == 0 && self.pull_playlists == 0 && self.push_playlists == 0
            && self.pull_memberships == 0 && self.push_memberships == 0 && self.deletes_in == 0
            && self.deletes_out == 0
    }
}

/// A tombstone for that thing is among those of `m`.
pub open spec fn has_tombstone_for(
    tombstones: Seq<TombstoneView>,
    entity: Seq<char>,
    uid: Seq<char>,
) -> bool {
    exists|i: int|
        0 <= i < tombstones.len() && (#[trigger] tombstones[i]).entity == entity
            && tombstones[i].uid == uid
}

/// Whether `m` records that the thing was deleted.
pub fn tombstoned(m: &Manifest, entity: &str, uid: &str) -> (r: bool)
    ensures
        r == has_tombstone_for(m@.tombstones, entity@, uid@),
{
    for i in 0..m.tombstones.len()
        invariant
            forall|j: int|
                0 <= j < i ==> !((#[trigger] m@.tombstones[j]).entity == entity@
                    && m@.tombstones[j].uid == uid@),
    {
        if same(m.tombstones[i].entity.as_str(), entity) && same(m.tombstones[i].uid.as_str(), uid) {
            proof {
                assert(m@.tombstones[i as int].entity == entity@);
            }
            return true;
        }
    }
    false
}

pub open spec fn track_entry_uid() -> spec_fn(TrackEntryView) -> Seq<char> {
    |t: TrackEntryView| t.uid
}

pub open spec fn playlist_entry_uid() -> spec_fn(PlaylistEntryView) -> Seq<char> {
    |p: PlaylistEntryView| p.uid
}

pub open spec fn tombstone_entry_key() -> spec_fn(TombstoneView) -> (Seq<char>, Seq<char>) {
    |t: TombstoneView| (t.entity, t.uid)
}

/// How a track inside a playlist is named: the two uids with a colon between.
pub open spec fn pair_key_of(playlist_uid: Seq<char>, track_uid: Seq<char>) -> Seq<char> {
    playlist_uid + ":"@ + track_uid
}

/// The name of a track inside a playlist.
pub fn pair_key(playlist_uid: &str, track_uid: &str) -> (r: String)
    ensures
        r@ == pair_key_of(playlist_uid@, track_uid@),
{
    join3(playlist_uid, ":", track_uid)
}

/// The name under which tombstones speak of a membership.
pub open spec fn key_of(m: MembershipView) -> Seq<char> {
    pair_key_of(m.playlist_uid, m.track_uid)
}

pub open spec fn has_track(m: ManifestView, uid: Seq<char>) -> bool {
    exists|i: int| 0 <= i < m.tracks.len() && (#[trigger] m.tracks[i]).uid == uid
}

pub open spec fn has_playlist(m: ManifestView, uid: Seq<char>) -> bool {
    exists|i: int| 0 <= i < m.playlists.len() && (#[trigger] m.playlists[i]).uid == uid
}

pub open spec fn has_membership(m: ManifestView, key: Seq<char>) -> bool {
    exists|i: int| 0 <= i < m.memberships.len() && key_of(#[trigger] m.memberships[i]) == key
}

/// Some track, playlist or membership of `m` is what `(entity, uid)` names.
pub open spec fn names_something(m: ManifestView, entity: Seq<char>, uid: Seq<char>) -> bool {
    if entity == "track"@ {
        has_track(m, uid)
    } else if entity == "playlist"@ {
        has_playlist(m, uid)
    } else if entity == "playlist_track"@ {
        has_membership(m, uid)
    } else {
        false
    }
}

fn finds_track(m: &Manifest, uid: &str) -> (r: bool)
    ensures
        r == has_track(m@, uid@),
{
    for i in 0..m.tracks.len()
        invariant
            forall|j: int| 0 <= j < i ==> (#[trigger] m@.tracks[j]).uid != uid@,
    {
        if same(m.tracks[i].uid.as_str(), uid) {
            proof {
                assert(m@.tracks[i as int].uid == uid@);
            }
            return true;
        }
    }
    false
}

fn finds_playlist(m: &Manifest, uid: &str) -> (r: bool)
    ensures
        r == has_playlist(m@, uid@),
{
    for i in 0..m.playlists.len()
        invariant
            forall|j: int| 0 <= j < i ==> (#[trigger] m@.playlists[j]).uid != uid@,
    {
        if same(m.playlists[i].uid.as_str(), uid) {
            proof {
                assert(m@.playlists[i as int].uid == uid@);
            }
            return true;
        }
    }
    false
}

fn finds_membership(m: &Manifest, key: &str) -> (r: bool)
    ensures
        r == has_membership(m@, key@),
{
    for i in 0..m.memberships.len()
        invariant
            forall|j: int| 0 <= j < i ==> key_of(#[trigger] m@.memberships[j]) != key@,
    {
        let x: &Membership = &m.memberships[i];
        let mine: String = pair_key(x.playlist_uid.as_str(), x.track_uid.as_str());
        if same(mine.as_str(), key) {
            proof {
                assert(key_of(m@.memberships[i as int]) == key@);
            }
            return true;
        }
    }
    false
}

/// Whether `m` still has what `(entity, uid)` names.
pub fn exists_in(m: &Manifest, entity: &str, uid: &str) -> (r: bool)
    ensures
        r == names_something(m@, entity@, uid@),
{
    if same(entity, "track") {
        finds_track(m, uid)
    } else if same(entity, "playlist") {
        finds_playlist(m, uid)
    } else if same(entity, "playlist_track") {
        finds_membership(m, uid)
    } else {
        false
    }
}

/// The contents that a device can hand out: the hashes of the files it holds.
pub open spec fn held_hashes(m: ManifestView) -> Set<Seq<char>> {
    Set::new(
        |h: Seq<char>|
            exists|i: int|
                0 <= i < m.tracks.len() && (#[trigger] m.tracks[i]).present && m.tracks[i].hash
                    == Some(h),
    )
}

/// A track of `from` whose file `to` should get: the file is there and hashed,
/// `to` has no file of the same content, and `to` did not delete that track.
pub open spec fn file_wanted(to: ManifestView) -> spec_fn(TrackEntryView) -> bool {
    |t: TrackEntryView|
        t.present && t.hash is Some && !held_hashes(to).contains(t.hash->0) && !has_tombstone_for(
            to.tombstones,
            "track"@,
            t.uid,
        )
}

pub open spec fn transfer_of(t: TrackEntryView) -> FileTransferView {
    FileTransferView { track_uid: t.uid, hash: t.hash->0, filename: t.filename, size: t.size }
}

/// The files that would travel from one side to the other, in the sender's order.
pub open spec fn files_to_send(from: ManifestView, to: ManifestView) -> Seq<FileTransferView> {
    from.tracks.filter(file_wanted(to)).map_values(|t: TrackEntryView| transfer_of(t))
}

/// The entry at `i` is the last one of its track. Where a track is listed twice,
/// the last entry is the one that counts.
pub open spec fn is_last_of_uid(tracks: Seq<TrackEntryView>, i: int) -> bool {
    &&& 0 <= i < tracks.len()
    &&& forall|j: int| i < j < tracks.len() ==> (#[trigger] tracks[j]).uid != tracks[i].uid
}

/// `b` has the track at `i` of `a`, with metadata older than that of `a`.
pub open spec fn is_newer_than_in(
    a: Seq<TrackEntryView>,
    b: Seq<TrackEntryView>,
) -> spec_fn(int) -> bool {
    |i: int|
        is_last_of_uid(a, i) && exists|k: int|
            #![trigger b[k]]
            is_last_of_uid(b, k) && b[k].uid == a[i].uid && a[i].updated_at > b[k].updated_at
}

/// How many tracks that both have are newer in `a`.
pub open spec fn newer_tracks(a: Seq<TrackEntryView>, b: Seq<TrackEntryView>) -> nat {
    count(Seq::new(a.len(), |i: int| i), is_newer_than_in(a, b))
}

pub open spec fn playlist_uids(m: ManifestView) -> Set<Seq<char>> {
    Set::new(|u: Seq<char>| has_playlist(m, u))
}

/// A playlist that `to` neither has nor deleted.
pub open spec fn playlist_wanted(to: ManifestView) -> spec_fn(PlaylistEntryView) -> bool {
    |p: PlaylistEntryView|
        !playlist_uids(to).contains(p.uid) && !has_tombstone_for(
            to.tombstones,
            "playlist"@,
            p.uid,
        )
}

pub open spec fn membership_keys(m: ManifestView) -> Set<Seq<char>> {
    Set::new(|k: Seq<char>| has_membership(m, k))
}

/// A track inside a playlist that `to` neither has nor removed.
pub open spec fn membership_wanted(to: ManifestView) -> spec_fn(MembershipView) -> bool {
    |m: MembershipView|
        !membership_keys(to).contains(key_of(m)) && !has_tombstone_for(
            to.tombstones,
            "playlist_track"@,
            key_of(m),
        )
}

/// A tombstone of something that `m` still has.
pub open spec fn still_in(m: ManifestView) -> spec_fn(TombstoneView) -> bool {
    |t: TombstoneView| names_something(m, t.entity, t.uid)
}

pub open spec fn lacks_hash() -> spec_fn(TrackEntryView) -> bool {
    |t: TrackEntryView| t.hash is None
}

fn held(m: &Manifest) -> (r: StringHashSet)
    ensures
        r@ == held_hashes(m@),
{
    let mut r: StringHashSet = StringHashSet::new();
    for i in 0..m.tracks.len()
        invariant
            forall|h: Seq<char>| #[trigger]
                r@.contains(h) <==> exists|j: int|
                    0 <= j < i && (#[trigger] m@.tracks[j]).present && m@.tracks[j].hash == Some(h),
    {
        let ghost before = r@;
        if m.tracks[i].present {
            if let Some(h) = &m.tracks[i].hash {
                r.insert(h.clone());
                proof {
                    assert(m@.tracks[i as int].present && m@.tracks[i as int].hash == Some(h@));
                }
            }
        }
        proof {
            assert forall|h: Seq<char>| #[trigger]
                r@.contains(h) <==> exists|j: int|
                    0 <= j < i + 1 && (#[trigger] m@.tracks[j]).present && m@.tracks[j].hash
                        == Some(h) by {
                if before.contains(h) {
                    let j = choose|j: int|
                        0 <= j < i && (#[trigger] m@.tracks[j]).present && m@.tracks[j].hash == Some(
                            h,
                        );
                    assert(0 <= j < i + 1 && m@.tracks[j].present);
                }
            }
        }
    }
    proof {
        assert(r@ =~= held_hashes(m@));
    }
    r
}

fn uids_of_playlists(m: &Manifest) -> (r: StringHashSet)
    ensures
        r@ == playlist_uids(m@),
{
    let mut r: StringHashSet = StringHashSet::new();
    for i in 0..m.playlists.len()
        invariant
            forall|u: Seq<char>| #[trigger]
                r@.contains(u) <==> exists|j: int| 0 <= j < i && (#[trigger] m@.playlists[j]).uid == u,
    {
        let ghost before = r@;
        r.insert(m.playlists[i].uid.clone());
        proof {
            assert forall|u: Seq<char>| #[trigger]
                r@.contains(u) <==> exists|j: int|
                    0 <= j < i + 1 && (#[trigger] m@.playlists[j]).uid == u by {
                assert(m@.playlists[i as int].uid == m.playlists@[i as int].uid@);
                if before.contains(u) {
                    let j = choose|j: int| 0 <= j < i && (#[trigger] m@.playlists[j]).uid == u;
                    assert(0 <= j < i + 1 && m@.playlists[j].uid == u);
                }
            }
        }
    }
    proof {
        assert(r@ =~= playlist_uids(m@));
    }
    r
}

fn keys_of_memberships(m: &Manifest) -> (r: StringHashSet)
    ensures
        r@ == membership_keys(m@),
{
    let mut r: StringHashSet = StringHashSet::new();
    for i in 0..m.memberships.len()
        invariant
            forall|u: Seq<char>| #[trigger]
                r@.contains(u) <==> exists|j: int|
                    0 <= j < i && key_of(#[trigger] m@.memberships[j]) == u,
    {
        let ghost before = r@;
        let x: &Membership = &m.memberships[i];
        r.insert(pair_key(x.playlist_uid.as_str(), x.track_uid.as_str()));
        proof {
            assert forall|u: Seq<char>| #[trigger]
                r@.contains(u) <==> exists|j: int|
                    0 <= j < i + 1 && key_of(#[trigger] m@.memberships[j]) == u by {
                assert(m@.memberships[i as int] == x@);
                if before.contains(u) {
                    let j = choose|j: int| 0 <= j < i && key_of(#[trigger] m@.memberships[j]) == u;
                    assert(0 <= j < i + 1 && key_of(m@.memberships[j]) == u);
                }
            }
        }
    }
    proof {
        assert(r@ =~= membership_keys(m@));
    }
    r
}

/// The files to send, and nothing else.
fn files_for(from: &Manifest, to: &Manifest, there: &StringHashSet) -> (r: Vec<FileTransfer>)
    requires
        there@ == held_hashes(to@),
    ensures
        views(r@) == files_to_send(from@, to@),
{
    let mut r: Vec<FileTransfer> = Vec::new();
    let ghost p = file_wanted(to@);
    let ghost f = |t: TrackEntryView| transfer_of(t);
    proof {
        take_none_filter(from@.tracks, p);
        assert(views(r@) =~= from@.tracks.take(0).filter(p).map_values(f));
    }
    for i in 0..from.tracks.len()
        invariant
            there@ == held_hashes(to@),
            p == file_wanted(to@),
            f == (|t: TrackEntryView| transfer_of(t)),
            views(r@) == from@.tracks.take(i as int).filter(p).map_values(f),
    {
        let t: &TrackEntry = &from.tracks[i];
        proof {
            filter_step(from@.tracks, p, i as int);
            assert(from@.tracks[i as int] == t@);
        }
        let ghost so_far = from@.tracks.take(i as int).filter(p);
        if t.present {
            if let Some(h) = &t.hash {
                if !there.contains(h.as_str()) && !tombstoned(to, "track", t.uid.as_str()) {
                    let x: FileTransfer = FileTransfer {
                        track_uid: t.uid.clone(),
                        hash: h.clone(),
                        filename: t.filename.clone(),
                        size: t.size,
                    };
                    proof {
                        views_push(r@, x);
                        assert(x@ == transfer_of(t@));
                        assert(so_far.push(t@).map_values(f) =~= so_far.map_values(f).push(f(t@)));
                    }
                    r.push(x);
                }
            }
        }
    }
    proof {
        take_all(from@.tracks);
    }
    r
}

/// Where the last entry of each track stands.
fn last_by_uid(m: &Manifest) -> (r: StringHashMap<usize>)
    ensures
        forall|u: Seq<char>| #[trigger] r@.contains_key(u) <==> has_track(m@, u),
        forall|u: Seq<char>| #[trigger]
            r@.contains_key(u) ==> is_last_of_uid(m@.tracks, r@[u] as int)
                && m@.tracks[r@[u] as int].uid == u,
{
    let mut r: StringHashMap<usize> = StringHashMap::new();
    for i in 0..m.tracks.len()
        invariant
            forall|u: Seq<char>| #[trigger]
                r@.contains_key(u) <==> exists|j: int| 0 <= j < i && (#[trigger] m@.tracks[j]).uid == u,
            forall|u: Seq<char>| #[trigger]
                r@.contains_key(u) ==> r@[u] < i && m@.tracks[r@[u] as int].uid == u,
            forall|u: Seq<char>, j: int| #![trigger r@.contains_key(u), m@.tracks[j]]
                r@.contains_key(u) && r@[u] < j < i ==> m@.tracks[j].uid != u,
    {
        let ghost before = r@;
        r.insert(m.tracks[i].uid.clone(), i);
        proof {
            assert(m@.tracks[i as int].uid == m.tracks@[i as int].uid@);
            assert forall|u: Seq<char>| #[trigger]
                r@.contains_key(u) <==> exists|j: int|
                    0 <= j < i + 1 && (#[trigger] m@.tracks[j]).uid == u by {
                if before.contains_key(u) {
                    let j = choose|j: int| 0 <= j < i && (#[trigger] m@.tracks[j]).uid == u;
                    assert(0 <= j < i + 1 && m@.tracks[j].uid == u);
                }
            }
        }
    }
    r
}

/// How many tracks are newer in `a` than in `b`, among those both have.
fn count_newer(
    a: &Manifest,
    b: &Manifest,
    a_last: &StringHashMap<usize>,
    b_last: &StringHashMap<usize>,
) -> (r: usize)
    requires
        forall|u: Seq<char>| #[trigger] a_last@.contains_key(u) <==> has_track(a@, u),
        forall|u: Seq<char>| #[trigger]
            a_last@.contains_key(u) ==> is_last_of_uid(a@.tracks, a_last@[u] as int)
                && a@.tracks[a_last@[u] as int].uid == u,
        forall|u: Seq<char>| #[trigger] b_last@.contains_key(u) <==> has_track(b@, u),
        forall|u: Seq<char>| #[trigger]
            b_last@.contains_key(u) ==> is_last_of_uid(b@.tracks, b_last@[u] as int)
                && b@.tracks[b_last@[u] as int].uid == u,
    ensures
        r == newer_tracks(a@.tracks, b@.tracks),
{
    let mut n: usize = 0;
    let ghost p = is_newer_than_in(a@.tracks, b@.tracks);
    let ghost idx = Seq::new(a@.tracks.len(), |i: int| i);
    proof {
        take_none_filter(idx, p);
    }
    for i in 0..a.tracks.len()
        invariant
            p == is_newer_than_in(a@.tracks, b@.tracks),
            idx == Seq::new(a@.tracks.len(), |i: int| i),
            n == count(idx.take(i as int), p),
            n <= i,
            forall|u: Seq<char>| #[trigger] a_last@.contains_key(u) <==> has_track(a@, u),
            forall|u: Seq<char>| #[trigger]
                a_last@.contains_key(u) ==> is_last_of_uid(a@.tracks, a_last@[u] as int)
                    && a@.tracks[a_last@[u] as int].uid == u,
            forall|u: Seq<char>| #[trigger] b_last@.contains_key(u) <==> has_track(b@, u),
            forall|u: Seq<char>| #[trigger]
                b_last@.contains_key(u) ==> is_last_of_uid(b@.tracks, b_last@[u] as int)
                    && b@.tracks[b_last@[u] as int].uid == u,
    {
        let t: &TrackEntry = &a.tracks[i];
        proof {
            filter_step(idx, p, i as int);
            assert(a@.tracks[i as int] == t@);
            assert(has_track(a@, t.uid@));
            assert(a_last@.contains_key(t.uid@));
        }
        let mut newer: bool = false;
        if let Some(last) = a_last.get(t.uid.as_str()) {
            if *last == i {
                if let Some(k) = b_last.get(t.uid.as_str()) {
                    proof {
                        assert(b_last@.contains_key(t.uid@));
                        assert(b@.tracks[*k as int].uid == t.uid@);
                    }
                    newer = t.updated_at > b.tracks[*k].updated_at;
                }
            }
        }
        proof {
            let l = a_last@[t.uid@];
            assert(a@.tracks[l as int].uid == t.uid@);
            if newer {
                let k = b_last@[t.uid@];
                assert(b@.tracks[k as int].uid == a@.tracks[i as int].uid);
                assert(p(i as int));
            }
            if p(i as int) {
                let k = choose|k: int|
                    #![trigger b@.tracks[k]]
                    is_last_of_uid(b@.tracks, k) && b@.tracks[k].uid == a@.tracks[i as int].uid
                        && a@.tracks[i as int].updated_at > b@.tracks[k].updated_at;
                assert(has_track(b@, t.uid@));
                assert(b_last@.contains_key(t.uid@));
                let k2 = b_last@[t.uid@];
                assert(b@.tracks[k2 as int].uid == t.uid@);
                assert(k == k2);
                assert(l == i);
            }
        }
        if newer {
            n = n + 1;
        }
    }
    proof {
        take_all(idx);
    }
    n
}

fn count_unhashed(m: &Manifest) -> (r: usize)
    ensures
        r == count(m@.tracks, lacks_hash()),
{
    let mut n: usize = 0;
    let ghost p = lacks_hash();
    proof {
        take_none_filter(m@.tracks, p);
    }
    for i in 0..m.tracks.len()
        invariant
            p == lacks_hash(),
            n == count(m@.tracks.take(i as int), p),
            n <= i,
    {
        proof {
            filter_step(m@.tracks, p, i as int);
        }
        if m.tracks[i].hash.is_none() {
            n = n + 1;
        }
    }
    proof {
        take_all(m@.tracks);
    }
    n
}

fn count_playlists(from: &Manifest, to: &Manifest) -> (r: usize)
    ensures
        r == count(from@.playlists, playlist_wanted(to@)),
{
    let there: StringHashSet = uids_of_playlists(to);
    let mut n: usize = 0;
    let ghost p = playlist_wanted(to@);
    proof {
        take_none_filter(from@.playlists, p);
    }
    for i in 0..from.playlists.len()
        invariant
            p == playlist_wanted(to@),
            there@ == playlist_uids(to@),
            n == count(from@.playlists.take(i as int), p),
            n <= i,
    {
        let x: &PlaylistEntry = &from.playlists[i];
        proof {
            filter_step(from@.playlists, p, i as int);
            assert(from@.playlists[i as int] == x@);
        }
        if !there.contains(x.uid.as_str()) && !tombstoned(to, "playlist", x.uid.as_str()) {
            n = n + 1;
        }
    }
    proof {
        take_all(from@.playlists);
    }
    n
}

fn count_memberships(from: &Manifest, to: &Manifest) -> (r: usize)
    ensures
        r == count(from@.memberships, membership_wanted(to@)),
{
    let there: StringHashSet = keys_of_memberships(to);
    let mut n: usize = 0;
    let ghost p = membership_wanted(to@);
    proof {
        take_none_filter(from@.memberships, p);
    }
    for i in 0..from.memberships.len()
        invariant
            p == membership_wanted(to@),
            there@ == membership_keys(to@),
            n == count(from@.memberships.take(i as int), p),
            n <= i,
    {
        let x: &Membership = &from.memberships[i];
        let key: String = pair_key(x.playlist_uid.as_str(), x.track_uid.as_str());
        proof {
            filter_step(from@.memberships, p, i as int);
            assert(from@.memberships[i as int] == x@);
        }
        if !there.contains(key.as_str()) && !tombstoned(to, "playlist_track", key.as_str()) {
            n = n + 1;
        }
    }
    proof {
        take_all(from@.memberships);
    }
    n
}

fn count_deletes(from: &Manifest, to: &Manifest) -> (r: usize)
    ensures
        r == count(from@.tombstones, still_in(to@)),
{
    let mut n: usize = 0;
    let ghost p = still_in(to@);
    proof {
        take_none_filter(from@.tombstones, p);
    }
    for i in 0..from.tombstones.len()
        invariant
            p == still_in(to@),
            n == count(from@.tombstones.take(i as int), p),
            n <= i,
    {
        let t: &Tombstone = &from.tombstones[i];
        proof {
            filter_step(from@.tombstones, p, i as int);
            assert(from@.tombstones[i as int] == t@);
        }
        if exists_in(to, t.entity.as_str(), t.uid.as_str()) {
            n = n + 1;
        }
    }
    proof {
        take_all(from@.tombstones);
    }
    n
}

/// The plan is the one between `local` and `remote`.
pub open spec fn is_plan(p: Plan, local: ManifestView, remote: ManifestView) -> bool {
    &&& views(p.pull_files@) == files_to_send(remote, local)
    &&& views(p.push_files@) == files_to_send(local, remote)
    &&& p.pull_meta == newer_tracks(remote.tracks, local.tracks)
    &&& p.push_meta == newer_tracks(local.tracks, remote.tracks)
    &&& p.pull_playlists == count(remote.playlists, playlist_wanted(local))
    &&& p.push_playlists == count(local.playlists, playlist_wanted(remote))
    &&& p.pull_memberships == count(remote.memberships, membership_wanted(local))
    &&& p.push_memberships == count(local.memberships, membership_wanted(remote))
    &&& p.deletes_in == count(remote.tombstones, still_in(local))
    &&& p.deletes_out == count(local.tombstones, still_in(remote))
    &&& p.unhashed == count(local.tracks, lacks_hash())
}

/// Works out what synchronising `local` with `remote` would do.
///
/// - A track that was deleted here is not brought back.
/// - A file counts as present when its content is, whatever the uid: the same
///   file imported on two devices does not travel.
/// - Memberships are joined; only an explicit tombstone takes one out.
pub fn plan(local: &Manifest, remote: &Manifest) -> (p: Plan)
    ensures
        is_plan(p, local@, remote@),
{
    let here: StringHashSet = held(local);
    let there: StringHashSet = held(remote);
    let local_last: StringHashMap<usize> = last_by_uid(local);
    let remote_last: StringHashMap<usize> = last_by_uid(remote);
    Plan {
        pull_files: files_for(remote, local, &here),
        push_files: files_for(local, remote, &there),
        pull_meta: count_newer(remote, local, &remote_last, &local_last),
        push_meta: count_newer(local, remote, &local_last, &remote_last),
        pull_playlists: count_playlists(remote, local),
        push_playlists: count_playlists(local, remote),
        pull_memberships: count_memberships(remote, local),
        push_memberships: count_memberships(local, remote),
        deletes_in: count_deletes(remote, local),
        deletes_out: count_deletes(local, remote),
        unhashed: count_unhashed(local),
    }
}

/// The plan of one side is the plan of the other with both directions swapped.
pub proof fn plans_mirror_each_other(p: Plan, q: Plan, a: ManifestView, b: ManifestView)
    requires
        is_plan(p, a, b),
        is_plan(q, b, a),
    ensures
        views(p.pull_files@) == views(q.push_files@),
        views(p.push_files@) == views(q.pull_files@),
        p.pull_meta == q.push_meta,
        p.push_meta == q.pull_meta,
        p.pull_playlists == q.push_playlists,
        p.push_playlists == q.pull_playlists,
        p.pull_memberships == q.push_memberships,
        p.push_memberships == q.pull_memberships,
        p.deletes_in == q.deletes_out,
        p.deletes_out == q.deletes_in,
        p.nothing_to_do() == q.nothing_to_do(),
{
    assert(views(p.pull_files@).len() == p.pull_files@.len());
    assert(views(p.push_files@).len() == p.push_files@.len());
    assert(views(q.pull_files@).len() == q.pull_files@.len());
    assert(views(q.push_files@).len() == q.push_files@.len());
}

/// Two devices with the same rows, and no tombstone of anything they still have,
/// have nothing to do.
pub proof fn same_libraries_need_nothing(p: Plan, a: ManifestView, b: ManifestView)
    requires
        is_plan(p, a, b),
        a.tracks == b.tracks,
        a.playlists == b.playlists,
        a.memberships == b.memberships,
        forall|i: int|
            0 <= i < a.tombstones.len() ==> !names_something(
                b,
                (#[trigger] a.tombstones[i]).entity,
                a.tombstones[i].uid,
            ),
        forall|i: int|
            0 <= i < b.tombstones.len() ==> !names_something(
                a,
                (#[trigger] b.tombstones[i]).entity,
                b.tombstones[i].uid,
            ),
    ensures
        p.nothing_to_do(),
{
    nothing_to_send(a, b);
    nothing_to_send(b, a);
    assert(views(p.pull_files@).len() == p.pull_files@.len());
    assert(views(p.push_files@).len() == p.push_files@.len());
}

proof fn nothing_to_send(from: ManifestView, to: ManifestView)
    requires
        from.tracks == to.tracks,
        from.playlists == to.playlists,
        from.memberships == to.memberships,
        forall|i: int|
            0 <= i < from.tombstones.len() ==> !names_something(
                to,
                (#[trigger] from.tombstones[i]).entity,
                from.tombstones[i].uid,
            ),
    ensures
        files_to_send(from, to).len() == 0,
        newer_tracks(from.tracks, to.tracks) == 0,
        count(from.playlists, playlist_wanted(to)) == 0,
        count(from.memberships, membership_wanted(to)) == 0,
        count(from.tombstones, still_in(to)) == 0,
{
    assert forall|i: int| 0 <= i < from.tracks.len() implies !file_wanted(to)(
        #[trigger] from.tracks[i],
    ) by {
        let t = from.tracks[i];
        if t.present && t.hash is Some {
            assert(to.tracks[i].present && to.tracks[i].hash == Some(t.hash->0));
            assert(held_hashes(to).contains(t.hash->0));
        }
    }
    filter_none(from.tracks, file_wanted(to));
    let idx = Seq::new(from.tracks.len(), |i: int| i);
    assert forall|i: int| 0 <= i < idx.len() implies !is_newer_than_in(from.tracks, to.tracks)(
        #[trigger] idx[i],
    ) by {
        if is_newer_than_in(from.tracks, to.tracks)(i) {
            let k = choose|k: int|
                #![trigger to.tracks[k]]
                is_last_of_uid(to.tracks, k) && to.tracks[k].uid == from.tracks[i].uid
                    && from.tracks[i].updated_at > to.tracks[k].updated_at;
            assert(k == i);
        }
    }
    filter_none(idx, is_newer_than_in(from.tracks, to.tracks));
    assert forall|i: int| 0 <= i < from.playlists.len() implies !playlist_wanted(to)(
        #[trigger] from.playlists[i],
    ) by {
        assert(to.playlists[i].uid == from.playlists[i].uid);
        assert(has_playlist(to, from.playlists[i].uid));
    }
    filter_none(from.playlists, playlist_wanted(to));
    assert forall|i: int| 0 <= i < from.memberships.len() implies !membership_wanted(to)(
        #[trigger] from.memberships[i],
    ) by {
        assert(key_of(to.memberships[i]) == key_of(from.memberships[i]));
        assert(has_membership(to, key_of(from.memberships[i])));
    }
    filter_none(from.memberships, membership_wanted(to));
    filter_none(from.tombstones, still_in(to));
}

/// What a device deleted does not come back to it: no planned file belongs to a
/// track that the receiver has a tombstone for.
pub proof fn deleted_tracks_do_not_come_back(from: ManifestView, to: ManifestView, i: int)
    requires
        0 <= i < files_to_send(from, to).len(),
    ensures
        !has_tombstone_for(to.tombstones, "track"@, files_to_send(from, to)[i].track_uid),
{
    sent_files_are_wanted(from, to, i);
}

/// A file whose content the receiver already holds does not travel, whatever the
/// uid under which each side knows it.
pub proof fn held_content_does_not_travel(from: ManifestView, to: ManifestView, i: int)
    requires
        0 <= i < files_to_send(from, to).len(),
    ensures
        !held_hashes(to).contains(files_to_send(from, to)[i].hash),
{
    sent_files_are_wanted(from, to, i);
}

/// Only a file that the sender holds and has hashed is offered.
pub proof fn only_held_files_are_offered(from: ManifestView, to: ManifestView, i: int)
    requires
        0 <= i < files_to_send(from, to).len(),
    ensures
        held_hashes(from).contains(files_to_send(from, to)[i].hash),
{
    let t = sent_files_are_wanted(from, to, i);
    let j = choose|j: int| 0 <= j < from.tracks.len() && from.tracks[j] == t;
    assert(from.tracks[j].present && from.tracks[j].hash == Some(t.hash->0));
}

proof fn sent_files_are_wanted(from: ManifestView, to: ManifestView, i: int) -> (t: TrackEntryView)
    requires
        0 <= i < files_to_send(from, to).len(),
    ensures
        from.tracks.contains(t),
        file_wanted(to)(t),
        files_to_send(from, to)[i] == transfer_of(t),
{
    let kept = from.tracks.filter(file_wanted(to));
    let t = kept[i];
    from.tracks.lemma_filter_pred(file_wanted(to), i);
    assert(kept.contains(t));
    from.tracks.lemma_filter_contains_rev(file_wanted(to), t);
    t
}

/// Every file that the sender holds and the receiver lacks is planned, unless the
/// receiver deleted its track.
pub proof fn every_missing_file_is_planned(from: ManifestView, to: ManifestView, j: int)
    requires
        0 <= j < from.tracks.len(),
        from.tracks[j].present,
        from.tracks[j].hash is Some,
        !held_hashes(to).contains(from.tracks[j].hash->0),
        !has_tombstone_for(to.tombstones, "track"@, from.tracks[j].uid),
    ensures
        files_to_send(from, to).contains(transfer_of(from.tracks[j])),
{
    let kept = from.tracks.filter(file_wanted(to));
    from.tracks.lemma_filter_contains(file_wanted(to), j);
    let i = choose|i: int| 0 <= i < kept.len() && kept[i] == from.tracks[j];
    assert(files_to_send(from, to)[i] == transfer_of(from.tracks[j]));
}

// ---------------------------------------------------------------------------
// The manifest of this device
// ---------------------------------------------------------------------------

pub open spec fn track_has_uid() -> spec_fn(TrackRowView) -> bool {
    |t: TrackRowView| t.uid is Some
}

/// A track as it is told to other devices.
pub open spec fn track_entry(t: TrackRowView) -> TrackEntryView {
    TrackEntryView {
        uid: t.uid->0,
        hash: t.content_hash,
        size: match t.size_bytes {
            Some(n) => n,
            None => 0,
        },
        filename: match t.rel_path {
            Some(n) => n,
            None => ""@,
        },
        title: t.title,
        artist: t.artist,
        album: t.album,
        genre: t.genre,
        duration_ms: t.duration_ms,
        bpm: t.bpm,
        updated_at: t.updated_at,
        present: t.local_state == "present"@,
    }
}

pub open spec fn playlist_has_uid() -> spec_fn(PlaylistRowView) -> bool {
    |p: PlaylistRowView| p.uid is Some
}

/// A playlist as it is told to other devices: its parent goes by uid.
pub open spec fn playlist_entry(l: LibraryView) -> spec_fn(PlaylistRowView) -> PlaylistEntryView {
    |p: PlaylistRowView|
        PlaylistEntryView {
            uid: p.uid->0,
            name: p.name,
            kind: p.kind,
            parent_uid: match p.parent_id {
                Some(q) => playlist_uid_of(l, q),
                None => None,
            },
            rank: p.rank,
            updated_at: p.updated_at,
        }
}

pub open spec fn both_have_uids(l: LibraryView) -> spec_fn(PlaylistTrackRowView) -> bool {
    |m: PlaylistTrackRowView|
        playlist_uid_of(l, m.playlist_id) is Some && track_uid_of(l)(m.track_id) is Some
}

/// A membership as it is told to other devices.
pub open spec fn membership_entry(l: LibraryView) -> spec_fn(PlaylistTrackRowView) -> MembershipView {
    |m: PlaylistTrackRowView|
        MembershipView {
            playlist_uid: playlist_uid_of(l, m.playlist_id)->0,
            track_uid: track_uid_of(l)(m.track_id)->0,
            rank: m.rank,
            added_at: m.added_at,
        }
}

pub open spec fn tombstone_entry() -> spec_fn(TombstoneRowView) -> TombstoneView {
    |t: TombstoneRowView|
        TombstoneView { entity: t.entity, uid: t.uid, deleted_at: t.deleted_at }
}

/// What this device tells others: every row that has a uid.
pub open spec fn manifest_of(l: LibraryView, me: Seq<char>) -> ManifestView {
    ManifestView {
        device_uid: me,
        tracks: l.tracks.filter(track_has_uid()).map_values(|t: TrackRowView| track_entry(t)),
        playlists: l.playlists.filter(playlist_has_uid()).map_values(playlist_entry(l)),
        memberships: l.playlist_tracks.filter(both_have_uids(l)).map_values(membership_entry(l)),
        tombstones: l.tombstones.map_values(tombstone_entry()),
    }
}

pub(crate) fn track_entries(lib: &Library) -> (r: Vec<TrackEntry>)
    ensures
        views(r@) == lib@.tracks.filter(track_has_uid()).map_values(
            |t: TrackRowView| track_entry(t),
        ),
{
    let mut r: Vec<TrackEntry> = Vec::new();
    let ghost all = lib@.tracks;
    let ghost p = track_has_uid();
    let ghost f = |t: TrackRowView| track_entry(t);
    proof {
        take_none_filter(all, p);
        assert(views(r@) =~= all.take(0).filter(p).map_values(f));
    }
    for i in 0..lib.tracks.len()
        invariant
            all == lib@.tracks,
            p == track_has_uid(),
            f == (|t: TrackRowView| track_entry(t)),
            views(r@) == all.take(i as int).filter(p).map_values(f),
    {
        let t: &TrackRow = &lib.tracks[i];
        let ghost kept = all.take(i as int).filter(p);
        proof {
            filter_step(all, p, i as int);
            assert(all[i as int] == t@);
        }
        if let Some(uid) = &t.uid {
            let x: TrackEntry = TrackEntry {
                uid: uid.clone(),
                hash: copy_opt(&t.content_hash),
                size: match t.size_bytes {
                    Some(n) => n,
                    None => 0,
                },
                filename: match &t.rel_path {
                    Some(n) => n.clone(),
                    None => "".to_owned(),
                },
                title: t.title.clone(),
                artist: t.artist.clone(),
                album: t.album.clone(),
                genre: t.genre.clone(),
                duration_ms: t.duration_ms,
                bpm: t.bpm,
                updated_at: t.updated_at,
                present: same(t.local_state.as_str(), "present"),
            };
            proof {
                views_push(r@, x);
                assert(x@ == track_entry(t@));
                assert(kept.push(t@).map_values(f) =~= kept.map_values(f).push(f(t@)));
            }
            r.push(x);
        }
    }
    proof {
        take_all(all);
    }
    r
}

pub(crate) fn playlist_entries(lib: &Library) -> (r: Vec<PlaylistEntry>)
    ensures
        views(r@) == lib@.playlists.filter(playlist_has_uid()).map_values(playlist_entry(lib@)),
{
    let mut r: Vec<PlaylistEntry> = Vec::new();
    let ghost all = lib@.playlists;
    let ghost p = playlist_has_uid();
    let ghost f = playlist_entry(lib@);
    proof {
        take_none_filter(all, p);
        assert(views(r@) =~= all.take(0).filter(p).map_values(f));
    }
    for i in 0..lib.playlists.len()
        invariant
            all == lib@.playlists,
            p == playlist_has_uid(),
            f == playlist_entry(lib@),
            views(r@) == all.take(i as int).filter(p).map_values(f),
    {
        let t: &PlaylistRow = &lib.playlists[i];
        let ghost kept = all.take(i as int).filter(p);
        proof {
            filter_step(all, p, i as int);
            assert(all[i as int] == t@);
        }
        if let Some(uid) = &t.uid {
            let x: PlaylistEntry = PlaylistEntry {
                uid: uid.clone(),
                name: t.name.clone(),
                kind: t.kind.clone(),
                parent_uid: match t.parent_id {
                    Some(q) => playlist_uid(lib, q),
                    None => None,
                },
                rank: t.rank.clone(),
                updated_at: t.updated_at,
            };
            proof {
                views_push(r@, x);
                assert(x@ == f(t@));
                assert(kept.push(t@).map_values(f) =~= kept.map_values(f).push(f(t@)));
            }
            r.push(x);
        }
    }
    proof {
        take_all(all);
    }
    r
}

pub(crate) fn membership_entries(lib: &Library) -> (r: Vec<Membership>)
    ensures
        views(r@) == lib@.playlist_tracks.filter(both_have_uids(lib@)).map_values(
            membership_entry(lib@),
        ),
{
    let mut r: Vec<Membership> = Vec::new();
    let ghost all = lib@.playlist_tracks;
    let ghost p = both_have_uids(lib@);
    let ghost f = membership_entry(lib@);
    proof {
        take_none_filter(all, p);
        assert(views(r@) =~= all.take(0).filter(p).map_values(f));
    }
    for i in 0..lib.playlist_tracks.len()
        invariant
            all == lib@.playlist_tracks,
            p == both_have_uids(lib@),
            f == membership_entry(lib@),
            views(r@) == all.take(i as int).filter(p).map_values(f),
    {
        let t: &PlaylistTrackRow = &lib.playlist_tracks[i];
        let ghost kept = all.take(i as int).filter(p);
        proof {
            filter_step(all, p, i as int);
            assert(all[i as int] == t@);
        }
        let pu: Option<String> = playlist_uid(lib, t.playlist_id);
        let tu: Option<String> = track_uid(lib, t.track_id);
        match (pu, tu) {
            (Some(pu), Some(tu)) => {
                let x: Membership = Membership {
                    playlist_uid: pu,
                    track_uid: tu,
                    rank: t.rank.clone(),
                    added_at: t.added_at,
                };
                proof {
                    views_push(r@, x);
                    assert(x@ == f(t@));
                    assert(kept.push(t@).map_values(f) =~= kept.map_values(f).push(f(t@)));
                }
                r.push(x);
            },
            _ => {},
        }
    }
    proof {
        take_all(all);
    }
    r
}

/// What this device, whose uid becomes `fresh` if it had none, tells others.
pub fn build_as(lib: &mut Library, fresh: &str) -> (r: Manifest)
    ensures
        final(lib)@ == with_identity(old(lib)@, fresh@),
        r@ == manifest_of(old(lib)@, identity_or(old(lib)@, fresh@)),
        old(lib)@.wf() ==> final(lib)@.wf(),
{
    let ghost l0 = lib@;
    let device_uid: String = device_uid_or(lib, fresh);
    let mut tombstones: Vec<Tombstone> = Vec::new();
    let ghost goal = lib@.tombstones.map_values(tombstone_entry());
    let n: usize = lib.tombstones.len();
    for i in 0..n
        invariant
            n == lib.tombstones@.len(),
            goal == lib@.tombstones.map_values(tombstone_entry()),
            views(tombstones@) == goal.take(i as int),
    {
        let t: Tombstone = Tombstone {
            entity: lib.tombstones[i].entity.clone(),
            uid: lib.tombstones[i].uid.clone(),
            deleted_at: lib.tombstones[i].deleted_at,
        };
        proof {
            views_push(tombstones@, t);
            assert(t@ == goal[i as int]);
            assert(goal.take(i + 1) =~= goal.take(i as int).push(t@));
        }
        tombstones.push(t);
    }
    let r: Manifest = Manifest {
        device_uid,
        tracks: track_entries(lib),
        playlists: playlist_entries(lib),
        memberships: membership_entries(lib),
        tombstones,
    };
    proof {
        take_all(goal);
        same_tables_same_entries(l0, lib@);
    }
    r
}

proof fn same_tables_same_entries(a: LibraryView, b: LibraryView)
    requires
        a.tracks == b.tracks,
        a.playlists == b.playlists,
    ensures
        playlist_entry(a) == playlist_entry(b),
        both_have_uids(a) == both_have_uids(b),
        membership_entry(a) == membership_entry(b),
{
    assert(playlist_entry(a) =~= playlist_entry(b));
    assert(track_uid_of(a) =~= track_uid_of(b));
    assert(both_have_uids(a) =~= both_have_uids(b));
    assert(membership_entry(a) =~= membership_entry(b));
}

/// What this device tells others.
pub fn build(lib: &mut Library) -> (r: Manifest)
    ensures
        exists|fresh: Seq<char>| #[trigger]
            is_uid_text(fresh) && final(lib)@ == with_identity(old(lib)@, fresh) && r@ == manifest_of(
                old(lib)@,
                identity_or(old(lib)@, fresh),
            ),
        old(lib)@.wf() ==> final(lib)@.wf(),
{
    let fresh: String = new_uid();
    build_as(lib, fresh.as_str())
}

/// The content of a file that a device holds.
pub open spec fn content_held() -> spec_fn(TrackEntryView) -> Option<Seq<char>> {
    |t: TrackEntryView|
        if t.present {
            t.hash
        } else {
            None
        }
}

/// What of a list there is.
pub open spec fn those_there_are<A, B>(s: Seq<A>, f: spec_fn(A) -> Option<B>) -> Seq<B>
    decreases s.len(),
{
    if s.len() == 0 {
        Seq::empty()
    } else {
        let before = those_there_are(s.drop_last(), f);
        match f(s.last()) {
            Some(x) => before.push(x),
            None => before,
        }
    }
}

/// The content of the files that the device of a manifest holds. A file that it only
/// knows of is none of them.
pub fn held_content(m: &Manifest) -> (r: Vec<String>)
    ensures
        views(r@) == those_there_are(m@.tracks, content_held()),
{
    let ghost v = m@.tracks;
    let mut r: Vec<String> = Vec::new();
    proof {
        assert(v.take(0) =~= Seq::empty());
        assert(views(r@) =~= those_there_are(v.take(0), content_held()));
    }
    for i in 0..m.tracks.len()
        invariant
            v == m@.tracks,
            v.len() == m.tracks@.len(),
            views(r@) == those_there_are(v.take(i as int), content_held()),
    {
        proof {
            assert(v.take(i + 1).drop_last() =~= v.take(i as int));
            assert(v.take(i + 1).last() == m.tracks@[i as int]@);
        }
        if m.tracks[i].present {
            if let Some(h) = &m.tracks[i].hash {
                let x: String = h.clone();
                proof {
                    views_push(r@, x);
                }
                r.push(x);
            }
        }
    }
    proof {
        take_all(v);
    }
    r
}

} // verus!
