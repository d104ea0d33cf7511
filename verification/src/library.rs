//! The tables of the library, as they stand on this device.
//!
//! Rows carry two identities. The `id` is local: it means nothing on another
//! device. The `uid` is shared, and it is what playlists, tombstones and scopes
//! refer to.

use crate::manifest::{DeviceSync, DeviceSyncView, ScopeEntry, ScopeEntryView};
use crate::seqs::views;
use crate::text::{copy_opt, opt_view};
use vstd::prelude::*;

verus! {

broadcast use vstd::string::group_string_axioms;

/// The copy of some bytes.
pub fn copy_bytes(v: &Vec<u8>) -> (r: Vec<u8>)
    ensures
        r@ == v@,
{
    let mut r: Vec<u8> = Vec::new();
    for i in 0..v.len()
        invariant
            r@ == v@.take(i as int),
    {
        r.push(v[i]);
        proof {
            assert(v@.take(i + 1) =~= v@.take(i as int).push(v@[i as int]));
        }
    }
    proof {
        assert(v@.take(v@.len() as int) =~= v@);
    }
    r
}

/// A track of the library.
#[derive(Debug)]
pub struct TrackRow {
    pub id: i64,
    /// Where the file is on this device.
    pub path: String,
    pub title: String,
    pub artist: String,
    pub album: String,
    pub genre: String,
    pub duration_ms: i64,
    pub bpm: Option<i64>,
    pub uid: Option<String>,
    /// The identity of the bytes, once they have been hashed.
    pub content_hash: Option<String>,
    /// The name of the file inside the managed folder.
    pub rel_path: Option<String>,
    pub size_bytes: Option<i64>,
    pub mtime_ms: Option<i64>,
    pub updated_at: i64,
    /// `present` when the file is here.
    pub local_state: String,
}

pub struct TrackRowView {
    pub id: i64,
    pub path: Seq<char>,
    pub title: Seq<char>,
    pub artist: Seq<char>,
    pub album: Seq<char>,
    pub genre: Seq<char>,
    pub duration_ms: i64,
    pub bpm: Option<i64>,
    pub uid: Option<Seq<char>>,
    pub content_hash: Option<Seq<char>>,
    pub rel_path: Option<Seq<char>>,
    pub size_bytes: Option<i64>,
    pub mtime_ms: Option<i64>,
    pub updated_at: i64,
    pub local_state: Seq<char>,
}

impl View for TrackRow {
    type V = TrackRowView;

    open spec fn view(&self) -> TrackRowView {
        TrackRowView {
            id: self.id,
            path: self.path@,
            title: self.title@,
            artist: self.artist@,
            album: self.album@,
            genre: self.genre@,
            duration_ms: self.duration_ms,
            bpm: self.bpm,
            uid: opt_view(self.uid),
            content_hash: opt_view(self.content_hash),
            rel_path: opt_view(self.rel_path),
            size_bytes: self.size_bytes,
            mtime_ms: self.mtime_ms,
            updated_at: self.updated_at,
            local_state: self.local_state@,
        }
    }
}

impl Clone for TrackRow {
    fn clone(&self) -> (r: Self)
        ensures
            r@ == self@,
    {
        TrackRow {
            id: self.id,
            path: self.path.clone(),
            title: self.title.clone(),
            artist: self.artist.clone(),
            album: self.album.clone(),
            genre: self.genre.clone(),
            duration_ms: self.duration_ms,
            bpm: self.bpm,
            uid: copy_opt(&self.uid),
            content_hash: copy_opt(&self.content_hash),
            rel_path: copy_opt(&self.rel_path),
            size_bytes: self.size_bytes,
            mtime_ms: self.mtime_ms,
            updated_at: self.updated_at,
            local_state: self.local_state.clone(),
        }
    }
}

/// A playlist or a folder.
#[derive(Debug)]
pub struct PlaylistRow {
    pub id: i64,
    pub name: String,
    /// `folder` or `playlist`.
    pub kind: String,
    pub parent_id: Option<i64>,
    /// Orders it among its siblings.
    pub rank: String,
    pub uid: Option<String>,
    pub updated_at: i64,
}

pub struct PlaylistRowView {
    pub id: i64,
    pub name: Seq<char>,
    pub kind: Seq<char>,
    pub parent_id: Option<i64>,
    pub rank: Seq<char>,
    pub uid: Option<Seq<char>>,
    pub updated_at: i64,
}

impl View for PlaylistRow {
    type V = PlaylistRowView;

    open spec fn view(&self) -> PlaylistRowView {
        PlaylistRowView {
            id: self.id,
            name: self.name@,
            kind: self.kind@,
            parent_id: self.parent_id,
            rank: self.rank@,
            uid: opt_view(self.uid),
            updated_at: self.updated_at,
        }
    }
}

impl Clone for PlaylistRow {
    fn clone(&self) -> (r: Self)
        ensures
            r@ == self@,
    {
        PlaylistRow {
            id: self.id,
            name: self.name.clone(),
            kind: self.kind.clone(),
            parent_id: self.parent_id,
            rank: self.rank.clone(),
            uid: copy_opt(&self.uid),
            updated_at: self.updated_at,
        }
    }
}

/// A track inside a playlist.
#[derive(Debug)]
pub struct PlaylistTrackRow {
    pub playlist_id: i64,
    pub track_id: i64,
    pub rank: String,
    /// When it was put there; a tombstone of the pair wins only if it is later.
    pub added_at: i64,
}

pub struct PlaylistTrackRowView {
    pub playlist_id: i64,
    pub track_id: i64,
    pub rank: Seq<char>,
    pub added_at: i64,
}

impl View for PlaylistTrackRow {
    type V = PlaylistTrackRowView;

    open spec fn view(&self) -> PlaylistTrackRowView {
        PlaylistTrackRowView {
            playlist_id: self.playlist_id,
            track_id: self.track_id,
            rank: self.rank@,
            added_at: self.added_at,
        }
    }
}

impl Clone for PlaylistTrackRow {
    fn clone(&self) -> (r: Self)
        ensures
            r@ == self@,
    {
        PlaylistTrackRow {
            playlist_id: self.playlist_id,
            track_id: self.track_id,
            rank: self.rank.clone(),
            added_at: self.added_at,
        }
    }
}

/// A stored setting.
#[derive(Debug)]
pub struct SettingRow {
    pub key: String,
    pub value: String,
}

pub struct SettingRowView {
    pub key: Seq<char>,
    pub value: Seq<char>,
}

impl View for SettingRow {
    type V = SettingRowView;

    open spec fn view(&self) -> SettingRowView {
        SettingRowView {
            key: self.key@,
            value: self.value@,
        }
    }
}

impl Clone for SettingRow {
    fn clone(&self) -> (r: Self)
        ensures
            r@ == self@,
    {
        SettingRow {
            key: self.key.clone(),
            value: self.value.clone(),
        }
    }
}

/// A device that this one is paired with.
#[derive(Debug)]
pub struct DeviceRow {
    pub uid: String,
    pub name: String,
    pub platform: String,
    /// Its static key, fixed when the two were paired.
    pub pubkey: Option<Vec<u8>>,
    pub paired_at: Option<i64>,
    pub last_seen: Option<i64>,
    pub last_sync_at: Option<i64>,
    /// Where it is called, host and port, if it was paired by its address.
    pub address: Option<String>,
}

pub struct DeviceRowView {
    pub uid: Seq<char>,
    pub name: Seq<char>,
    pub platform: Seq<char>,
    pub pubkey: Option<Seq<u8>>,
    pub paired_at: Option<i64>,
    pub last_seen: Option<i64>,
    pub last_sync_at: Option<i64>,
    pub address: Option<Seq<char>>,
}

impl View for DeviceRow {
    type V = DeviceRowView;

    open spec fn view(&self) -> DeviceRowView {
        DeviceRowView {
            uid: self.uid@,
            name: self.name@,
            platform: self.platform@,
            pubkey: match self.pubkey {
                Some(k) => Some(k@),
                None => None,
            },
            paired_at: self.paired_at,
            last_seen: self.last_seen,
            last_sync_at: self.last_sync_at,
            address: opt_view(self.address),
        }
    }
}

impl Clone for DeviceRow {
    fn clone(&self) -> (r: Self)
        ensures
            r@ == self@,
    {
        DeviceRow {
            uid: self.uid.clone(),
            name: self.name.clone(),
            platform: self.platform.clone(),
            pubkey: match &self.pubkey {
                Some(k) => Some(copy_bytes(k)),
                None => None,
            },
            paired_at: self.paired_at,
            last_seen: self.last_seen,
            last_sync_at: self.last_sync_at,
            address: copy_opt(&self.address),
        }
    }
}

/// What is done with the deletions that a device sends.
#[derive(Debug)]
pub struct PolicyRow {
    pub device_uid: String,
    pub deletes: String,
}

pub struct PolicyRowView {
    pub device_uid: Seq<char>,
    pub deletes: Seq<char>,
}

impl View for PolicyRow {
    type V = PolicyRowView;

    open spec fn view(&self) -> PolicyRowView {
        PolicyRowView {
            device_uid: self.device_uid@,
            deletes: self.deletes@,
        }
    }
}

impl Clone for PolicyRow {
    fn clone(&self) -> (r: Self)
        ensures
            r@ == self@,
    {
        PolicyRow {
            device_uid: self.device_uid.clone(),
            deletes: self.deletes.clone(),
        }
    }
}

/// A device that has, or had, the file of that content.
#[derive(Debug)]
pub struct ReplicaRow {
    pub hash: String,
    pub device_uid: String,
    pub seen_at: i64,
}

pub struct ReplicaRowView {
    pub hash: Seq<char>,
    pub device_uid: Seq<char>,
    pub seen_at: i64,
}

impl View for ReplicaRow {
    type V = ReplicaRowView;

    open spec fn view(&self) -> ReplicaRowView {
        ReplicaRowView {
            hash: self.hash@,
            device_uid: self.device_uid@,
            seen_at: self.seen_at,
        }
    }
}

impl Clone for ReplicaRow {
    fn clone(&self) -> (r: Self)
        ensures
            r@ == self@,
    {
        ReplicaRow {
            hash: self.hash.clone(),
            device_uid: self.device_uid.clone(),
            seen_at: self.seen_at,
        }
    }
}

/// The record that something was deleted, and by which device.
#[derive(Debug)]
pub struct TombstoneRow {
    pub entity: String,
    pub uid: String,
    pub deleted_at: i64,
    pub device_uid: String,
}

pub struct TombstoneRowView {
    pub entity: Seq<char>,
    pub uid: Seq<char>,
    pub deleted_at: i64,
    pub device_uid: Seq<char>,
}

impl View for TombstoneRow {
    type V = TombstoneRowView;

    open spec fn view(&self) -> TombstoneRowView {
        TombstoneRowView {
            entity: self.entity@,
            uid: self.uid@,
            deleted_at: self.deleted_at,
            device_uid: self.device_uid@,
        }
    }
}

impl Clone for TombstoneRow {
    fn clone(&self) -> (r: Self)
        ensures
            r@ == self@,
    {
        TombstoneRow {
            entity: self.entity.clone(),
            uid: self.uid.clone(),
            deleted_at: self.deleted_at,
            device_uid: self.device_uid.clone(),
        }
    }
}

/// All the tables.
#[derive(Debug)]
pub struct Library {
    pub tracks: Vec<TrackRow>,
    pub playlists: Vec<PlaylistRow>,
    pub playlist_tracks: Vec<PlaylistTrackRow>,
    pub settings: Vec<SettingRow>,
    pub devices: Vec<DeviceRow>,
    pub sync_policy: Vec<PolicyRow>,
    pub device_sync: Vec<DeviceSync>,
    pub sync_scope: Vec<ScopeEntry>,
    pub blob_replicas: Vec<ReplicaRow>,
    pub tombstones: Vec<TombstoneRow>,
}

#[verifier::ext_equal]
pub struct LibraryView {
    pub tracks: Seq<TrackRowView>,
    pub playlists: Seq<PlaylistRowView>,
    pub playlist_tracks: Seq<PlaylistTrackRowView>,
    pub settings: Seq<SettingRowView>,
    pub devices: Seq<DeviceRowView>,
    pub sync_policy: Seq<PolicyRowView>,
    pub device_sync: Seq<DeviceSyncView>,
    pub sync_scope: Seq<ScopeEntryView>,
    pub blob_replicas: Seq<ReplicaRowView>,
    pub tombstones: Seq<TombstoneRowView>,
}

impl View for Library {
    type V = LibraryView;

    open spec fn view(&self) -> LibraryView {
        LibraryView {
            tracks: views(self.tracks@),
            playlists: views(self.playlists@),
            playlist_tracks: views(self.playlist_tracks@),
            settings: views(self.settings@),
            devices: views(self.devices@),
            sync_policy: views(self.sync_policy@),
            device_sync: views(self.device_sync@),
            sync_scope: views(self.sync_scope@),
            blob_replicas: views(self.blob_replicas@),
            tombstones: views(self.tombstones@),
        }
    }
}

/// No two rows have the same key.
pub open spec fn distinct<A, K>(s: Seq<A>, key: spec_fn(A) -> K) -> bool {
    forall|i: int, j: int|
        0 <= i < j < s.len() ==> key(#[trigger] s[i]) != key(#[trigger] s[j])
}

/// No two rows have the same key, where a row may have none.
pub open spec fn distinct_where_some<A, K>(s: Seq<A>, key: spec_fn(A) -> Option<K>) -> bool {
    forall|i: int, j: int|
        0 <= i < j < s.len() && key(#[trigger] s[i]) is Some ==> key(s[i]) != key(#[trigger] s[j])
}

pub open spec fn track_id() -> spec_fn(TrackRowView) -> i64 {
    |t: TrackRowView| t.id
}

pub open spec fn track_path_key() -> spec_fn(TrackRowView) -> Seq<char> {
    |t: TrackRowView| t.path
}

pub open spec fn track_uid_key() -> spec_fn(TrackRowView) -> Option<Seq<char>> {
    |t: TrackRowView| t.uid
}

pub open spec fn playlist_id() -> spec_fn(PlaylistRowView) -> i64 {
    |p: PlaylistRowView| p.id
}

pub open spec fn playlist_uid_key() -> spec_fn(PlaylistRowView) -> Option<Seq<char>> {
    |p: PlaylistRowView| p.uid
}

pub open spec fn pair_of() -> spec_fn(PlaylistTrackRowView) -> (i64, i64) {
    |m: PlaylistTrackRowView| (m.playlist_id, m.track_id)
}

pub open spec fn setting_key() -> spec_fn(SettingRowView) -> Seq<char> {
    |s: SettingRowView| s.key
}

pub open spec fn tombstone_key() -> spec_fn(TombstoneRowView) -> (Seq<char>, Seq<char>) {
    |t: TombstoneRowView| (t.entity, t.uid)
}

pub open spec fn device_key() -> spec_fn(DeviceRowView) -> Seq<char> {
    |d: DeviceRowView| d.uid
}

pub open spec fn device_sync_key() -> spec_fn(DeviceSyncView) -> Seq<char> {
    |d: DeviceSyncView| d.device_uid
}

pub open spec fn scope_key() -> spec_fn(ScopeEntryView) -> (Seq<char>, Seq<char>) {
    |e: ScopeEntryView| (e.device_uid, e.playlist_uid)
}

pub open spec fn replica_key() -> spec_fn(ReplicaRowView) -> (Seq<char>, Seq<char>) {
    |r: ReplicaRowView| (r.hash, r.device_uid)
}

pub open spec fn is_track(tracks: Seq<TrackRowView>, id: i64) -> bool {
    exists|i: int| 0 <= i < tracks.len() && (#[trigger] tracks[i]).id == id
}

pub open spec fn is_playlist(playlists: Seq<PlaylistRowView>, id: i64) -> bool {
    exists|i: int| 0 <= i < playlists.len() && (#[trigger] playlists[i]).id == id
}

/// Every parent is a row of the table.
pub open spec fn parents_exist(playlists: Seq<PlaylistRowView>) -> bool {
    forall|i: int|
        0 <= i < playlists.len() && (#[trigger] playlists[i]).parent_id is Some ==> is_playlist(
            playlists,
            playlists[i].parent_id->0,
        )
}

/// Every placed track and its playlist are rows of their tables.
pub open spec fn members_exist(
    members: Seq<PlaylistTrackRowView>,
    playlists: Seq<PlaylistRowView>,
    tracks: Seq<TrackRowView>,
) -> bool {
    forall|i: int|
        0 <= i < members.len() ==> is_playlist(playlists, (#[trigger] members[i]).playlist_id)
            && is_track(tracks, members[i].track_id)
}

impl LibraryView {
    /// Keys are unique and references lead somewhere.
    pub open spec fn wf(self) -> bool {
        &&& distinct(self.tracks, track_id())
        &&& distinct(self.tracks, track_path_key())
        &&& distinct_where_some(self.tracks, track_uid_key())
        &&& distinct(self.playlists, playlist_id())
        &&& distinct_where_some(self.playlists, playlist_uid_key())
        &&& parents_exist(self.playlists)
        &&& distinct(self.playlist_tracks, pair_of())
        &&& members_exist(self.playlist_tracks, self.playlists, self.tracks)
        &&& distinct(self.settings, setting_key())
        &&& distinct(self.devices, device_key())
        &&& distinct(self.device_sync, device_sync_key())
        &&& distinct(self.sync_scope, scope_key())
        &&& distinct(self.blob_replicas, replica_key())
        &&& distinct(self.tombstones, tombstone_key())
    }
}

pub(crate) proof fn distinct_push<A, K>(s: Seq<A>, x: A, key: spec_fn(A) -> K)
    requires
        distinct(s, key),
        forall|i: int| 0 <= i < s.len() ==> key(#[trigger] s[i]) != key(x),
    ensures
        distinct(s.push(x), key),
{
}

pub(crate) proof fn distinct_some_push<A, K>(s: Seq<A>, x: A, key: spec_fn(A) -> Option<K>)
    requires
        distinct_where_some(s, key),
        key(x) is Some ==> forall|i: int| 0 <= i < s.len() ==> key(#[trigger] s[i]) != key(x),
    ensures
        distinct_where_some(s.push(x), key),
{
}

/// Changing rows without touching their keys keeps the keys unique.
pub(crate) proof fn distinct_same_keys<A, K>(s: Seq<A>, t: Seq<A>, key: spec_fn(A) -> K)
    requires
        distinct(s, key),
        t.len() == s.len(),
        forall|i: int| 0 <= i < s.len() ==> key(#[trigger] t[i]) == key(s[i]),
    ensures
        distinct(t, key),
{
    assert forall|i: int, j: int| 0 <= i < j < t.len() implies key(#[trigger] t[i]) != key(
        #[trigger] t[j],
    ) by {
        assert(key(s[i]) != key(s[j]));
    }
}

pub(crate) proof fn distinct_some_same_keys<A, K>(s: Seq<A>, t: Seq<A>, key: spec_fn(A) -> Option<K>)
    requires
        distinct_where_some(s, key),
        t.len() == s.len(),
        forall|i: int| 0 <= i < s.len() ==> key(#[trigger] t[i]) == key(s[i]),
    ensures
        distinct_where_some(t, key),
{
    assert forall|i: int, j: int| 0 <= i < j < t.len() && key(#[trigger] t[i]) is Some implies key(
        t[i],
    ) != key(#[trigger] t[j]) by {
        assert(key(s[i]) is Some);
        assert(key(s[i]) != key(s[j]));
    }
}

pub(crate) proof fn filter_is_part<A>(s: Seq<A>, p: spec_fn(A) -> bool)
    ensures
        forall|i: int|
            0 <= i < s.filter(p).len() ==> s.contains(#[trigger] s.filter(p)[i]) && p(s.filter(p)[i]),
    decreases s.len(),
{
    assert forall|i: int| 0 <= i < s.filter(p).len() implies s.contains(#[trigger] s.filter(p)[i])
        && p(s.filter(p)[i]) by {
        s.lemma_filter_pred(p, i);
        assert(s.filter(p).contains(s.filter(p)[i]));
        s.lemma_filter_contains_rev(p, s.filter(p)[i]);
    }
}

/// Dropping rows keeps the keys unique.
pub(crate) proof fn distinct_filter<A, K>(s: Seq<A>, p: spec_fn(A) -> bool, key: spec_fn(A) -> K)
    requires
        distinct(s, key),
    ensures
        distinct(s.filter(p), key),
    decreases s.len(),
{
    reveal(Seq::filter);
    if s.len() > 0 {
        let t = s.drop_last();
        distinct_filter(t, p, key);
        filter_is_part(t, p);
        if p(s.last()) {
            assert forall|i: int| 0 <= i < t.filter(p).len() implies key(#[trigger] t.filter(p)[i])
                != key(s.last()) by {
                let x = t.filter(p)[i];
                let k = choose|k: int| 0 <= k < t.len() && t[k] == x;
                assert(s[k] == x);
                assert(key(s[k]) != key(s[s.len() - 1]));
            }
            distinct_push(t.filter(p), s.last(), key);
        }
    }
}

pub(crate) proof fn distinct_some_filter<A, K>(
    s: Seq<A>,
    p: spec_fn(A) -> bool,
    key: spec_fn(A) -> Option<K>,
)
    requires
        distinct_where_some(s, key),
    ensures
        distinct_where_some(s.filter(p), key),
    decreases s.len(),
{
    reveal(Seq::filter);
    if s.len() > 0 {
        let t = s.drop_last();
        distinct_some_filter(t, p, key);
        filter_is_part(t, p);
        if p(s.last()) {
            assert forall|i: int|
                0 <= i < t.filter(p).len() && key(s.last()) is Some implies key(
                #[trigger] t.filter(p)[i],
            ) != key(s.last()) by {
                let x = t.filter(p)[i];
                let k = choose|k: int| 0 <= k < t.len() && t[k] == x;
                assert(s[k] == x);
                if key(s[k]) is Some {
                    assert(key(s[k]) != key(s[s.len() - 1]));
                }
            }
            distinct_some_push(t.filter(p), s.last(), key);
        }
    }
}

impl Library {
    /// A library with nothing in it.
    pub fn new() -> (r: Self)
        ensures
            r@ == (LibraryView {
                tracks: Seq::empty(),
                playlists: Seq::empty(),
                playlist_tracks: Seq::empty(),
                settings: Seq::empty(),
                devices: Seq::empty(),
                sync_policy: Seq::empty(),
                device_sync: Seq::empty(),
                sync_scope: Seq::empty(),
                blob_replicas: Seq::empty(),
                tombstones: Seq::empty(),
            }),
            r@.wf(),
    {
        let r: Library = Library {
            tracks: Vec::new(),
            playlists: Vec::new(),
            playlist_tracks: Vec::new(),
            settings: Vec::new(),
            devices: Vec::new(),
            sync_policy: Vec::new(),
            device_sync: Vec::new(),
            sync_scope: Vec::new(),
            blob_replicas: Vec::new(),
            tombstones: Vec::new(),
        };
        proof {
            assert(r@ =~~= (LibraryView {
                tracks: Seq::empty(),
                playlists: Seq::empty(),
                playlist_tracks: Seq::empty(),
                settings: Seq::empty(),
                devices: Seq::empty(),
                sync_policy: Seq::empty(),
                device_sync: Seq::empty(),
                sync_scope: Seq::empty(),
                blob_replicas: Seq::empty(),
                tombstones: Seq::empty(),
            }));
        }
        r
    }
}

} // verus!
