//! The scopes that the library holds: who wants what, what is in scope by it, and
//! which files could go or come back.

use crate::db::{
    device_uid_or, identity_or, is_clock_time, is_uid_text, new_uid, now_ms, this_device_uid,
    with_identity, DbError,
};
use crate::graph::reaches;
use crate::library::{
    device_sync_key, distinct, distinct_push, distinct_same_keys, distinct_some_same_keys,
    playlist_id, replica_key, scope_key, track_id, track_path_key, track_uid_key, Library,
    LibraryView, PlaylistTrackRow, PlaylistTrackRowView, ReplicaRow, ReplicaRowView, TrackRow,
    TrackRowView,
};
use crate::manifest::{
    both_have_uids, membership_entry, playlist_entries, playlist_entry, playlist_has_uid,
    DeviceSync, DeviceSyncView, PlaylistEntry, ScopeEntry, ScopeEntryView,
};
use crate::merge::{members_keep_tracks, tracks_same_keys_wf};
use crate::scope::{
    expand, expanded, is_inside, marked_by, marks, scope_of, scoped_tracks, tracks_under, Direction,
    Mode, Scope, ScopeView,
};
use crate::seqs::{count, filter_step, take_all, take_none_filter, views, views_push, views_update};
use crate::table::{
    find, first_where, first_where_is_first, keyed, row_with, row_with_push, row_with_update,
};
use crate::text::{opt_view, same};
use crate::tracks::{find_track, track_uid, track_uid_of};
use crate::tree::{has_id, playlist_uid, playlist_uid_of, track_is_present};
use crate::uidset::UidSet;
use vstd::prelude::*;

verus! {

broadcast use vstd::string::group_string_axioms;

// ---------------------------------------------------------------------------
// Reading and writing the rows
// ---------------------------------------------------------------------------

/// Every mark there is.
pub fn entries(lib: &Library) -> (r: Vec<ScopeEntry>)
    ensures
        views(r@) == lib@.sync_scope,
{
    let mut r: Vec<ScopeEntry> = Vec::new();
    for i in 0..lib.sync_scope.len()
        invariant
            views(r@) == lib@.sync_scope.take(i as int),
    {
        let e: ScopeEntry = lib.sync_scope[i].clone();
        proof {
            views_push(r@, e);
            assert(lib@.sync_scope.take(i + 1) =~= lib@.sync_scope.take(i as int).push(e@));
        }
        r.push(e);
    }
    proof {
        take_all(lib@.sync_scope);
    }
    r
}

/// What every device does.
pub fn all_device_sync(lib: &Library) -> (r: Vec<DeviceSync>)
    ensures
        views(r@) == lib@.device_sync,
{
    let mut r: Vec<DeviceSync> = Vec::new();
    for i in 0..lib.device_sync.len()
        invariant
            views(r@) == lib@.device_sync.take(i as int),
    {
        let e: DeviceSync = lib.device_sync[i].clone();
        proof {
            views_push(r@, e);
            assert(lib@.device_sync.take(i + 1) =~= lib@.device_sync.take(i as int).push(e@));
        }
        r.push(e);
    }
    proof {
        take_all(lib@.device_sync);
    }
    r
}

/// The scope of a device, as the library has it.
pub open spec fn scope_in(l: LibraryView, device_uid: Seq<char>) -> ScopeView {
    scope_of(
        row_with(l.device_sync, device_sync_key(), device_uid),
        marked_by(l.sync_scope, device_uid),
    )
}

/// The scope of a device.
pub fn get(lib: &Library, device_uid: &str) -> (r: Scope)
    ensures
        r@ == scope_in(lib@, device_uid@),
{
    crate::scope::from_entries(device_uid, lib.sync_scope.as_slice(), lib.device_sync.as_slice())
}

fn find_sync(rows: &Vec<DeviceSync>, device_uid: &str) -> (r: Option<usize>)
    ensures
        match r {
            Some(i) => i < rows@.len() && first_where(
                views(rows@),
                keyed(device_sync_key(), device_uid@),
            ) == Some(i as int) && rows@[i as int].device_uid@ == device_uid@,
            None => first_where(views(rows@), keyed(device_sync_key(), device_uid@)) is None,
        },
{
    let hit = |x: &DeviceSync| -> (b: bool)
        ensures
            b == (x.device_uid@ == device_uid@),
        { same(x.device_uid.as_str(), device_uid) };
    find(rows, hit, Ghost(keyed(device_sync_key(), device_uid@)))
}

fn find_entry(rows: &Vec<ScopeEntry>, device_uid: &str, playlist_uid: &str) -> (r: Option<usize>)
    ensures
        match r {
            Some(i) => i < rows@.len() && first_where(
                views(rows@),
                keyed(scope_key(), (device_uid@, playlist_uid@)),
            ) == Some(i as int) && scope_key()(rows@[i as int]@) == (device_uid@, playlist_uid@),
            None => first_where(
                views(rows@),
                keyed(scope_key(), (device_uid@, playlist_uid@)),
            ) is None,
        },
{
    let hit = |x: &ScopeEntry| -> (b: bool)
        ensures
            b == (x.device_uid@ == device_uid@ && x.playlist_uid@ == playlist_uid@),
        {
            same(x.device_uid.as_str(), device_uid) && same(x.playlist_uid.as_str(), playlist_uid)
        };
    find(rows, hit, Ghost(keyed(scope_key(), (device_uid@, playlist_uid@))))
}

/// The rows with that one in the place of the row of the same device, or at the
/// end where there was none.
pub open spec fn sync_put(rows: Seq<DeviceSyncView>, row: DeviceSyncView) -> Seq<DeviceSyncView> {
    match first_where(rows, keyed(device_sync_key(), row.device_uid)) {
        Some(i) => rows.update(i, row),
        None => rows.push(row),
    }
}

/// The rows with that one in the place of the row of the same device and playlist,
/// or at the end where there was none.
pub open spec fn entry_put(rows: Seq<ScopeEntryView>, row: ScopeEntryView) -> Seq<ScopeEntryView> {
    match first_where(rows, keyed(scope_key(), scope_key()(row))) {
        Some(i) => rows.update(i, row),
        None => rows.push(row),
    }
}

proof fn sync_put_distinct(rows: Seq<DeviceSyncView>, row: DeviceSyncView)
    requires
        distinct(rows, device_sync_key()),
    ensures
        distinct(sync_put(rows, row), device_sync_key()),
{
    let k = keyed(device_sync_key(), row.device_uid);
    first_where_is_first(rows, k);
    match first_where(rows, k) {
        Some(i) => {
            distinct_same_keys(rows, rows.update(i, row), device_sync_key());
        },
        None => {
            assert forall|j: int| 0 <= j < rows.len() implies device_sync_key()(#[trigger] rows[j])
                != device_sync_key()(row) by {
                assert(!k(rows[j]));
            }
            distinct_push(rows, row, device_sync_key());
        },
    }
}

pub(crate) proof fn entry_put_distinct(rows: Seq<ScopeEntryView>, row: ScopeEntryView)
    requires
        distinct(rows, scope_key()),
    ensures
        distinct(entry_put(rows, row), scope_key()),
{
    let k = keyed(scope_key(), scope_key()(row));
    first_where_is_first(rows, k);
    match first_where(rows, k) {
        Some(i) => {
            distinct_same_keys(rows, rows.update(i, row), scope_key());
        },
        None => {
            assert forall|j: int| 0 <= j < rows.len() implies scope_key()(#[trigger] rows[j])
                != scope_key()(row) by {
                assert(!k(rows[j]));
            }
            distinct_push(rows, row, scope_key());
        },
    }
}

fn put_sync(rows: &mut Vec<DeviceSync>, row: DeviceSync)
    ensures
        views(final(rows)@) == sync_put(views(old(rows)@), row@),
{
    match find_sync(rows, row.device_uid.as_str()) {
        Some(i) => {
            proof {
                views_update(rows@, i as int, row);
            }
            rows.set(i, row);
        },
        None => {
            proof {
                views_push(rows@, row);
            }
            rows.push(row);
        },
    }
}

fn put_entry(rows: &mut Vec<ScopeEntry>, row: ScopeEntry)
    ensures
        views(final(rows)@) == entry_put(views(old(rows)@), row@),
{
    match find_entry(rows, row.device_uid.as_str(), row.playlist_uid.as_str()) {
        Some(i) => {
            proof {
                views_update(rows@, i as int, row);
            }
            rows.set(i, row);
        },
        None => {
            proof {
                views_push(rows@, row);
            }
            rows.push(row);
        },
    }
}

/// The row of a device, or the one it starts with: everything, both ways.
pub open spec fn sync_row_or_new(l: LibraryView, device_uid: Seq<char>) -> DeviceSyncView {
    match row_with(l.device_sync, device_sync_key(), device_uid) {
        Some(r) => r,
        None => DeviceSyncView { device_uid, mode: "all"@, direction: "both"@, updated_at: 0 },
    }
}

fn sync_row(lib: &Library, device_uid: &str) -> (r: DeviceSync)
    ensures
        r@ == sync_row_or_new(lib@, device_uid@),
        r.device_uid@ == device_uid@,
{
    match find_sync(&lib.device_sync, device_uid) {
        Some(i) => lib.device_sync[i].clone(),
        None => DeviceSync {
            device_uid: device_uid.to_owned(),
            mode: "all".to_owned(),
            direction: "both".to_owned(),
            updated_at: 0,
        },
    }
}

/// The library once a device wants everything, or a selection.
pub open spec fn mode_set(l: LibraryView, device_uid: Seq<char>, mode: Mode, now: i64) -> LibraryView {
    LibraryView {
        device_sync: sync_put(
            l.device_sync,
            DeviceSyncView {
                mode: mode.setting(),
                updated_at: now,
                ..sync_row_or_new(l, device_uid)
            },
        ),
        ..l
    }
}

/// Stores whether a device wants everything or a selection, at a given moment.
pub fn set_mode_at(lib: &mut Library, device_uid: &str, mode: Mode, now: i64)
    ensures
        final(lib)@ == mode_set(old(lib)@, device_uid@, mode, now),
        scope_in(final(lib)@, device_uid@).mode == mode,
        old(lib)@.wf() ==> final(lib)@.wf(),
{
    let mut row: DeviceSync = sync_row(lib, device_uid);
    row.mode = mode.as_str().to_owned();
    row.updated_at = now;
    proof {
        sync_put_is_read(lib@.device_sync, row@);
        crate::scope::stored_modes_are_read_back(mode);
        if lib@.wf() {
            sync_put_distinct(lib@.device_sync, row@);
        }
    }
    put_sync(&mut lib.device_sync, row);
}

pub(crate) proof fn sync_put_is_read(rows: Seq<DeviceSyncView>, row: DeviceSyncView)
    ensures
        row_with(sync_put(rows, row), device_sync_key(), row.device_uid) == Some(row),
        forall|u: Seq<char>|
            u != row.device_uid ==> #[trigger] row_with(sync_put(rows, row), device_sync_key(), u)
                == row_with(rows, device_sync_key(), u),
{
    let key = device_sync_key();
    first_where_is_first(rows, keyed(key, row.device_uid));
    match first_where(rows, keyed(key, row.device_uid)) {
        Some(i) => {
            row_with_update(rows, key, i, row, row.device_uid);
            assert forall|u: Seq<char>| u != row.device_uid implies #[trigger] row_with(
                sync_put(rows, row),
                key,
                u,
            ) == row_with(rows, key, u) by {
                row_with_update(rows, key, i, row, u);
            }
        },
        None => {
            row_with_push(rows, key, row, row.device_uid);
            assert forall|u: Seq<char>| u != row.device_uid implies #[trigger] row_with(
                sync_put(rows, row),
                key,
                u,
            ) == row_with(rows, key, u) by {
                row_with_push(rows, key, row, u);
            }
        },
    }
}

/// Stores whether a device wants everything or a selection.
pub fn set_mode(lib: &mut Library, device_uid: &str, mode: Mode)
    ensures
        exists|now: i64|
            is_clock_time(now) && final(lib)@ == #[trigger] mode_set(
                old(lib)@,
                device_uid@,
                mode,
                now,
            ),
        scope_in(final(lib)@, device_uid@).mode == mode,
        old(lib)@.wf() ==> final(lib)@.wf(),
{
    let now: i64 = now_ms();
    set_mode_at(lib, device_uid, mode, now);
}

/// The library once a device sends, receives, both or neither.
pub open spec fn direction_set(
    l: LibraryView,
    device_uid: Seq<char>,
    direction: Seq<char>,
    now: i64,
) -> LibraryView {
    LibraryView {
        device_sync: sync_put(
            l.device_sync,
            DeviceSyncView { direction, updated_at: now, ..sync_row_or_new(l, device_uid) },
        ),
        ..l
    }
}

/// Stores what a device does, at a given moment.
pub fn set_direction_at(lib: &mut Library, device_uid: &str, direction: &str, now: i64)
    ensures
        final(lib)@ == direction_set(old(lib)@, device_uid@, direction@, now),
        scope_in(final(lib)@, device_uid@).direction == Direction::of_setting(direction@),
        old(lib)@.wf() ==> final(lib)@.wf(),
{
    let mut row: DeviceSync = sync_row(lib, device_uid);
    row.direction = direction.to_owned();
    row.updated_at = now;
    proof {
        sync_put_is_read(lib@.device_sync, row@);
        if lib@.wf() {
            sync_put_distinct(lib@.device_sync, row@);
        }
    }
    put_sync(&mut lib.device_sync, row);
}

/// Stores what a device does.
pub fn set_direction(lib: &mut Library, device_uid: &str, direction: &str)
    ensures
        exists|now: i64|
            is_clock_time(now) && final(lib)@ == #[trigger] direction_set(
                old(lib)@,
                device_uid@,
                direction@,
                now,
            ),
        scope_in(final(lib)@, device_uid@).direction == Direction::of_setting(direction@),
        old(lib)@.wf() ==> final(lib)@.wf(),
{
    let now: i64 = now_ms();
    set_direction_at(lib, device_uid, direction, now);
}

/// The library once a playlist was marked or unmarked for a device.
pub open spec fn playlist_marked(
    l: LibraryView,
    device_uid: Seq<char>,
    playlist_uid: Seq<char>,
    selected: bool,
    now: i64,
) -> LibraryView {
    LibraryView {
        sync_scope: entry_put(
            l.sync_scope,
            ScopeEntryView { device_uid, playlist_uid, selected, updated_at: now },
        ),
        ..l
    }
}

/// Marks or unmarks a playlist for a device, at a given moment. Unmarking leaves
/// the row, which now says no.
pub fn set_playlist_at(
    lib: &mut Library,
    device_uid: &str,
    playlist_uid: &str,
    selected: bool,
    now: i64,
)
    ensures
        final(lib)@ == playlist_marked(old(lib)@, device_uid@, playlist_uid@, selected, now),
        old(lib)@.wf() ==> final(lib)@.wf(),
{
    let row: ScopeEntry = ScopeEntry {
        device_uid: device_uid.to_owned(),
        playlist_uid: playlist_uid.to_owned(),
        selected,
        updated_at: now,
    };
    proof {
        if lib@.wf() {
            entry_put_distinct(lib@.sync_scope, row@);
        }
    }
    put_entry(&mut lib.sync_scope, row);
}

/// Marks or unmarks a playlist for a device.
pub fn set_playlist(lib: &mut Library, device_uid: &str, playlist_uid: &str, selected: bool)
    ensures
        exists|now: i64|
            is_clock_time(now) && final(lib)@ == #[trigger] playlist_marked(
                old(lib)@,
                device_uid@,
                playlist_uid@,
                selected,
                now,
            ),
        old(lib)@.wf() ==> final(lib)@.wf(),
{
    let now: i64 = now_ms();
    set_playlist_at(lib, device_uid, playlist_uid, selected, now);
}

/// A mark is read as it was written, and its row is there even when it says no;
/// no other device's marks, and no other playlist's, are touched.
pub proof fn marks_are_read_back(
    l: LibraryView,
    device_uid: Seq<char>,
    playlist_uid: Seq<char>,
    selected: bool,
    now: i64,
    device: Seq<char>,
    playlist: Seq<char>,
)
    requires
        l.wf(),
    ensures
        ({
            let m = playlist_marked(l, device_uid, playlist_uid, selected, now);
            &&& row_with(m.sync_scope, scope_key(), (device_uid, playlist_uid)) == Some(
                ScopeEntryView { device_uid, playlist_uid, selected, updated_at: now },
            )
            &&& scope_in(m, device_uid).selected.contains(playlist_uid) == selected
            &&& (device, playlist) != (device_uid, playlist_uid) ==> scope_in(
                m,
                device,
            ).selected.contains(playlist) == scope_in(l, device).selected.contains(playlist)
        }),
{
    let row = ScopeEntryView { device_uid, playlist_uid, selected, updated_at: now };
    let m = playlist_marked(l, device_uid, playlist_uid, selected, now);
    entry_put_is_read(l.sync_scope, row);
    entry_put_distinct(l.sync_scope, row);
    mark_by_row(l.sync_scope, device, playlist);
    mark_by_row(m.sync_scope, device, playlist);
    mark_by_row(m.sync_scope, device_uid, playlist_uid);
}

pub(crate) proof fn entry_put_is_read(rows: Seq<ScopeEntryView>, row: ScopeEntryView)
    ensures
        row_with(entry_put(rows, row), scope_key(), scope_key()(row)) == Some(row),
        forall|k: (Seq<char>, Seq<char>)|
            k != scope_key()(row) ==> #[trigger] row_with(entry_put(rows, row), scope_key(), k)
                == row_with(rows, scope_key(), k),
{
    let key = scope_key();
    first_where_is_first(rows, keyed(key, key(row)));
    match first_where(rows, keyed(key, key(row))) {
        Some(i) => {
            row_with_update(rows, key, i, row, key(row));
            assert forall|k: (Seq<char>, Seq<char>)| k != key(row) implies #[trigger] row_with(
                entry_put(rows, row),
                key,
                k,
            ) == row_with(rows, key, k) by {
                row_with_update(rows, key, i, row, k);
            }
        },
        None => {
            row_with_push(rows, key, row, key(row));
            assert forall|k: (Seq<char>, Seq<char>)| k != key(row) implies #[trigger] row_with(
                entry_put(rows, row),
                key,
                k,
            ) == row_with(rows, key, k) by {
                row_with_push(rows, key, row, k);
            }
        },
    }
}

/// Where each pair has one row, that row says whether the playlist is marked.
proof fn mark_by_row(rows: Seq<ScopeEntryView>, device: Seq<char>, playlist: Seq<char>)
    requires
        distinct(rows, scope_key()),
    ensures
        marked_by(rows, device).contains(playlist) == match row_with(
            rows,
            scope_key(),
            (device, playlist),
        ) {
            Some(r) => r.selected,
            None => false,
        },
{
    let k = keyed(scope_key(), (device, playlist));
    first_where_is_first(rows, k);
    match first_where(rows, k) {
        Some(i) => {
            if rows[i].selected {
                assert(rows[i].device_uid == device);
            }
            if marked_by(rows, device).contains(playlist) {
                let j = choose|j: int|
                    0 <= j < rows.len() && (#[trigger] rows[j]).device_uid == device
                        && rows[j].selected && rows[j].playlist_uid == playlist;
                if i < j {
                    assert(scope_key()(rows[i]) != scope_key()(rows[j]));
                } else if j < i {
                    assert(scope_key()(rows[j]) != scope_key()(rows[i]));
                }
            }
        },
        None => {
            if marked_by(rows, device).contains(playlist) {
                let j = choose|j: int|
                    0 <= j < rows.len() && (#[trigger] rows[j]).device_uid == device
                        && rows[j].selected && rows[j].playlist_uid == playlist;
                assert(!k(rows[j]));
            }
        },
    }
}

/// Takes in a mark of another device, if it is newer than the one here; whether it
/// changed anything.
pub fn apply_entry(lib: &mut Library, e: &ScopeEntry) -> (r: bool)
    ensures
        r == match row_with(old(lib)@.sync_scope, scope_key(), scope_key()(e@)) {
            Some(mine) => e.updated_at > mine.updated_at,
            None => true,
        },
        final(lib)@ == if r {
            LibraryView { sync_scope: entry_put(old(lib)@.sync_scope, e@), ..old(lib)@ }
        } else {
            old(lib)@
        },
        old(lib)@.wf() ==> final(lib)@.wf(),
{
    let newer: bool = match find_entry(
        &lib.sync_scope,
        e.device_uid.as_str(),
        e.playlist_uid.as_str(),
    ) {
        Some(i) => e.updated_at > lib.sync_scope[i].updated_at,
        None => true,
    };
    if newer {
        proof {
            if lib@.wf() {
                entry_put_distinct(lib@.sync_scope, e@);
            }
        }
        put_entry(&mut lib.sync_scope, e.clone());
    }
    newer
}

/// Takes in what another device says of a device, if it is newer than what is
/// here; whether it changed anything. Mode and direction travel together.
pub fn apply_device_sync(lib: &mut Library, m: &DeviceSync) -> (r: bool)
    ensures
        r == match row_with(old(lib)@.device_sync, device_sync_key(), m.device_uid@) {
            Some(mine) => m.updated_at > mine.updated_at,
            None => true,
        },
        final(lib)@ == if r {
            LibraryView { device_sync: sync_put(old(lib)@.device_sync, m@), ..old(lib)@ }
        } else {
            old(lib)@
        },
        old(lib)@.wf() ==> final(lib)@.wf(),
{
    let newer: bool = match find_sync(&lib.device_sync, m.device_uid.as_str()) {
        Some(i) => m.updated_at > lib.device_sync[i].updated_at,
        None => true,
    };
    if newer {
        proof {
            if lib@.wf() {
                sync_put_distinct(lib@.device_sync, m@);
            }
        }
        put_sync(&mut lib.device_sync, m.clone());
    }
    newer
}

/// The library once a playlist that was made on this device is marked for it, if
/// it wants a selection.
pub open spec fn new_one_selected(
    l: LibraryView,
    playlist: i64,
    now: i64,
    fresh: Seq<char>,
) -> LibraryView {
    let me = identity_or(l, fresh);
    let m = with_identity(l, fresh);
    match (scope_in(m, me).mode, playlist_uid_of(m, playlist)) {
        (Mode::Selected, Some(uid)) => playlist_marked(m, me, uid, true, now),
        _ => m,
    }
}

/// Marks a playlist made on this device for it, where it wants a selection.
/// Without a mark it would be hidden as soon as it was made.
pub fn select_new_local_at(lib: &mut Library, playlist_id: i64, now: i64, fresh: &str)
    ensures
        final(lib)@ == new_one_selected(old(lib)@, playlist_id, now, fresh@),
        old(lib)@.wf() ==> final(lib)@.wf(),
{
    let me: String = device_uid_or(lib, fresh);
    let scope: Scope = get(lib, me.as_str());
    if scope.mode == Mode::All {
        return;
    }
    if let Some(uid) = playlist_uid(lib, playlist_id) {
        set_playlist_at(lib, me.as_str(), uid.as_str(), true, now);
    }
}

/// Marks a playlist made on this device for it, where it wants a selection.
pub fn select_new_local(lib: &mut Library, playlist_id: i64)
    ensures
        exists|now: i64, fresh: Seq<char>|
            is_clock_time(now) && is_uid_text(fresh) && final(lib)@ == #[trigger] new_one_selected(
                old(lib)@,
                playlist_id,
                now,
                fresh,
            ),
        old(lib)@.wf() ==> final(lib)@.wf(),
{
    let now: i64 = now_ms();
    let fresh: String = new_uid();
    select_new_local_at(lib, playlist_id, now, fresh.as_str());
}

// ---------------------------------------------------------------------------
// Who else has a file
// ---------------------------------------------------------------------------

/// The rows once it is noted that a device has a file. A note less than an hour
/// older is left as it is.
pub open spec fn replica_noted(
    rows: Seq<ReplicaRowView>,
    device_uid: Seq<char>,
    hash: Seq<char>,
    now: i64,
) -> Seq<ReplicaRowView> {
    let row = ReplicaRowView { hash, device_uid, seen_at: now };
    match first_where(rows, keyed(replica_key(), (hash, device_uid))) {
        Some(i) => if now - rows[i].seen_at > 3600000 {
            rows.update(i, row)
        } else {
            rows
        },
        None => rows.push(row),
    }
}

pub open spec fn replicas_noted(
    rows: Seq<ReplicaRowView>,
    device_uid: Seq<char>,
    hashes: Seq<Seq<char>>,
    now: i64,
) -> Seq<ReplicaRowView>
    decreases hashes.len(),
{
    if hashes.len() == 0 {
        rows
    } else {
        replica_noted(
            replicas_noted(rows, device_uid, hashes.drop_last(), now),
            device_uid,
            hashes.last(),
            now,
        )
    }
}

proof fn replica_noted_distinct(
    rows: Seq<ReplicaRowView>,
    device_uid: Seq<char>,
    hash: Seq<char>,
    now: i64,
)
    requires
        distinct(rows, replica_key()),
    ensures
        distinct(replica_noted(rows, device_uid, hash, now), replica_key()),
{
    let row = ReplicaRowView { hash, device_uid, seen_at: now };
    let k = keyed(replica_key(), (hash, device_uid));
    first_where_is_first(rows, k);
    match first_where(rows, k) {
        Some(i) => {
            distinct_same_keys(rows, rows.update(i, row), replica_key());
        },
        None => {
            assert forall|j: int| 0 <= j < rows.len() implies replica_key()(#[trigger] rows[j])
                != replica_key()(row) by {
                assert(!k(rows[j]));
            }
            distinct_push(rows, row, replica_key());
        },
    }
}

/// Whether `now` is more than an hour after `then`.
fn over_an_hour(now: i64, then: i64) -> (r: bool)
    ensures
        r == (now - then > 3600000),
{
    match now.checked_sub(then) {
        Some(d) => d > 3600000,
        None => now > then,
    }
}

fn note_replica(rows: &mut Vec<ReplicaRow>, device_uid: &str, hash: &str, now: i64)
    ensures
        views(final(rows)@) == replica_noted(views(old(rows)@), device_uid@, hash@, now),
{
    let hit = |x: &ReplicaRow| -> (b: bool)
        ensures
            b == (x.hash@ == hash@ && x.device_uid@ == device_uid@),
        { same(x.hash.as_str(), hash) && same(x.device_uid.as_str(), device_uid) };
    let row: ReplicaRow = ReplicaRow {
        hash: hash.to_owned(),
        device_uid: device_uid.to_owned(),
        seen_at: now,
    };
    match find(rows, hit, Ghost(keyed(replica_key(), (hash@, device_uid@)))) {
        Some(i) => {
            if over_an_hour(now, rows[i].seen_at) {
                proof {
                    views_update(rows@, i as int, row);
                }
                rows.set(i, row);
            }
        },
        None => {
            proof {
                views_push(rows@, row);
            }
            rows.push(row);
        },
    }
}

/// Notes, at a given moment, that a device has those files. Only a copy that is
/// known to be elsewhere makes it safe to let one go here.
pub fn note_replicas_at(lib: &mut Library, device_uid: &str, hashes: &[String], now: i64)
    ensures
        final(lib)@ == (LibraryView {
            blob_replicas: replicas_noted(
                old(lib)@.blob_replicas,
                device_uid@,
                views(hashes@),
                now,
            ),
            ..old(lib)@
        }),
        old(lib)@.wf() ==> final(lib)@.wf(),
{
    let ghost l0 = lib@;
    let ghost v = views(hashes@);
    proof {
        assert(v.take(0) =~= Seq::empty());
    }
    for i in 0..hashes.len()
        invariant
            v == views(hashes@),
            lib@ == (LibraryView {
                blob_replicas: replicas_noted(
                    l0.blob_replicas,
                    device_uid@,
                    v.take(i as int),
                    now,
                ),
                ..l0
            }),
            l0.wf() ==> lib@.wf(),
    {
        proof {
            assert(v.take(i + 1).drop_last() =~= v.take(i as int));
            assert(v.take(i + 1).last() == hashes@[i as int]@);
            if l0.wf() {
                replica_noted_distinct(
                    lib@.blob_replicas,
                    device_uid@,
                    hashes@[i as int]@,
                    now,
                );
            }
        }
        note_replica(&mut lib.blob_replicas, device_uid, hashes[i].as_str(), now);
    }
    proof {
        take_all(v);
    }
}

/// Notes that a device has those files.
pub fn note_replicas(lib: &mut Library, device_uid: &str, hashes: &[String])
    ensures
        exists|now: i64|
            is_clock_time(now) && final(lib)@ == (LibraryView {
                blob_replicas: #[trigger] replicas_noted(
                    old(lib)@.blob_replicas,
                    device_uid@,
                    views(hashes@),
                    now,
                ),
                ..old(lib)@
            }),
        old(lib)@.wf() ==> final(lib)@.wf(),
{
    let now: i64 = now_ms();
    note_replicas_at(lib, device_uid, hashes, now);
}

// ---------------------------------------------------------------------------
// What is in scope
// ---------------------------------------------------------------------------

/// The playlist of uid `b` is directly inside that of uid `a`.
pub open spec fn inside_in(l: LibraryView) -> spec_fn(Seq<char>, Seq<char>) -> bool {
    |a: Seq<char>, b: Seq<char>|
        exists|i: int, j: int|
            0 <= i < l.playlists.len() && 0 <= j < l.playlists.len() && (
            #[trigger] l.playlists[i]).uid == Some(b) && (#[trigger] l.playlists[j]).uid == Some(a)
                && l.playlists[i].parent_id == Some(l.playlists[j].id)
}

/// The playlists that a device has marked, and all that hang from them.
pub open spec fn marked_in(l: LibraryView, device_uid: Seq<char>) -> Set<Seq<char>> {
    Set::new(
        |u: Seq<char>| reaches(inside_in(l), marked_by(l.sync_scope, device_uid), u),
    )
}

/// By uid or by row id, the same playlists are inside one another.
proof fn inside_by_uid_or_id(l: LibraryView)
    requires
        l.wf(),
    ensures
        is_inside(
            l.playlists.filter(playlist_has_uid()).map_values(playlist_entry(l)),
        ) == inside_in(l),
{
    let es = l.playlists.filter(playlist_has_uid()).map_values(playlist_entry(l));
    let kept = l.playlists.filter(playlist_has_uid());
    let f = is_inside(es);
    let g = inside_in(l);
    crate::library::filter_is_part(l.playlists, playlist_has_uid());
    assert forall|a: Seq<char>, b: Seq<char>| #[trigger] f(a, b) == g(a, b) by {
        if f(a, b) {
            let i = choose|i: int|
                0 <= i < es.len() && (#[trigger] es[i]).uid == b && es[i].parent_uid == Some(a);
            let row = kept[i];
            assert(es[i] == playlist_entry(l)(row));
            let k = choose|k: int| 0 <= k < l.playlists.len() && l.playlists[k] == row;
            let q = row.parent_id->0;
            first_where_is_first(l.playlists, keyed(playlist_id(), q));
            let j = first_where(l.playlists, keyed(playlist_id(), q))->0;
            assert(l.playlists[k].uid == Some(b) && l.playlists[j].uid == Some(a));
        }
        if g(a, b) {
            let (i, j) = choose|i: int, j: int|
                0 <= i < l.playlists.len() && 0 <= j < l.playlists.len() && (
                #[trigger] l.playlists[i]).uid == Some(b) && (#[trigger] l.playlists[j]).uid == Some(
                    a,
                ) && l.playlists[i].parent_id == Some(l.playlists[j].id);
            l.playlists.lemma_filter_contains(playlist_has_uid(), i);
            let k = choose|k: int| 0 <= k < kept.len() && kept[k] == l.playlists[i];
            let q = l.playlists[j].id;
            first_where_is_first(l.playlists, keyed(playlist_id(), q));
            assert(keyed(playlist_id(), q)(l.playlists[j]));
            let n = first_where(l.playlists, keyed(playlist_id(), q))->0;
            if n < j {
                assert(playlist_id()(l.playlists[n]) != playlist_id()(l.playlists[j]));
            } else if j < n {
                assert(playlist_id()(l.playlists[j]) != playlist_id()(l.playlists[n]));
            }
            assert(es[k].uid == b && es[k].parent_uid == Some(a));
        }
    }
    assert(f =~= g);
}

fn marked(lib: &Library, device_uid: &str) -> (r: UidSet)
    requires
        lib@.wf(),
    ensures
        r@ == marked_in(lib@, device_uid@),
        r.wf(),
{
    let playlists: Vec<PlaylistEntry> = playlist_entries(lib);
    let selected: UidSet = marks(lib.sync_scope.as_slice(), device_uid);
    let r: UidSet = expand(playlists.as_slice(), &selected);
    proof {
        inside_by_uid_or_id(lib@);
        assert(r@ =~= marked_in(lib@, device_uid@));
    }
    r
}

/// The playlists in scope, down the tree; nothing where all of them are.
pub fn scope_playlists(lib: &Library, device_uid: &str) -> (r: Option<UidSet>)
    requires
        lib@.wf(),
    ensures
        r is None <==> scope_in(lib@, device_uid@).mode == Mode::All,
        r is Some ==> r->0@ == marked_in(lib@, device_uid@) && r->0.wf(),
{
    let scope: Scope = get(lib, device_uid);
    if scope.mode == Mode::All {
        return None;
    }
    Some(marked(lib, device_uid))
}

/// The place is in a playlist that is in scope.
pub open spec fn place_in_scope(
    l: LibraryView,
    device_uid: Seq<char>,
    m: PlaylistTrackRowView,
) -> bool {
    playlist_uid_of(l, m.playlist_id) is Some && marked_in(l, device_uid).contains(
        playlist_uid_of(l, m.playlist_id)->0,
    )
}

/// The tracks in scope: those that are in some playlist in scope.
pub open spec fn tracks_scoped(l: LibraryView, device_uid: Seq<char>) -> Set<Seq<char>> {
    Set::new(
        |u: Seq<char>|
            exists|i: int|
                0 <= i < l.playlist_tracks.len() && place_in_scope(
                    l,
                    device_uid,
                    #[trigger] l.playlist_tracks[i],
                ) && track_uid_of(l)(l.playlist_tracks[i].track_id) == Some(u),
    )
}

/// The tracks in scope, by uid; nothing where all of them are.
pub fn scope_tracks(lib: &Library, device_uid: &str) -> (r: Option<UidSet>)
    requires
        lib@.wf(),
    ensures
        r is None <==> scope_in(lib@, device_uid@).mode == Mode::All,
        r is Some ==> r->0@ == tracks_scoped(lib@, device_uid@) && r->0.wf(),
{
    let scope: Scope = get(lib, device_uid);
    if scope.mode == Mode::All {
        return None;
    }
    let wanted: UidSet = marked(lib, device_uid);
    let mut r: UidSet = UidSet::new();
    let ghost ms = lib@.playlist_tracks;
    for i in 0..lib.playlist_tracks.len()
        invariant
            ms == lib@.playlist_tracks,
            wanted@ == marked_in(lib@, device_uid@),
            r.wf(),
            forall|u: Seq<char>| #[trigger]
                r@.contains(u) <==> exists|j: int|
                    0 <= j < i && place_in_scope(lib@, device_uid@, #[trigger] ms[j])
                        && track_uid_of(lib@)(ms[j].track_id) == Some(u),
    {
        let m: &PlaylistTrackRow = &lib.playlist_tracks[i];
        let ghost before = r@;
        let inside: bool = match playlist_uid(lib, m.playlist_id) {
            Some(p) => wanted.contains(p.as_str()),
            None => false,
        };
        if inside {
            if let Some(u) = track_uid(lib, m.track_id) {
                r.insert(u);
            }
        }
        proof {
            assert(ms[i as int] == m@);
            assert forall|u: Seq<char>| #[trigger]
                r@.contains(u) <==> exists|j: int|
                    0 <= j < i + 1 && place_in_scope(lib@, device_uid@, #[trigger] ms[j])
                        && track_uid_of(lib@)(ms[j].track_id) == Some(u) by {
                if before.contains(u) {
                    let j = choose|j: int|
                        0 <= j < i && place_in_scope(lib@, device_uid@, #[trigger] ms[j])
                            && track_uid_of(lib@)(ms[j].track_id) == Some(u);
                    assert(0 <= j < i + 1 && place_in_scope(lib@, device_uid@, ms[j]));
                }
            }
        }
    }
    proof {
        assert(r@ =~= tracks_scoped(lib@, device_uid@));
    }
    Some(r)
}

/// The tracks in scope by the library's own tables are those that the rule gives
/// for what the library tells other devices.
pub proof fn library_and_manifest_agree_on_scope(l: LibraryView, device_uid: Seq<char>)
    requires
        l.wf(),
        scope_in(l, device_uid).mode == Mode::Selected,
    ensures
        scoped_tracks(
            l.playlists.filter(playlist_has_uid()).map_values(playlist_entry(l)),
            l.playlist_tracks.filter(both_have_uids(l)).map_values(membership_entry(l)),
            scope_in(l, device_uid),
        ) == Some(tracks_scoped(l, device_uid)),
{
    let es = l.playlists.filter(playlist_has_uid()).map_values(playlist_entry(l));
    let kept = l.playlist_tracks.filter(both_have_uids(l));
    let ms = kept.map_values(membership_entry(l));
    inside_by_uid_or_id(l);
    let wanted = expanded(es, marked_by(l.sync_scope, device_uid));
    assert(wanted =~= marked_in(l, device_uid));
    crate::library::filter_is_part(l.playlist_tracks, both_have_uids(l));
    assert forall|u: Seq<char>| tracks_under(ms, wanted).contains(u) <==> tracks_scoped(
        l,
        device_uid,
    ).contains(u) by {
        if tracks_under(ms, wanted).contains(u) {
            let i = choose|i: int|
                0 <= i < ms.len() && wanted.contains((#[trigger] ms[i]).playlist_uid)
                    && ms[i].track_uid == u;
            let row = kept[i];
            assert(ms[i] == membership_entry(l)(row));
            let k = choose|k: int| 0 <= k < l.playlist_tracks.len() && l.playlist_tracks[k] == row;
            assert(place_in_scope(l, device_uid, l.playlist_tracks[k]));
        }
        if tracks_scoped(l, device_uid).contains(u) {
            let i = choose|i: int|
                0 <= i < l.playlist_tracks.len() && place_in_scope(
                    l,
                    device_uid,
                    #[trigger] l.playlist_tracks[i],
                ) && track_uid_of(l)(l.playlist_tracks[i].track_id) == Some(u);
            l.playlist_tracks.lemma_filter_contains(both_have_uids(l), i);
            let k = choose|k: int| 0 <= k < kept.len() && kept[k] == l.playlist_tracks[i];
            assert(wanted.contains(ms[k].playlist_uid) && ms[k].track_uid == u);
        }
    }
    assert(tracks_under(ms, wanted) =~= tracks_scoped(l, device_uid));
}

/// The tracks of one playlist that are in scope: those that are also in some
/// playlist in scope, this one or another.
pub open spec fn tracks_scoped_of(
    l: LibraryView,
    device_uid: Seq<char>,
    playlist: i64,
) -> Set<Seq<char>> {
    Set::new(
        |u: Seq<char>|
            exists|i: int, j: int|
                0 <= i < l.playlist_tracks.len() && 0 <= j < l.playlist_tracks.len() && (
                #[trigger] l.playlist_tracks[i]).playlist_id == playlist
                    && l.playlist_tracks[i].track_id == l.playlist_tracks[j].track_id
                    && place_in_scope(l, device_uid, #[trigger] l.playlist_tracks[j])
                    && track_uid_of(l)(l.playlist_tracks[i].track_id) == Some(u),
    )
}

/// Some place of the track is in a playlist in scope.
pub open spec fn track_in_scope(l: LibraryView, device_uid: Seq<char>, track: i64) -> bool {
    exists|j: int|
        0 <= j < l.playlist_tracks.len() && (#[trigger] l.playlist_tracks[j]).track_id == track
            && place_in_scope(l, device_uid, l.playlist_tracks[j])
}

fn in_scope(lib: &Library, wanted: &UidSet, track: i64, Ghost(device_uid): Ghost<Seq<char>>) -> (r:
    bool)
    requires
        wanted@ == marked_in(lib@, device_uid),
    ensures
        r == track_in_scope(lib@, device_uid, track),
{
    let ghost ms = lib@.playlist_tracks;
    for j in 0..lib.playlist_tracks.len()
        invariant
            ms == lib@.playlist_tracks,
            wanted@ == marked_in(lib@, device_uid),
            forall|k: int|
                0 <= k < j ==> !((#[trigger] ms[k]).track_id == track && place_in_scope(
                    lib@,
                    device_uid,
                    ms[k],
                )),
    {
        let m: &PlaylistTrackRow = &lib.playlist_tracks[j];
        proof {
            assert(ms[j as int] == m@);
        }
        if m.track_id == track {
            if let Some(p) = playlist_uid(lib, m.playlist_id) {
                if wanted.contains(p.as_str()) {
                    proof {
                        assert(place_in_scope(lib@, device_uid, ms[j as int]));
                    }
                    return true;
                }
            }
        }
    }
    false
}

/// The tracks of one playlist that are in scope; nothing where all of them are.
pub fn scope_tracks_of_playlist(lib: &Library, device_uid: &str, playlist_id: i64) -> (r: Option<
    UidSet,
>)
    requires
        lib@.wf(),
    ensures
        r is None <==> scope_in(lib@, device_uid@).mode == Mode::All,
        r is Some ==> r->0@ == tracks_scoped_of(lib@, device_uid@, playlist_id) && r->0.wf(),
{
    let scope: Scope = get(lib, device_uid);
    if scope.mode == Mode::All {
        return None;
    }
    let wanted: UidSet = marked(lib, device_uid);
    let mut r: UidSet = UidSet::new();
    let ghost ms = lib@.playlist_tracks;
    let ghost d = device_uid@;
    for i in 0..lib.playlist_tracks.len()
        invariant
            ms == lib@.playlist_tracks,
            d == device_uid@,
            wanted@ == marked_in(lib@, d),
            r.wf(),
            forall|u: Seq<char>| #[trigger]
                r@.contains(u) <==> exists|k: int|
                    0 <= k < i && (#[trigger] ms[k]).playlist_id == playlist_id && track_in_scope(
                        lib@,
                        d,
                        ms[k].track_id,
                    ) && track_uid_of(lib@)(ms[k].track_id) == Some(u),
    {
        let m: &PlaylistTrackRow = &lib.playlist_tracks[i];
        let ghost before = r@;
        if m.playlist_id == playlist_id && in_scope(lib, &wanted, m.track_id, Ghost(d)) {
            if let Some(u) = track_uid(lib, m.track_id) {
                r.insert(u);
            }
        }
        proof {
            assert(ms[i as int] == m@);
            assert forall|u: Seq<char>| #[trigger]
                r@.contains(u) <==> exists|k: int|
                    0 <= k < i + 1 && (#[trigger] ms[k]).playlist_id == playlist_id
                        && track_in_scope(lib@, d, ms[k].track_id) && track_uid_of(lib@)(
                        ms[k].track_id,
                    ) == Some(u) by {
                if before.contains(u) {
                    let k = choose|k: int|
                        0 <= k < i && (#[trigger] ms[k]).playlist_id == playlist_id
                            && track_in_scope(lib@, d, ms[k].track_id) && track_uid_of(lib@)(
                            ms[k].track_id,
                        ) == Some(u);
                    assert(0 <= k < i + 1 && ms[k].playlist_id == playlist_id);
                }
            }
        }
    }
    proof {
        assert forall|u: Seq<char>| r@.contains(u) <==> tracks_scoped_of(
            lib@,
            d,
            playlist_id,
        ).contains(u) by {
            if r@.contains(u) {
                let i = choose|k: int|
                    0 <= k < ms.len() && (#[trigger] ms[k]).playlist_id == playlist_id
                        && track_in_scope(lib@, d, ms[k].track_id) && track_uid_of(lib@)(
                        ms[k].track_id,
                    ) == Some(u);
                let j = choose|j: int|
                    0 <= j < ms.len() && (#[trigger] ms[j]).track_id == ms[i].track_id
                        && place_in_scope(lib@, d, ms[j]);
                assert(ms[i].track_id == ms[j].track_id && place_in_scope(lib@, d, ms[j]));
            }
            if tracks_scoped_of(lib@, d, playlist_id).contains(u) {
                let (i, j) = choose|i: int, j: int|
                    0 <= i < ms.len() && 0 <= j < ms.len() && (#[trigger] ms[i]).playlist_id
                        == playlist_id && ms[i].track_id == ms[j].track_id && place_in_scope(
                        lib@,
                        d,
                        #[trigger] ms[j],
                    ) && track_uid_of(lib@)(ms[i].track_id) == Some(u);
                assert(track_in_scope(lib@, d, ms[i].track_id));
                assert(ms[i].playlist_id == playlist_id);
            }
        }
        assert(r@ =~= tracks_scoped_of(lib@, d, playlist_id));
    }
    Some(r)
}

/// The place is one whose file is here although no playlist in scope holds the
/// track.
pub open spec fn is_stranded(l: LibraryView, device_uid: Seq<char>, playlist: i64) -> spec_fn(
    PlaylistTrackRowView,
) -> bool {
    |m: PlaylistTrackRowView|
        m.playlist_id == playlist && crate::tree::is_present(l.tracks, m.track_id)
            && !track_in_scope(l, device_uid, m.track_id)
}

/// How many files a playlist still holds here that nothing in scope asks for.
pub open spec fn stranded_in(l: LibraryView, device_uid: Seq<char>, playlist: i64) -> nat {
    count(l.playlist_tracks, is_stranded(l, device_uid, playlist))
}

fn count_stranded(
    lib: &Library,
    wanted: &UidSet,
    playlist: i64,
    Ghost(device_uid): Ghost<Seq<char>>,
) -> (r: i64)
    requires
        wanted@ == marked_in(lib@, device_uid),
        lib@.playlist_tracks.len() <= i64::MAX,
    ensures
        r == stranded_in(lib@, device_uid, playlist),
{
    let ghost all = lib@.playlist_tracks;
    let ghost p = is_stranded(lib@, device_uid, playlist);
    let mut n: i64 = 0;
    proof {
        take_none_filter(all, p);
    }
    for i in 0..lib.playlist_tracks.len()
        invariant
            all == lib@.playlist_tracks,
            all.len() <= i64::MAX,
            p == is_stranded(lib@, device_uid, playlist),
            wanted@ == marked_in(lib@, device_uid),
            n == count(all.take(i as int), p),
            n <= i,
    {
        let m: &PlaylistTrackRow = &lib.playlist_tracks[i];
        proof {
            filter_step(all, p, i as int);
            assert(all[i as int] == m@);
        }
        if m.playlist_id == playlist && track_is_present(&lib.tracks, m.track_id) && !in_scope(
            lib,
            wanted,
            m.track_id,
            Ghost(device_uid),
        ) {
            n = n + 1;
        }
    }
    proof {
        take_all(all);
    }
    n
}

/// For each playlist, how many files it still holds here that nothing in scope
/// asks for; playlists that hold none are left out, and nothing is stranded where
/// everything is in scope.
pub fn stranded_counts(lib: &Library, device_uid: &str) -> (r: std::collections::HashMap<i64, i64>)
    requires
        lib@.wf(),
        lib@.playlist_tracks.len() <= i64::MAX,
    ensures
        forall|id: i64| #[trigger]
            r@.contains_key(id) <==> scope_in(lib@, device_uid@).mode == Mode::Selected
                && stranded_in(lib@, device_uid@, id) > 0,
        forall|id: i64| #[trigger]
            r@.contains_key(id) ==> r@[id] == stranded_in(lib@, device_uid@, id),
{
    broadcast use vstd::std_specs::hash::group_hash_axioms;

    let mut r: std::collections::HashMap<i64, i64> = std::collections::HashMap::new();
    let scope: Scope = get(lib, device_uid);
    if scope.mode == Mode::All {
        return r;
    }
    let wanted: UidSet = marked(lib, device_uid);
    let ghost ps = lib@.playlists;
    for i in 0..lib.playlists.len()
        invariant
            ps == lib@.playlists,
            lib@.playlist_tracks.len() <= i64::MAX,
            wanted@ == marked_in(lib@, device_uid@),
            forall|id: i64| #[trigger]
                r@.contains_key(id) <==> stranded_in(lib@, device_uid@, id) > 0 && exists|j: int|
                    0 <= j < i && (#[trigger] ps[j]).id == id,
            forall|id: i64| #[trigger]
                r@.contains_key(id) ==> r@[id] == stranded_in(lib@, device_uid@, id),
    {
        let id: i64 = lib.playlists[i].id;
        let n: i64 = count_stranded(lib, &wanted, id, Ghost(device_uid@));
        let ghost before = r@;
        if n > 0 {
            r.insert(id, n);
        }
        proof {
            assert(ps[i as int].id == id);
            assert forall|x: i64| #[trigger]
                r@.contains_key(x) <==> stranded_in(lib@, device_uid@, x) > 0 && exists|j: int|
                    0 <= j < i + 1 && (#[trigger] ps[j]).id == x by {
                if before.contains_key(x) {
                    let j = choose|j: int| 0 <= j < i && (#[trigger] ps[j]).id == x;
                    assert(0 <= j < i + 1 && ps[j].id == x);
                }
            }
        }
    }
    proof {
        assert forall|id: i64| stranded_in(lib@, device_uid@, id) > 0 implies r@.contains_key(id) by {
            let p = is_stranded(lib@, device_uid@, id);
            crate::library::filter_is_part(lib@.playlist_tracks, p);
            let row = lib@.playlist_tracks.filter(p)[0];
            let k = choose|k: int|
                0 <= k < lib@.playlist_tracks.len() && lib@.playlist_tracks[k] == row;
            assert(p(lib@.playlist_tracks.filter(p)[0]));
            assert(crate::library::is_playlist(ps, lib@.playlist_tracks[k].playlist_id));
        }
    }
    r
}

// ---------------------------------------------------------------------------
// Letting files go
// ---------------------------------------------------------------------------

/// A file that this device could let go of.
#[derive(Debug)]
pub struct Evictable {
    pub id: i64,
    pub path: String,
    pub size: i64,
}

pub struct EvictableView {
    pub id: i64,
    pub path: Seq<char>,
    pub size: i64,
}

impl View for Evictable {
    type V = EvictableView;

    open spec fn view(&self) -> EvictableView {
        EvictableView {
            id: self.id,
            path: self.path@,
            size: self.size,
        }
    }
}

impl Clone for Evictable {
    fn clone(&self) -> (r: Self)
        ensures
            r@ == self@,
    {
        Evictable {
            id: self.id,
            path: self.path.clone(),
            size: self.size,
        }
    }
}

/// Some other device is known to have the file of that content.
pub open spec fn has_replica_elsewhere(l: LibraryView, hash: Seq<char>, me: Seq<char>) -> bool {
    exists|i: int|
        0 <= i < l.blob_replicas.len() && (#[trigger] l.blob_replicas[i]).hash == hash
            && l.blob_replicas[i].device_uid != me
}

fn replica_elsewhere(rows: &Vec<ReplicaRow>, hash: &str, me: &str, Ghost(l): Ghost<LibraryView>) -> (r:
    bool)
    requires
        views(rows@) == l.blob_replicas,
    ensures
        r == has_replica_elsewhere(l, hash@, me@),
{
    for i in 0..rows.len()
        invariant
            views(rows@) == l.blob_replicas,
            forall|j: int|
                0 <= j < i ==> !((#[trigger] l.blob_replicas[j]).hash == hash@
                    && l.blob_replicas[j].device_uid != me@),
    {
        proof {
            assert(l.blob_replicas[i as int] == rows@[i as int]@);
        }
        if same(rows[i].hash.as_str(), hash) && !same(rows[i].device_uid.as_str(), me) {
            return true;
        }
    }
    false
}

/// A file that can go: it is here, nothing in scope asks for it, another device is
/// known to have it, and it lies in the managed folder.
pub open spec fn can_go(l: LibraryView, me: Seq<char>, managed: Seq<i64>) -> spec_fn(
    TrackRowView,
) -> bool {
    |t: TrackRowView|
        t.local_state == "present"@ && t.uid is Some && t.content_hash is Some && !track_in_scope(
            l,
            me,
            t.id,
        ) && has_replica_elsewhere(l, t.content_hash->0, me) && managed.contains(t.id)
}

pub open spec fn evictable_of(t: TrackRowView) -> EvictableView {
    EvictableView {
        id: t.id,
        path: t.path,
        size: match t.size_bytes {
            Some(n) => n,
            None => 0,
        },
    }
}

/// The files that a device could let go of; none where it wants everything.
pub open spec fn files_that_can_go(
    l: LibraryView,
    me: Seq<char>,
    managed: Seq<i64>,
) -> Seq<EvictableView> {
    match scope_in(l, me).mode {
        Mode::All => Seq::empty(),
        Mode::Selected => l.tracks.filter(can_go(l, me, managed)).map_values(
            |t: TrackRowView| evictable_of(t),
        ),
    }
}

/// The files that the device `me` could let go of. `managed` names the tracks
/// whose file lies in the managed folder: what lies elsewhere is not ours to move.
pub fn evictable_for(lib: &Library, me: &str, managed: &[i64]) -> (r: Vec<Evictable>)
    requires
        lib@.wf(),
    ensures
        views(r@) == files_that_can_go(lib@, me@, managed@),
{
    let mut r: Vec<Evictable> = Vec::new();
    let scope: Scope = get(lib, me);
    if scope.mode == Mode::All {
        proof {
            assert(views(r@) =~= Seq::empty());
        }
        return r;
    }
    let wanted: UidSet = marked(lib, me);
    let ghost all = lib@.tracks;
    let ghost p = can_go(lib@, me@, managed@);
    let ghost f = |t: TrackRowView| evictable_of(t);
    proof {
        take_none_filter(all, p);
        assert(views(r@) =~= all.take(0).filter(p).map_values(f));
    }
    for i in 0..lib.tracks.len()
        invariant
            all == lib@.tracks,
            p == can_go(lib@, me@, managed@),
            f == (|t: TrackRowView| evictable_of(t)),
            wanted@ == marked_in(lib@, me@),
            views(r@) == all.take(i as int).filter(p).map_values(f),
    {
        let t: &TrackRow = &lib.tracks[i];
        let ghost kept = all.take(i as int).filter(p);
        proof {
            filter_step(all, p, i as int);
            assert(all[i as int] == t@);
        }
        if let Some(hash) = &t.content_hash {
            if same(t.local_state.as_str(), "present") && t.uid.is_some() && !in_scope(
                lib,
                &wanted,
                t.id,
                Ghost(me@),
            ) && replica_elsewhere(&lib.blob_replicas, hash.as_str(), me, Ghost(lib@)) && has_id(
                managed,
                t.id,
            ) {
                let x: Evictable = Evictable {
                    id: t.id,
                    path: t.path.clone(),
                    size: match t.size_bytes {
                        Some(n) => n,
                        None => 0,
                    },
                };
                proof {
                    views_push(r@, x);
                    assert(kept.push(t@).map_values(f) =~= kept.map_values(f).push(f(t@)));
                }
                r.push(x);
            }
        }
    }
    proof {
        take_all(all);
    }
    r
}

/// The files that this device could let go of.
pub fn evictable(lib: &mut Library, managed: &[i64]) -> (r: Vec<Evictable>)
    requires
        old(lib)@.wf(),
    ensures
        exists|fresh: Seq<char>| #[trigger]
            is_uid_text(fresh) && final(lib)@ == with_identity(old(lib)@, fresh) && views(r@)
                == files_that_can_go(
                final(lib)@,
                identity_or(old(lib)@, fresh),
                managed@,
            ),
        final(lib)@.wf(),
{
    let me: String = this_device_uid(lib);
    evictable_for(lib, me.as_str(), managed)
}

/// A file can go only if another device is known to have it and nothing in scope
/// asks for it: freeing space cannot lose the last copy of anything.
pub proof fn only_files_with_another_copy_can_go(
    l: LibraryView,
    me: Seq<char>,
    managed: Seq<i64>,
    i: int,
)
    requires
        0 <= i < files_that_can_go(l, me, managed).len(),
    ensures
        exists|k: int|
            0 <= k < l.tracks.len() && evictable_of(#[trigger] l.tracks[k]) == files_that_can_go(
                l,
                me,
                managed,
            )[i] && l.tracks[k].content_hash is Some && has_replica_elsewhere(
                l,
                l.tracks[k].content_hash->0,
                me,
            ) && !track_in_scope(l, me, l.tracks[k].id) && managed.contains(l.tracks[k].id),
{
    let p = can_go(l, me, managed);
    crate::library::filter_is_part(l.tracks, p);
    let row = l.tracks.filter(p)[i];
    assert(p(l.tracks.filter(p)[i]));
    let k = choose|k: int| 0 <= k < l.tracks.len() && l.tracks[k] == row;
    assert(evictable_of(l.tracks[k]) == files_that_can_go(l, me, managed)[i]);
}

/// The track is one of the items whose file is gone.
pub open spec fn went(items: Seq<EvictableView>, gone: Seq<bool>, id: i64) -> bool {
    exists|i: int| 0 <= i < items.len() && (#[trigger] items[i]).id == id && gone[i]
}

/// The tracks once files were let go of: their rows stay, as absent.
pub open spec fn evicted_tracks(
    tracks: Seq<TrackRowView>,
    items: Seq<EvictableView>,
    gone: Seq<bool>,
) -> Seq<TrackRowView> {
    tracks.map_values(
        |t: TrackRowView|
            if went(items, gone, t.id) {
                TrackRowView { local_state: "absent"@, ..t }
            } else {
                t
            },
    )
}

/// The sum of the sizes of the files that are gone.
pub open spec fn freed(items: Seq<EvictableView>, gone: Seq<bool>) -> int
    decreases items.len(),
{
    if items.len() == 0 || gone.len() == 0 {
        0
    } else {
        freed(items.drop_last(), gone.drop_last()) + if gone.last() {
            items.last().size as int
        } else {
            0
        }
    }
}

pub open spec fn freed_fits(items: Seq<EvictableView>, gone: Seq<bool>) -> bool {
    forall|i: int|
        0 <= i <= items.len() ==> i64::MIN <= #[trigger] freed(items.take(i), gone.take(i))
            <= i64::MAX
}

fn mark_absent(tracks: &mut Vec<TrackRow>, items: &[Evictable], gone: &[bool])
    requires
        items@.len() == gone@.len(),
    ensures
        views(final(tracks)@) == evicted_tracks(views(old(tracks)@), views(items@), gone@),
{
    let ghost all = views(tracks@);
    let ghost v = views(items@);
    let ghost goal = evicted_tracks(all, v, gone@);
    let n: usize = tracks.len();
    for i in 0..n
        invariant
            n == all.len(),
            tracks@.len() == n,
            v == views(items@),
            items@.len() == gone@.len(),
            goal == evicted_tracks(all, v, gone@),
            forall|j: int| 0 <= j < i ==> (#[trigger] tracks@[j])@ == goal[j],
            forall|j: int| i <= j < all.len() ==> (#[trigger] tracks@[j])@ == all[j],
    {
        if is_gone(items, gone, tracks[i].id) {
            tracks[i].local_state = "absent".to_owned();
        }
    }
    proof {
        assert(views(tracks@) =~= goal);
    }
}

fn is_gone(items: &[Evictable], gone: &[bool], id: i64) -> (r: bool)
    requires
        items@.len() == gone@.len(),
    ensures
        r == went(views(items@), gone@, id),
{
    for i in 0..items.len()
        invariant
            items@.len() == gone@.len(),
            forall|j: int| 0 <= j < i ==> !((#[trigger] views(items@)[j]).id == id && gone@[j]),
    {
        if items[i].id == id && gone[i] {
            proof {
                assert(views(items@)[i as int].id == id);
            }
            return true;
        }
    }
    false
}

/// Notes that files were let go of: `gone` says of each item whether its file is
/// out of the way. How many went, and how many bytes.
pub fn evict(lib: &mut Library, items: &[Evictable], gone: &[bool]) -> (r: (usize, i64))
    requires
        items@.len() == gone@.len(),
        freed_fits(views(items@), gone@),
    ensures
        final(lib)@ == (LibraryView {
            tracks: evicted_tracks(old(lib)@.tracks, views(items@), gone@),
            ..old(lib)@
        }),
        r.0 == count(gone@, |b: bool| b),
        r.1 == freed(views(items@), gone@),
        old(lib)@.wf() ==> final(lib)@.wf(),
{
    let ghost v = views(items@);
    let ghost p = |b: bool| b;
    let mut n: usize = 0;
    let mut bytes: i64 = 0;
    proof {
        take_none_filter(gone@, p);
        assert(v.take(0) =~= Seq::empty());
        if lib@.wf() {
            tracks_same_keys_wf(lib@, evicted_tracks(lib@.tracks, v, gone@));
        }
    }
    for i in 0..items.len()
        invariant
            v == views(items@),
            p == (|b: bool| b),
            items@.len() == gone@.len(),
            freed_fits(v, gone@),
            n == count(gone@.take(i as int), p),
            n <= i,
            bytes == freed(v.take(i as int), gone@.take(i as int)),
    {
        proof {
            filter_step(gone@, p, i as int);
            assert(v.take(i + 1).drop_last() =~= v.take(i as int));
            assert(gone@.take(i + 1).drop_last() =~= gone@.take(i as int));
            assert(v.take(i + 1).last() == items@[i as int]@);
            assert(i64::MIN <= freed(v.take(i + 1), gone@.take(i + 1)) <= i64::MAX);
        }
        if gone[i] {
            n = n + 1;
            bytes = bytes + items[i].size;
        }
    }
    proof {
        take_all(gone@);
        take_all(v);
    }
    mark_absent(&mut lib.tracks, items, gone);
    (n, bytes)
}

// ---------------------------------------------------------------------------
// Getting files back out of the trash
// ---------------------------------------------------------------------------

/// A row without its file, which may still be in the trash.
#[derive(Debug)]
pub struct Restorable {
    pub id: i64,
    pub hash: String,
    pub rel_path: String,
    pub size: i64,
}

pub struct RestorableView {
    pub id: i64,
    pub hash: Seq<char>,
    pub rel_path: Seq<char>,
    pub size: i64,
}

impl View for Restorable {
    type V = RestorableView;

    open spec fn view(&self) -> RestorableView {
        RestorableView {
            id: self.id,
            hash: self.hash@,
            rel_path: self.rel_path@,
            size: self.size,
        }
    }
}

impl Clone for Restorable {
    fn clone(&self) -> (r: Self)
        ensures
            r@ == self@,
    {
        Restorable {
            id: self.id,
            hash: self.hash.clone(),
            rel_path: self.rel_path.clone(),
            size: self.size,
        }
    }
}

/// A row whose file is not here, although it is known what it holds and is called.
pub open spec fn is_missing(t: TrackRowView) -> bool {
    t.local_state != "present"@ && t.uid is Some && t.content_hash is Some && t.rel_path is Some
        && t.rel_path->0.len() > 0
}

/// A row that a device would have back: it is missing, and in scope.
pub open spec fn wanted_back(l: LibraryView, me: Seq<char>) -> spec_fn(TrackRowView) -> bool {
    |t: TrackRowView|
        is_missing(t) && (scope_in(l, me).mode == Mode::All || track_in_scope(l, me, t.id))
}

pub open spec fn restorable_of(t: TrackRowView) -> RestorableView {
    RestorableView {
        id: t.id,
        hash: t.content_hash->0,
        rel_path: t.rel_path->0,
        size: match t.size_bytes {
            Some(n) => n,
            None => 0,
        },
    }
}

/// What the device `me` lacks and could find in the trash.
pub fn restorable_for(lib: &Library, me: &str) -> (r: Vec<Restorable>)
    requires
        lib@.wf(),
    ensures
        views(r@) == lib@.tracks.filter(wanted_back(lib@, me@)).map_values(
            |t: TrackRowView| restorable_of(t),
        ),
{
    let mut r: Vec<Restorable> = Vec::new();
    let scope: Scope = get(lib, me);
    let wanted: UidSet = marked(lib, me);
    let ghost all = lib@.tracks;
    let ghost p = wanted_back(lib@, me@);
    let ghost f = |t: TrackRowView| restorable_of(t);
    proof {
        take_none_filter(all, p);
        assert(views(r@) =~= all.take(0).filter(p).map_values(f));
    }
    for i in 0..lib.tracks.len()
        invariant
            all == lib@.tracks,
            p == wanted_back(lib@, me@),
            f == (|t: TrackRowView| restorable_of(t)),
            scope@ == scope_in(lib@, me@),
            wanted@ == marked_in(lib@, me@),
            views(r@) == all.take(i as int).filter(p).map_values(f),
    {
        let t: &TrackRow = &lib.tracks[i];
        let ghost kept = all.take(i as int).filter(p);
        proof {
            filter_step(all, p, i as int);
            assert(all[i as int] == t@);
        }
        match (&t.content_hash, &t.rel_path) {
            (Some(hash), Some(rel)) => {
                if !same(t.local_state.as_str(), "present") && t.uid.is_some() && !rel.as_str().is_empty()
                    && (scope.mode == Mode::All || in_scope(lib, &wanted, t.id, Ghost(me@))) {
                    let x: Restorable = Restorable {
                        id: t.id,
                        hash: hash.clone(),
                        rel_path: rel.clone(),
                        size: match t.size_bytes {
                            Some(n) => n,
                            None => 0,
                        },
                    };
                    proof {
                        views_push(r@, x);
                        assert(kept.push(t@).map_values(f) =~= kept.map_values(f).push(f(t@)));
                    }
                    r.push(x);
                }
            },
            _ => {},
        }
    }
    proof {
        take_all(all);
    }
    r
}

/// What this device lacks and could find in the trash.
pub fn restorable(lib: &mut Library) -> (r: Vec<Restorable>)
    requires
        old(lib)@.wf(),
    ensures
        exists|fresh: Seq<char>| #[trigger]
            is_uid_text(fresh) && final(lib)@ == with_identity(old(lib)@, fresh) && views(r@)
                == final(lib)@.tracks.filter(
                wanted_back(final(lib)@, identity_or(old(lib)@, fresh)),
            ).map_values(|t: TrackRowView| restorable_of(t)),
        final(lib)@.wf(),
{
    let me: String = this_device_uid(lib);
    restorable_for(lib, me.as_str())
}

/// A file in the trash of the library.
#[derive(Debug)]
pub struct TrashFile {
    pub name: String,
    pub size: u64,
}

pub struct TrashFileView {
    pub name: Seq<char>,
    pub size: u64,
}

impl View for TrashFile {
    type V = TrashFileView;

    open spec fn view(&self) -> TrashFileView {
        TrashFileView {
            name: self.name@,
            size: self.size,
        }
    }
}

impl Clone for TrashFile {
    fn clone(&self) -> (r: Self)
        ensures
            r@ == self@,
    {
        TrashFile {
            name: self.name.clone(),
            size: self.size,
        }
    }
}

/// The file has the size that the row says.
pub open spec fn fits_size(c: RestorableView, f: TrashFileView) -> bool {
    f.size == c.size as u64
}

/// Whether a file has the size of one of the missing ones: only then it is worth
/// hashing.
#[verifier::truncate]
pub fn worth_hashing(file: &TrashFile, candidates: &[Restorable]) -> (r: bool)
    ensures
        r == exists|i: int|
            0 <= i < candidates@.len() && fits_size(#[trigger] views(candidates@)[i], file@),
{
    for i in 0..candidates.len()
        invariant
            forall|j: int| 0 <= j < i ==> !fits_size(#[trigger] views(candidates@)[j], file@),
    {
        if file.size == candidates[i].size as u64 {
            proof {
                assert(fits_size(views(candidates@)[i as int], file@));
            }
            return true;
        }
    }
    false
}

/// The file holds what the row lost: its size fits and so does its content.
pub open spec fn is_the_file(
    c: RestorableView,
    files: Seq<TrashFileView>,
    hashes: Seq<Option<Seq<char>>>,
    k: int,
) -> bool {
    &&& 0 <= k < files.len()
    &&& fits_size(c, files[k])
    &&& hashes[k] == Some(c.hash)
}

/// The file to take back: among those that hold what was lost, the first under the
/// old name if there is one, and else the first.
pub open spec fn picks(
    c: RestorableView,
    files: Seq<TrashFileView>,
    hashes: Seq<Option<Seq<char>>>,
    k: int,
) -> bool {
    &&& is_the_file(c, files, hashes, k)
    &&& files[k].name == c.rel_path ==> forall|j: int|
        0 <= j < k ==> !(is_the_file(c, files, hashes, j) && #[trigger] files[j].name == c.rel_path)
    &&& files[k].name != c.rel_path ==> forall|j: int|
        0 <= j < files.len() && is_the_file(c, files, hashes, j) ==> #[trigger] files[j].name
            != c.rel_path && k <= j
}

pub open spec fn hash_views(hashes: Seq<Option<String>>) -> Seq<Option<Seq<char>>> {
    Seq::new(hashes.len(), |i: int| opt_view(hashes[i]))
}

#[verifier::truncate]
fn pick(c: &Restorable, files: &[TrashFile], hashes: &[Option<String>]) -> (r: Option<usize>)
    requires
        files@.len() == hashes@.len(),
    ensures
        match r {
            Some(k) => picks(c@, views(files@), hash_views(hashes@), k as int),
            None => forall|k: int|
                0 <= k < files@.len() ==> !#[trigger] is_the_file(
                    c@,
                    views(files@),
                    hash_views(hashes@),
                    k,
                ),
        },
{
    let mut other: Option<usize> = None;
    let ghost fs = views(files@);
    let ghost hs = hash_views(hashes@);
    for k in 0..files.len()
        invariant
            files@.len() == hashes@.len(),
            fs == views(files@),
            hs == hash_views(hashes@),
            forall|j: int|
                0 <= j < k && #[trigger] is_the_file(c@, fs, hs, j) ==> fs[j].name != c.rel_path@,
            other is None ==> forall|j: int| 0 <= j < k ==> !#[trigger] is_the_file(c@, fs, hs, j),
            other is Some ==> other->0 < k && is_the_file(c@, fs, hs, other->0 as int) && forall|j: int|
                0 <= j < other->0 ==> !#[trigger] is_the_file(c@, fs, hs, j),
    {
        let fits: bool = files[k].size == c.size as u64;
        let same_hash: bool = match &hashes[k] {
            Some(h) => same(h.as_str(), c.hash.as_str()),
            None => false,
        };
        proof {
            assert(fs[k as int] == files@[k as int]@);
            assert(hs[k as int] == opt_view(hashes@[k as int]));
            assert(is_the_file(c@, fs, hs, k as int) == (fits && same_hash));
        }
        if fits && same_hash {
            if same(files[k].name.as_str(), c.rel_path.as_str()) {
                return Some(k);
            }
            if other.is_none() {
                other = Some(k);
            }
        }
    }
    other
}

/// For each missing file that is in the trash, which of the missing ones it is and
/// which file of the trash to take. `hashes` gives the content of each file of the
/// trash, where it is known.
pub fn find_in_trash(
    files: &[TrashFile],
    hashes: &[Option<String>],
    candidates: &[Restorable],
) -> (r: Vec<(usize, usize)>)
    requires
        files@.len() == hashes@.len(),
    ensures
        forall|n: int|
            0 <= n < r@.len() ==> (#[trigger] r@[n]).0 < candidates@.len() && picks(
                views(candidates@)[r@[n].0 as int],
                views(files@),
                hash_views(hashes@),
                r@[n].1 as int,
            ),
        forall|i: int|
            0 <= i < candidates@.len() ==> ((exists|n: int|
                0 <= n < r@.len() && (#[trigger] r@[n]).0 == i) <==> exists|k: int| #[trigger]
                is_the_file(
                    #[trigger] views(candidates@)[i],
                    views(files@),
                    hash_views(hashes@),
                    k,
                )),
        forall|m: int, n: int| 0 <= m < n < r@.len() ==> (#[trigger] r@[m]).0 < (#[trigger] r@[n]).0,
{
    let mut r: Vec<(usize, usize)> = Vec::new();
    let ghost fs = views(files@);
    let ghost hs = hash_views(hashes@);
    let ghost cs = views(candidates@);
    for i in 0..candidates.len()
        invariant
            files@.len() == hashes@.len(),
            fs == views(files@),
            hs == hash_views(hashes@),
            cs == views(candidates@),
            forall|n: int|
                0 <= n < r@.len() ==> (#[trigger] r@[n]).0 < i && picks(
                    cs[r@[n].0 as int],
                    fs,
                    hs,
                    r@[n].1 as int,
                ),
            forall|x: int|
                0 <= x < i ==> ((exists|n: int| 0 <= n < r@.len() && (#[trigger] r@[n]).0 == x)
                    <==> exists|k: int| #[trigger] is_the_file(#[trigger] cs[x], fs, hs, k)),
            forall|m: int, n: int|
                0 <= m < n < r@.len() ==> (#[trigger] r@[m]).0 < (#[trigger] r@[n]).0,
    {
        let found: Option<usize> = pick(&candidates[i], files, hashes);
        let ghost before = r@;
        proof {
            assert(cs[i as int] == candidates@[i as int]@);
        }
        match found {
            Some(k) => {
                r.push((i, k));
                proof {
                    assert(is_the_file(cs[i as int], fs, hs, k as int));
                    assert(r@[before.len() as int].0 == i);
                    assert forall|x: int| 0 <= x < i + 1 implies ((exists|n: int|
                        0 <= n < r@.len() && (#[trigger] r@[n]).0 == x) <==> exists|k: int| #[trigger]
                        is_the_file(#[trigger] cs[x], fs, hs, k)) by {
                        if x < i {
                            if exists|n: int| 0 <= n < before.len() && (#[trigger] before[n]).0 == x {
                                let n = choose|n: int|
                                    0 <= n < before.len() && (#[trigger] before[n]).0 == x;
                                assert(r@[n].0 == x);
                            }
                            if exists|n: int| 0 <= n < r@.len() && (#[trigger] r@[n]).0 == x {
                                let n = choose|n: int|
                                    0 <= n < r@.len() && (#[trigger] r@[n]).0 == x;
                                assert(before[n].0 == x);
                            }
                        }
                    }
                }
            },
            None => {
                proof {
                    assert forall|k: int| !#[trigger] is_the_file(cs[i as int], fs, hs, k) by {}
                }
            },
        }
    }
    r
}

/// Some other track has its file there.
pub open spec fn path_taken_by_other(tracks: Seq<TrackRowView>, id: i64, path: Seq<char>) -> bool {
    exists|i: int| 0 <= i < tracks.len() && (#[trigger] tracks[i]).path == path && tracks[i].id != id
}

/// The tracks once the file of one of them is back, under a path and a name.
pub open spec fn file_back(
    tracks: Seq<TrackRowView>,
    id: i64,
    path: Seq<char>,
    rel_path: Seq<char>,
    mtime_ms: i64,
) -> Seq<TrackRowView> {
    tracks.map_values(
        |t: TrackRowView|
            if t.id == id {
                TrackRowView {
                    path,
                    rel_path: Some(rel_path),
                    mtime_ms: Some(mtime_ms),
                    local_state: "present"@,
                    ..t
                }
            } else {
                t
            },
    )
}

fn path_taken(tracks: &Vec<TrackRow>, id: i64, path: &str) -> (r: bool)
    ensures
        r == path_taken_by_other(views(tracks@), id, path@),
{
    for i in 0..tracks.len()
        invariant
            forall|j: int|
                0 <= j < i ==> !((#[trigger] views(tracks@)[j]).path == path@ && views(
                    tracks@,
                )[j].id != id),
    {
        if same(tracks[i].path.as_str(), path) && tracks[i].id != id {
            proof {
                assert(views(tracks@)[i as int].path == path@);
            }
            return true;
        }
    }
    false
}

fn put_back(tracks: &mut Vec<TrackRow>, id: i64, path: &str, rel_path: &str, mtime_ms: i64)
    ensures
        views(final(tracks)@) == file_back(views(old(tracks)@), id, path@, rel_path@, mtime_ms),
{
    let ghost all = views(tracks@);
    let ghost goal = file_back(all, id, path@, rel_path@, mtime_ms);
    let n: usize = tracks.len();
    for i in 0..n
        invariant
            n == all.len(),
            tracks@.len() == n,
            goal == file_back(all, id, path@, rel_path@, mtime_ms),
            forall|j: int| 0 <= j < i ==> (#[trigger] tracks@[j])@ == goal[j],
            forall|j: int| i <= j < all.len() ==> (#[trigger] tracks@[j])@ == all[j],
    {
        if tracks[i].id == id {
            tracks[i].path = path.to_owned();
            tracks[i].rel_path = Some(rel_path.to_owned());
            tracks[i].mtime_ms = Some(mtime_ms);
            tracks[i].local_state = "present".to_owned();
        }
    }
    proof {
        assert(views(tracks@) =~= goal);
    }
}

proof fn file_back_wf(l: LibraryView, id: i64, path: Seq<char>, rel_path: Seq<char>, mtime_ms: i64)
    requires
        l.wf(),
        !path_taken_by_other(l.tracks, id, path),
    ensures
        (LibraryView { tracks: file_back(l.tracks, id, path, rel_path, mtime_ms), ..l }).wf(),
{
    let ts = file_back(l.tracks, id, path, rel_path, mtime_ms);
    distinct_same_keys(l.tracks, ts, track_id());
    distinct_some_same_keys(l.tracks, ts, track_uid_key());
    assert forall|i: int, j: int| 0 <= i < j < ts.len() implies track_path_key()(#[trigger] ts[i])
        != track_path_key()(#[trigger] ts[j]) by {
        assert(track_id()(l.tracks[i]) != track_id()(l.tracks[j]));
        assert(track_path_key()(l.tracks[i]) != track_path_key()(l.tracks[j]));
        assert(l.tracks[i].path == l.tracks[i].path);
    }
    members_keep_tracks(l, ts);
}

/// Notes that the file of a track is back. Refused where another track has its
/// file there.
pub fn finish_restore(
    lib: &mut Library,
    id: i64,
    path: &str,
    rel_path: &str,
    mtime_ms: i64,
) -> (r: Result<(), DbError>)
    ensures
        r is Err <==> path_taken_by_other(old(lib)@.tracks, id, path@) && crate::library::is_track(
            old(lib)@.tracks,
            id,
        ),
        r is Err ==> r->Err_0 == DbError::Constraint && final(lib)@ == old(lib)@,
        r is Ok ==> final(lib)@ == (LibraryView {
            tracks: file_back(old(lib)@.tracks, id, path@, rel_path@, mtime_ms),
            ..old(lib)@
        }),
        old(lib)@.wf() ==> final(lib)@.wf(),
{
    let ghost l0 = lib@;
    if find_track(&lib.tracks, id).is_none() {
        proof {
            assert(file_back(l0.tracks, id, path@, rel_path@, mtime_ms) =~= l0.tracks) by {
                assert forall|i: int| 0 <= i < l0.tracks.len() implies (
                #[trigger] l0.tracks[i]).id != id by {}
            }
        }
        return Ok(());
    }
    if path_taken(&lib.tracks, id, path) {
        return Err(DbError::Constraint);
    }
    proof {
        if l0.wf() {
            file_back_wf(l0, id, path@, rel_path@, mtime_ms);
        }
    }
    put_back(&mut lib.tracks, id, path, rel_path, mtime_ms);
    Ok(())
}

} // verus!
