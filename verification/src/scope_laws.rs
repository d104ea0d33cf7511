//! What a device has of the library, and what it gives up and gets back.

use crate::db::identity;
use crate::library::{
    device_sync_key, replica_key, LibraryView, PlaylistTrackRowView, ReplicaRowView, TrackRowView,
};
use crate::merge::{chosen_policy, policy_device, DeletePolicy};
use crate::scope::{linked, may_move, Direction, Mode};
use crate::scope_db::{
    can_go, direction_set, evictable_of, evicted_tracks, file_back, files_that_can_go, freed,
    has_replica_elsewhere, is_missing, is_stranded, is_the_file, marked_in, mode_set,
    new_one_selected, picks, replica_noted, replicas_noted, restorable_of, scope_in,
    sync_put_is_read, sync_row_or_new, track_in_scope, wanted_back, EvictableView, RestorableView,
    TrashFileView, marks_are_read_back,
};
use crate::state::{
    all_marked, at_least_zero, evictable_bytes, has_part, hash_stored, is_expected_in, is_news,
    is_part, lacks_rel_path, node_shown, path_moved, present_bytes, relative_path, shown_in,
    with_rel_path, ExpectedView, ScopeChangeView,
};
use crate::sync_laws::{entry_has_its_row, row_has_its_entry};
use crate::table::{first_where, first_where_at, first_where_is_first, keyed, row_with};
use crate::tracks::TrackView;
use crate::tree::{playlist_uid_of, PlaylistNodeView};
use crate::xml_sync::backup_name;
use vstd::prelude::*;

verus! {

// ---------------------------------------------------------------------------
// Settings
// ---------------------------------------------------------------------------

/// A device sends unless it is set to receive only, or to do neither; it receives unless
/// it is set to send only, or to do neither.
pub proof fn directions_mean_what_they_say(s: Seq<char>)
    ensures
        Direction::of_setting(s).sends <==> s != "off"@ && s != "receive"@,
        Direction::of_setting(s).receives <==> s != "off"@ && s != "send"@,
        Mode::of_setting(s) == Mode::Selected <==> s == "selected"@,
        DeletePolicy::of_setting(s) == DeletePolicy::Ignore <==> s == "ignore"@,
        DeletePolicy::of_setting(s) == DeletePolicy::Ask <==> s == "ask"@,
        DeletePolicy::of_setting(s) == DeletePolicy::Propagate <==> s != "ignore"@ && s != "ask"@,
{
    reveal_strlit("off");
    reveal_strlit("receive");
    reveal_strlit("send");
    reveal_strlit("selected");
    reveal_strlit("ignore");
    reveal_strlit("ask");
    assert("off"@.len() == 3 && "receive"@.len() == 7 && "send"@.len() == 4);
    assert("ignore"@.len() == 6 && "ask"@.len() == 3);
}

/// What is done with the deletions of a device is what was chosen for that device, and
/// they are carried out where nothing was.
pub proof fn each_device_has_its_own_policy(l: LibraryView, device_uid: Seq<char>)
    ensures
        forall|i: int|
            0 <= i < l.sync_policy.len() && (#[trigger] l.sync_policy[i]).device_uid == device_uid
                && (forall|j: int|
                0 <= j < i ==> (#[trigger] l.sync_policy[j]).device_uid != device_uid)
                ==> chosen_policy(l, device_uid) == DeletePolicy::of_setting(
                l.sync_policy[i].deletes,
            ),
        (forall|i: int|
            0 <= i < l.sync_policy.len() ==> (#[trigger] l.sync_policy[i]).device_uid != device_uid)
            ==> chosen_policy(l, device_uid) == DeletePolicy::Propagate,
{
    let k = keyed(policy_device(), device_uid);
    first_where_is_first(l.sync_policy, k);
    assert forall|i: int|
        0 <= i < l.sync_policy.len() && (#[trigger] l.sync_policy[i]).device_uid == device_uid && (
        forall|j: int| 0 <= j < i ==> (#[trigger] l.sync_policy[j]).device_uid != device_uid)
        implies chosen_policy(l, device_uid) == DeletePolicy::of_setting(l.sync_policy[i].deletes) by {
        assert forall|j: int| 0 <= j < i implies !k(#[trigger] l.sync_policy[j]) by {}
        first_where_at(l.sync_policy, k, i);
    }
    if forall|i: int|
        0 <= i < l.sync_policy.len() ==> (#[trigger] l.sync_policy[i]).device_uid != device_uid {
        if first_where(l.sync_policy, k) is Some {
            assert(l.sync_policy[first_where(l.sync_policy, k)->0].device_uid != device_uid);
        }
    }
}

/// Something moves from one device to another exactly where the one sends and the other
/// receives.
pub proof fn a_link_needs_both_sides(local: Direction, remote: Direction)
    ensures
        linked(local, remote).0 <==> remote.sends && local.receives,
        linked(local, remote).1 <==> local.sends && remote.receives,
{
}

/// A file moves only over an open link, and only if its track is wanted, where only some
/// are.
pub proof fn only_wanted_files_move(
    wanted: Option<Set<Seq<char>>>,
    f: crate::manifest::FileTransferView,
)
    ensures
        !may_move(false, wanted)(f),
        may_move(true, None)(f),
        forall|uids: Set<Seq<char>>|
            #![trigger may_move(true, Some(uids))]
            may_move(true, Some(uids))(f) <==> uids.contains(f.track_uid),
{
}

/// Choosing how much of the library a device has changes that, and neither what it sends
/// and receives, nor its marks, nor anything of another device.
pub proof fn choosing_a_mode_changes_one_thing(
    l: LibraryView,
    device_uid: Seq<char>,
    mode: Mode,
    now: i64,
    other: Seq<char>,
)
    requires
        other != device_uid,
    ensures
        ({
            let m = mode_set(l, device_uid, mode, now);
            &&& scope_in(m, device_uid).mode == mode
            &&& scope_in(m, device_uid).direction == scope_in(l, device_uid).direction
            &&& scope_in(m, device_uid).selected == scope_in(l, device_uid).selected
            &&& scope_in(m, other) == scope_in(l, other)
            &&& row_with(m.device_sync, device_sync_key(), device_uid) is Some
            &&& (row_with(m.device_sync, device_sync_key(), device_uid)->0).updated_at == now
        }),
{
    let row = sync_row_or_new(l, device_uid);
    crate::merge_laws::found_by_key(l.device_sync, device_sync_key(), device_uid);
    let put = crate::manifest::DeviceSyncView { mode: mode.setting(), updated_at: now, ..row };
    sync_put_is_read(l.device_sync, put);
    crate::scope::stored_modes_are_read_back(mode);
    both_is_both();
}

proof fn both_is_both()
    ensures
        Direction::of_setting("both"@) == (Direction { sends: true, receives: true }),
        Mode::of_setting("all"@) == Mode::All,
{
    reveal_strlit("both");
    reveal_strlit("off");
    reveal_strlit("send");
    reveal_strlit("receive");
    reveal_strlit("all");
    reveal_strlit("selected");
    assert("both"@[0] != "send"@[0]);
    assert("both"@.len() == 4 && "off"@.len() == 3 && "receive"@.len() == 7);
    assert("all"@.len() == 3 && "selected"@.len() == 8);
}

/// Choosing what a device sends and receives changes that, and neither how much of the
/// library it has, nor its marks, nor anything of another device.
pub proof fn choosing_a_direction_changes_one_thing(
    l: LibraryView,
    device_uid: Seq<char>,
    direction: Seq<char>,
    now: i64,
    other: Seq<char>,
)
    requires
        other != device_uid,
    ensures
        ({
            let m = direction_set(l, device_uid, direction, now);
            &&& scope_in(m, device_uid).direction == Direction::of_setting(direction)
            &&& scope_in(m, device_uid).mode == scope_in(l, device_uid).mode
            &&& scope_in(m, device_uid).selected == scope_in(l, device_uid).selected
            &&& scope_in(m, other) == scope_in(l, other)
            &&& row_with(m.device_sync, device_sync_key(), device_uid) is Some
            &&& (row_with(m.device_sync, device_sync_key(), device_uid)->0).updated_at == now
        }),
{
    let row = sync_row_or_new(l, device_uid);
    crate::merge_laws::found_by_key(l.device_sync, device_sync_key(), device_uid);
    let put = crate::manifest::DeviceSyncView { direction, updated_at: now, ..row };
    sync_put_is_read(l.device_sync, put);
    both_is_both();
}

/// A playlist that is made on a device that has only some of them is among those it has;
/// nothing changes on one that has all.
pub proof fn a_playlist_made_here_is_had_here(
    l: LibraryView,
    playlist: i64,
    now: i64,
    fresh: Seq<char>,
    uid: Seq<char>,
)
    requires
        l.wf(),
        identity(l) is Some,
        playlist_uid_of(l, playlist) == Some(uid),
    ensures
        ({
            let me = identity(l)->0;
            let m = new_one_selected(l, playlist, now, fresh);
            &&& scope_in(l, me).mode == Mode::Selected ==> scope_in(m, me).selected.contains(uid)
            &&& scope_in(l, me).mode == Mode::All ==> m == l
            &&& forall|u: Seq<char>|
                u != uid ==> (#[trigger] scope_in(m, me).selected.contains(u) <==> scope_in(
                    l,
                    me,
                ).selected.contains(u))
        }),
{
    let me = identity(l)->0;
    let m = new_one_selected(l, playlist, now, fresh);
    if scope_in(l, me).mode == Mode::Selected {
        marks_are_read_back(l, me, uid, true, now, me, uid);
        assert forall|u: Seq<char>| u != uid implies (#[trigger] scope_in(m, me).selected.contains(
            u,
        ) <==> scope_in(l, me).selected.contains(u)) by {
            marks_are_read_back(l, me, uid, true, now, me, u);
        }
    }
}

/// Of some marks, the last one of each playlist counts.
pub proof fn the_last_mark_counts(
    l: LibraryView,
    device_uid: Seq<char>,
    changes: Seq<ScopeChangeView>,
    now: i64,
    i: int,
)
    requires
        l.wf(),
        0 <= i < changes.len(),
        forall|j: int| i < j < changes.len() ==> (#[trigger] changes[j]).uid != changes[i].uid,
    ensures
        scope_in(all_marked(l, device_uid, changes, now), device_uid).selected.contains(
            changes[i].uid,
        ) == changes[i].on,
    decreases changes.len(),
{
    let t = changes.drop_last();
    let m = all_marked(l, device_uid, t, now);
    marks_keep_wf(l, device_uid, t, now);
    let x = changes.last();
    marks_are_read_back(m, device_uid, x.uid, x.on, now, device_uid, changes[i].uid);
    if i < t.len() {
        assert(t[i] == changes[i]);
        assert forall|j: int| i < j < t.len() implies (#[trigger] t[j]).uid != t[i].uid by {
            assert(t[j] == changes[j]);
        }
        the_last_mark_counts(l, device_uid, t, now, i);
        assert(changes[changes.len() - 1].uid != changes[i].uid);
    }
}

proof fn marks_keep_wf(
    l: LibraryView,
    device_uid: Seq<char>,
    changes: Seq<ScopeChangeView>,
    now: i64,
)
    requires
        l.wf(),
    ensures
        all_marked(l, device_uid, changes, now).wf(),
    decreases changes.len(),
{
    if changes.len() > 0 {
        let t = changes.drop_last();
        marks_keep_wf(l, device_uid, t, now);
        let m = all_marked(l, device_uid, t, now);
        crate::scope_db::entry_put_distinct(
            m.sync_scope,
            crate::manifest::ScopeEntryView {
                device_uid,
                playlist_uid: changes.last().uid,
                selected: changes.last().on,
                updated_at: now,
            },
        );
    }
}

// ---------------------------------------------------------------------------
// Copies elsewhere
// ---------------------------------------------------------------------------

proof fn a_replica_is_noted(
    rows: Seq<ReplicaRowView>,
    device_uid: Seq<char>,
    hash: Seq<char>,
    now: i64,
)
    ensures
        ({
            let n = replica_noted(rows, device_uid, hash, now);
            &&& exists|i: int|
                0 <= i < n.len() && (#[trigger] n[i]).hash == hash && n[i].device_uid == device_uid
            &&& n.len() >= rows.len()
            &&& forall|i: int|
                0 <= i < rows.len() ==> (#[trigger] n[i]).hash == rows[i].hash && n[i].device_uid
                    == rows[i].device_uid
        }),
{
    let k = keyed(replica_key(), (hash, device_uid));
    first_where_is_first(rows, k);
    let n = replica_noted(rows, device_uid, hash, now);
    match first_where(rows, k) {
        Some(i) => {
            assert(n[i].hash == hash);
        },
        None => {
            assert(n[rows.len() as int].hash == hash);
        },
    }
}

/// Once a device has said what it holds, each of these contents is known to be there,
/// and no copy that was known of is forgotten.
pub proof fn copies_that_were_seen_are_known(
    rows: Seq<ReplicaRowView>,
    device_uid: Seq<char>,
    hashes: Seq<Seq<char>>,
    now: i64,
    i: int,
)
    requires
        0 <= i < hashes.len(),
    ensures
        ({
            let n = replicas_noted(rows, device_uid, hashes, now);
            &&& exists|k: int|
                0 <= k < n.len() && (#[trigger] n[k]).hash == hashes[i] && n[k].device_uid
                    == device_uid
            &&& n.len() >= rows.len()
            &&& forall|k: int|
                0 <= k < rows.len() ==> (#[trigger] n[k]).hash == rows[k].hash && n[k].device_uid
                    == rows[k].device_uid
        }),
    decreases hashes.len(),
{
    let t = hashes.drop_last();
    let m = replicas_noted(rows, device_uid, t, now);
    a_replica_is_noted(m, device_uid, hashes.last(), now);
    let n = replicas_noted(rows, device_uid, hashes, now);
    if t.len() > 0 {
        let j = if i < t.len() {
            i
        } else {
            0
        };
        copies_that_were_seen_are_known(rows, device_uid, t, now, j);
        if i < t.len() {
            assert(t[i] == hashes[i]);
            let k = choose|k: int|
                0 <= k < m.len() && (#[trigger] m[k]).hash == hashes[i] && m[k].device_uid
                    == device_uid;
            assert(n[k].hash == hashes[i]);
        }
    }
    assert forall|k: int| 0 <= k < rows.len() implies (#[trigger] n[k]).hash == rows[k].hash
        && n[k].device_uid == rows[k].device_uid by {
        assert(m[k].hash == rows[k].hash);
    }
}

/// A copy on another device counts as one elsewhere, and one on this device does not.
pub proof fn a_copy_elsewhere_is_on_another_device(l: LibraryView, hash: Seq<char>, me: Seq<char>)
    ensures
        (exists|i: int|
            0 <= i < l.blob_replicas.len() && (#[trigger] l.blob_replicas[i]).hash == hash
                && l.blob_replicas[i].device_uid != me) <==> has_replica_elsewhere(l, hash, me),
{
}

// ---------------------------------------------------------------------------
// Giving up files, and getting them back
// ---------------------------------------------------------------------------

/// A file can go exactly where it is present, its track is known to other devices, is not
/// wanted here, and is managed here, and another device has the content; none can where
/// the device has everything.
pub proof fn a_file_can_go_where_it_is_kept_elsewhere(
    l: LibraryView,
    me: Seq<char>,
    managed: Seq<i64>,
    i: int,
)
    requires
        0 <= i < l.tracks.len(),
        l.tracks[i].local_state == "present"@,
        l.tracks[i].uid is Some,
        l.tracks[i].content_hash is Some,
        has_replica_elsewhere(l, l.tracks[i].content_hash->0, me),
        !track_in_scope(l, me, l.tracks[i].id),
        managed.contains(l.tracks[i].id),
        scope_in(l, me).mode == Mode::Selected,
    ensures
        exists|k: int|
            0 <= k < files_that_can_go(l, me, managed).len() && (#[trigger] files_that_can_go(
                l,
                me,
                managed,
            )[k]).id == l.tracks[i].id && files_that_can_go(l, me, managed)[k].path
                == l.tracks[i].path && (l.tracks[i].size_bytes is Some ==> Some(
                files_that_can_go(l, me, managed)[k].size,
            ) == l.tracks[i].size_bytes),
{
    let k = row_has_its_entry(
        l.tracks,
        can_go(l, me, managed),
        |t: TrackRowView| evictable_of(t),
        i,
    );
    assert(files_that_can_go(l, me, managed)[k] == evictable_of(l.tracks[i]));
}

/// Only a file that is present can go, and under no other path than its own; none goes
/// from a device that has everything.
pub proof fn only_present_files_can_go(l: LibraryView, me: Seq<char>, managed: Seq<i64>, k: int) -> (i:
    int)
    requires
        0 <= k < files_that_can_go(l, me, managed).len(),
    ensures
        0 <= i < l.tracks.len(),
        l.tracks[i].local_state == "present"@,
        l.tracks[i].uid is Some,
        l.tracks[i].id == files_that_can_go(l, me, managed)[k].id,
        l.tracks[i].path == files_that_can_go(l, me, managed)[k].path,
        !track_in_scope(l, me, l.tracks[i].id),
        scope_in(l, me).mode == Mode::Selected,
{
    entry_has_its_row(
        l.tracks,
        can_go(l, me, managed),
        |t: TrackRowView| evictable_of(t),
        k,
    )
}

/// A track whose file went is marked as absent, and is the same in all else; the others
/// stay as they are.
pub proof fn giving_up_a_file_keeps_its_track(
    tracks: Seq<TrackRowView>,
    items: Seq<EvictableView>,
    gone: Seq<bool>,
    i: int,
)
    requires
        0 <= i < tracks.len(),
        items.len() == gone.len(),
    ensures
        ({
            let was = tracks[i];
            let is = evicted_tracks(tracks, items, gone)[i];
            let went_away = exists|k: int|
                0 <= k < items.len() && (#[trigger] items[k]).id == was.id && gone[k];
            &&& evicted_tracks(tracks, items, gone).len() == tracks.len()
            &&& went_away ==> is.local_state == "absent"@
            &&& !went_away ==> is == was
            &&& is.id == was.id && is.path == was.path && is.title == was.title && is.artist
                == was.artist && is.album == was.album && is.genre == was.genre
            &&& is.duration_ms == was.duration_ms && is.bpm == was.bpm && is.uid == was.uid
                && is.content_hash == was.content_hash && is.rel_path == was.rel_path
            &&& is.size_bytes == was.size_bytes && is.mtime_ms == was.mtime_ms && is.updated_at
                == was.updated_at
        }),
{
}

/// What was freed is the sum of the sizes of the files that went.
pub proof fn freed_space_adds_up(
    items: Seq<EvictableView>,
    gone: Seq<bool>,
    x: EvictableView,
)
    requires
        items.len() == gone.len(),
    ensures
        freed(items.push(x), gone.push(true)) == freed(items, gone) + x.size,
        freed(items.push(x), gone.push(false)) == freed(items, gone),
        freed(Seq::empty(), Seq::empty()) == 0,
        (forall|k: int| 0 <= k < gone.len() ==> #[trigger] gone[k]) ==> freed(items, gone)
            == evictable_bytes(items),
    decreases items.len(),
{
    assert(items.push(x).drop_last() =~= items);
    assert(gone.push(true).drop_last() =~= gone);
    assert(gone.push(false).drop_last() =~= gone);
    if items.len() > 0 {
        let t = items.drop_last();
        let h = gone.drop_last();
        freed_space_adds_up(t, h, x);
        if forall|k: int| 0 <= k < gone.len() ==> #[trigger] gone[k] {
            assert forall|k: int| 0 <= k < h.len() implies #[trigger] h[k] by {
                assert(gone[k]);
            }
            assert(gone[gone.len() - 1]);
        }
    }
}

/// What went can be had back: a track whose file was given up is one whose file is
/// missing, and is wanted back where the device has everything or has it marked.
pub proof fn what_went_is_wanted_back(
    l: LibraryView,
    me: Seq<char>,
    t: TrackRowView,
)
    requires
        t.uid is Some,
        t.content_hash is Some,
        t.rel_path is Some,
        t.rel_path->0.len() > 0,
        t.local_state == "absent"@,
    ensures
        is_missing(t),
        scope_in(l, me).mode == Mode::All ==> wanted_back(l, me)(t),
        scope_in(l, me).mode == Mode::Selected ==> (wanted_back(l, me)(t) <==> track_in_scope(
            l,
            me,
            t.id,
        )),
        restorable_of(t).id == t.id,
        Some(restorable_of(t).hash) == t.content_hash,
        Some(restorable_of(t).rel_path) == t.rel_path,
        t.size_bytes is Some ==> Some(restorable_of(t).size) == t.size_bytes,
{
    reveal_strlit("absent");
    reveal_strlit("present");
    assert("absent"@.len() != "present"@.len());
}

/// A file that is present is not missing, nor is one of which nothing is known that it
/// could be found by.
pub proof fn what_is_present_is_not_missing(l: LibraryView, me: Seq<char>, t: TrackRowView)
    ensures
        t.local_state == "present"@ ==> !wanted_back(l, me)(t),
        t.content_hash is None ==> !wanted_back(l, me)(t),
        t.uid is None ==> !wanted_back(l, me)(t),
{
}

/// A file that came back leaves its track as it was before the file went, with the place
/// where it is now; the other tracks stay.
pub proof fn getting_a_file_back_undoes_giving_it_up(
    tracks: Seq<TrackRowView>,
    items: Seq<EvictableView>,
    gone: Seq<bool>,
    i: int,
    path: Seq<char>,
    rel_path: Seq<char>,
    mtime_ms: i64,
)
    requires
        0 <= i < tracks.len(),
        items.len() == gone.len(),
        tracks[i].local_state == "present"@,
        tracks[i].path == path,
        tracks[i].rel_path == Some(rel_path),
        tracks[i].mtime_ms == Some(mtime_ms),
    ensures
        file_back(
            evicted_tracks(tracks, items, gone),
            tracks[i].id,
            path,
            rel_path,
            mtime_ms,
        )[i] == tracks[i],
        forall|k: int|
            0 <= k < tracks.len() && (#[trigger] tracks[k]).id != tracks[i].id ==> file_back(
                tracks,
                tracks[i].id,
                path,
                rel_path,
                mtime_ms,
            )[k] == tracks[k],
{
}

/// A file that came back is present, where it was put.
pub proof fn a_file_that_came_back_is_there(
    tracks: Seq<TrackRowView>,
    i: int,
    path: Seq<char>,
    rel_path: Seq<char>,
    mtime_ms: i64,
)
    requires
        0 <= i < tracks.len(),
    ensures
        ({
            let was = tracks[i];
            let is = file_back(tracks, was.id, path, rel_path, mtime_ms)[i];
            &&& is.path == path
            &&& is.rel_path == Some(rel_path)
            &&& is.mtime_ms == Some(mtime_ms)
            &&& is.local_state == "present"@
            &&& is.id == was.id && is.uid == was.uid && is.content_hash == was.content_hash
                && is.size_bytes == was.size_bytes && is.updated_at == was.updated_at
            &&& is.title == was.title && is.artist == was.artist && is.album == was.album
                && is.genre == was.genre && is.duration_ms == was.duration_ms && is.bpm == was.bpm
        }),
{
}

/// The file that is picked for a missing one has its size and its content; one that has
/// its name too goes before any other, and of equals the first.
pub proof fn the_best_file_is_picked(
    c: RestorableView,
    files: Seq<TrashFileView>,
    hashes: Seq<Option<Seq<char>>>,
    k: int,
    j: int,
)
    requires
        files.len() == hashes.len(),
        picks(c, files, hashes, k),
        0 <= j < files.len(),
        hashes[j] == Some(c.hash),
        files[j].size == c.size,
    ensures
        hashes[k] == Some(c.hash),
        c.size >= 0 ==> files[k].size == c.size,
        files[j].name == c.rel_path ==> files[k].name == c.rel_path && k <= j,
        files[k].name != c.rel_path ==> k <= j,
{
    assert(is_the_file(c, files, hashes, j));
    if files[j].name == c.rel_path && files[k].name == c.rel_path && j < k {
        assert(!(is_the_file(c, files, hashes, j) && files[j].name == c.rel_path));
    }
}

// ---------------------------------------------------------------------------
// What is shown of it
// ---------------------------------------------------------------------------

/// A track is shown as wanted where its uid is among those wanted, or it has none; and
/// as it is in all else.
pub proof fn a_track_shows_whether_it_is_wanted(wanted: Set<Seq<char>>, t: TrackView)
    ensures
        ({
            let s = shown_in(wanted)(t);
            &&& forall|u: Seq<char>| t.uid == Some(u) ==> (s.in_scope <==> wanted.contains(u))
            &&& t.uid is None ==> s.in_scope
            &&& s.id == t.id && s.path == t.path && s.title == t.title && s.artist == t.artist
            &&& s.album == t.album && s.genre == t.genre && s.duration_ms == t.duration_ms
            &&& s.bpm == t.bpm && s.present == t.present && s.uid == t.uid
        }),
{
}

/// A node is shown as wanted where it is marked or lies in a marked folder, and as it is
/// in all else.
pub proof fn a_node_shows_whether_it_is_wanted(l: LibraryView, me: Seq<char>, n: PlaylistNodeView)
    ensures
        ({
            let s = node_shown(l, me)(n);
            &&& forall|u: Seq<char>|
                n.uid == Some(u) ==> (s.in_scope <==> marked_in(l, me).contains(u))
            &&& n.uid is None ==> s.in_scope
            &&& s.id == n.id && s.uid == n.uid && s.name == n.name && s.kind == n.kind
            &&& s.parent_id == n.parent_id && s.position == n.position
            &&& s.track_count == n.track_count && s.present_count == n.present_count
        }),
{
}

/// The space that is taken is the sum of the sizes of the files that are present.
pub proof fn the_space_taken_adds_up(rows: Seq<TrackRowView>, t: TrackRowView)
    ensures
        present_bytes(Seq::empty()) == 0,
        t.local_state == "present"@ && t.size_bytes is Some ==> present_bytes(rows.push(t))
            == present_bytes(rows) + t.size_bytes->0,
        t.local_state != "present"@ || t.size_bytes is None ==> present_bytes(rows.push(t))
            == present_bytes(rows),
{
    assert(rows.push(t).drop_last() =~= rows);
}

/// The space that can be freed is the sum of the sizes of the files that can go.
pub proof fn the_space_to_free_adds_up(items: Seq<EvictableView>, x: EvictableView)
    ensures
        evictable_bytes(Seq::empty()) == 0,
        evictable_bytes(items.push(x)) == evictable_bytes(items) + x.size,
{
    assert(items.push(x).drop_last() =~= items);
}

/// A file that was moved is known under its new path, and is the same track in all else.
pub proof fn a_moved_file_is_the_same_track(
    l: LibraryView,
    from: Seq<char>,
    to: Seq<char>,
    i: int,
)
    requires
        l.wf(),
        0 <= i < l.tracks.len(),
        l.tracks[i].path == from,
    ensures
        ({
            let n = path_moved(l, from, to);
            &&& n == (LibraryView { tracks: n.tracks, ..l })
            &&& n.tracks.len() == l.tracks.len()
            &&& n.tracks[i].path == to
            &&& n.tracks[i] == (TrackRowView { path: to, ..l.tracks[i] })
            &&& forall|k: int|
                0 <= k < l.tracks.len() && k != i ==> #[trigger] n.tracks[k] == l.tracks[k]
            &&& to == from ==> n.tracks[i] == l.tracks[i]
        }),
{
    let k = keyed(crate::library::track_path_key(), from);
    assert forall|j: int| 0 <= j < i implies !k(#[trigger] l.tracks[j]) by {
        assert(crate::library::track_path_key()(l.tracks[j])
            != crate::library::track_path_key()(l.tracks[i]));
    }
    first_where_at(l.tracks, k, i);
}

/// A hash that was worked out is that of the track it was worked out for, with the size
/// and the moment of the file; no other track changes, nor anything else of this one.
pub proof fn a_hash_is_that_of_its_track(
    l: LibraryView,
    hash: Seq<char>,
    size: i64,
    mtime: i64,
    i: int,
)
    requires
        l.wf(),
        0 <= i < l.tracks.len(),
    ensures
        ({
            let n = hash_stored(l, l.tracks[i].id, hash, size, mtime);
            let was = l.tracks[i];
            let is = n.tracks[i];
            &&& is.content_hash == Some(hash)
            &&& is.size_bytes == Some(size)
            &&& is.mtime_ms == Some(mtime)
            &&& is.id == was.id && is.uid == was.uid && is.path == was.path && is.rel_path
                == was.rel_path
            &&& is.title == was.title && is.artist == was.artist && is.album == was.album
                && is.genre == was.genre && is.duration_ms == was.duration_ms && is.bpm == was.bpm
            &&& is.updated_at == was.updated_at && is.local_state == was.local_state
            &&& forall|k: int|
                0 <= k < l.tracks.len() && k != i ==> #[trigger] n.tracks[k] == l.tracks[k]
        }),
{
    let k = keyed(crate::library::track_id(), l.tracks[i].id);
    assert forall|j: int| 0 <= j < i implies !k(#[trigger] l.tracks[j]) by {
        assert(crate::library::track_id()(l.tracks[j]) != crate::library::track_id()(l.tracks[i]));
    }
    first_where_at(l.tracks, k, i);
}

/// The path of a file inside a folder is what stands behind the folder and one
/// separator; put behind them again, it is the path.
pub proof fn a_relative_path_leads_back(dir: Seq<char>, rel: Seq<char>, sep: char)
    requires
        dir.len() == 0 || dir.last() != sep,
    ensures
        relative_path(dir, dir + seq![sep] + rel, sep) == Some(rel),
        relative_path(dir + seq![sep], dir + seq![sep] + rel, sep) == Some(rel),
        forall|path: Seq<char>|
            #![trigger relative_path(dir, path, sep)]
            relative_path(dir, path, sep) is Some && path != dir ==> path == dir + seq![sep]
                + relative_path(dir, path, sep)->0,
{
    let p = dir + seq![sep] + rel;
    assert(p.take(dir.len() as int) =~= dir);
    assert(p.skip(dir.len() as int + 1) =~= rel);
    assert((dir + seq![sep]).drop_last() =~= dir);
    assert(p.len() > dir.len());
    assert forall|path: Seq<char>|
        #![trigger relative_path(dir, path, sep)]
        relative_path(dir, path, sep) is Some && path != dir implies path == dir + seq![sep]
        + relative_path(dir, path, sep)->0 by {
        assert(path =~= path.take(dir.len() as int) + seq![path[dir.len() as int]] + path.skip(
            dir.len() as int + 1,
        ));
    }
}

/// A file that was brought into the folder of the music, or renamed there, by somebody
/// else is news; one that this program put there a moment ago, one in its own folders,
/// and one that the library has, is not.
pub proof fn only_files_of_others_are_news(
    l: LibraryView,
    rows: Seq<ExpectedView>,
    now: i64,
    path: Seq<char>,
)
    ensures
        is_expected_in(rows, path, now) ==> !is_news(l, rows, now)(path),
        has_part(path, ".sway-trash"@) ==> !is_news(l, rows, now)(path),
        has_part(path, ".sway-incoming"@) ==> !is_news(l, rows, now)(path),
        forall|i: int|
            0 <= i < l.tracks.len() && (#[trigger] l.tracks[i]).path == path ==> !is_news(
                l,
                rows,
                now,
            )(path),
        !is_expected_in(rows, path, now) && !has_part(path, ".sway-trash"@) && !has_part(
            path,
            ".sway-incoming"@,
        ) && (forall|i: int| 0 <= i < l.tracks.len() ==> (#[trigger] l.tracks[i]).path != path)
            ==> is_news(l, rows, now)(path),
{
    crate::merge_laws::found_by_key(l.tracks, crate::library::track_path_key(), path);
    assert forall|i: int| 0 <= i < l.tracks.len() && (#[trigger] l.tracks[i]).path == path implies
        !is_news(l, rows, now)(path) by {
        assert(crate::library::track_path_key()(l.tracks[i]) == path);
    }
    if forall|i: int| 0 <= i < l.tracks.len() ==> (#[trigger] l.tracks[i]).path != path {
        if first_where(l.tracks, keyed(crate::library::track_path_key(), path)) is Some {
            let k = first_where(l.tracks, keyed(crate::library::track_path_key(), path))->0;
            assert(l.tracks[k].path != path);
        }
    }
}

/// A path is in a folder of that name if the name stands in it between separators.
pub proof fn a_name_between_separators_is_a_part(a: Seq<char>, part: Seq<char>, b: Seq<char>, sep: char)
    requires
        sep == '/' || sep == '\\',
    ensures
        has_part(a + seq![sep] + part + seq![sep] + b, part),
        has_part(a + seq![sep] + part, part),
        has_part(part, part),
{
    let n = a.len() as int;
    let m = part.len() as int;
    let p = a + seq![sep] + part + seq![sep] + b;
    assert(p[n] == sep);
    assert(p[n + 1 + m] == sep);
    assert(p.subrange(n + 1, n + 1 + m) =~= part);
    assert(is_part(p, part, n + 1, n + 1 + m));
    let q = a + seq![sep] + part;
    assert(q[n] == sep);
    assert(q.subrange(n + 1, n + 1 + m) =~= part);
    assert(is_part(q, part, n + 1, n + 1 + m));
    assert(part.subrange(0, m) =~= part);
    assert(is_part(part, part, 0, m));
}

/// A track that has no name inside the folder of the music gets the one that its path
/// has; one that has one keeps it, and nothing else of a track changes.
pub proof fn missing_names_are_filled_in(dir: Seq<char>, sep: char, t: TrackRowView)
    ensures
        ({
            let s = with_rel_path(dir, sep)(t);
            &&& t.rel_path is Some ==> s == t
            &&& t.rel_path is None ==> s.rel_path == relative_path(dir, t.path, sep)
            &&& s == (TrackRowView { rel_path: s.rel_path, ..t })
            &&& lacks_rel_path(dir, sep)(t) <==> s != t
        }),
{
}

/// A measure below nothing counts as nothing; others count as they are.
pub proof fn measures_are_not_negative(n: i64)
    ensures
        n >= 0 ==> at_least_zero(Some(n)) == n,
        n < 0 ==> at_least_zero(Some(n)) == 0,
        at_least_zero(None) == 0,
{
}

/// Of a device of which nothing was said it is taken that it has everything, and both
/// sends and receives.
pub proof fn what_is_not_said_is_everything(l: LibraryView, device_uid: Seq<char>)
    requires
        forall|i: int|
            0 <= i < l.device_sync.len() ==> (#[trigger] l.device_sync[i]).device_uid != device_uid,
    ensures
        scope_in(l, device_uid).mode == Mode::All,
        scope_in(l, device_uid).direction == (Direction { sends: true, receives: true }),
{
    crate::merge_laws::found_by_key(l.device_sync, device_sync_key(), device_uid);
    if first_where(l.device_sync, keyed(device_sync_key(), device_uid)) is Some {
        let k = first_where(l.device_sync, keyed(device_sync_key(), device_uid))->0;
        assert(l.device_sync[k].device_uid != device_uid);
    }
}

/// A device has the mode and the direction that were stored for it.
pub proof fn what_was_said_of_a_device_counts(l: LibraryView, i: int)
    requires
        l.wf(),
        0 <= i < l.device_sync.len(),
    ensures
        scope_in(l, l.device_sync[i].device_uid).mode == Mode::of_setting(l.device_sync[i].mode),
        scope_in(l, l.device_sync[i].device_uid).direction == Direction::of_setting(
            l.device_sync[i].direction,
        ),
{
    let u = l.device_sync[i].device_uid;
    let k = keyed(device_sync_key(), u);
    assert forall|j: int| 0 <= j < i implies !k(#[trigger] l.device_sync[j]) by {
        assert(device_sync_key()(l.device_sync[j]) != device_sync_key()(l.device_sync[i]));
    }
    first_where_at(l.device_sync, k, i);
}

/// A track stands stranded in a playlist where its file is here and no marked playlist
/// has it; a playlist that is marked strands nothing.
pub proof fn a_marked_playlist_strands_nothing(
    l: LibraryView,
    me: Seq<char>,
    playlist: i64,
    uid: Seq<char>,
    m: PlaylistTrackRowView,
)
    requires
        l.playlist_tracks.contains(m),
        m.playlist_id == playlist,
        playlist_uid_of(l, playlist) == Some(uid),
    ensures
        marked_in(l, me).contains(uid) ==> !is_stranded(l, me, playlist)(m),
        !crate::tree::is_present(l.tracks, m.track_id) ==> !is_stranded(l, me, playlist)(m),
        is_stranded(l, me, playlist)(m) <==> crate::tree::is_present(l.tracks, m.track_id)
            && !track_in_scope(l, me, m.track_id),
{
    if marked_in(l, me).contains(uid) {
        let j = choose|j: int| 0 <= j < l.playlist_tracks.len() && l.playlist_tracks[j] == m;
        assert(crate::scope_db::place_in_scope(l, me, l.playlist_tracks[j]));
        assert(l.playlist_tracks[j].track_id == m.track_id);
    }
}

/// The file that was there before the first writing is kept under a name that says so,
/// and a later one under one that says when; no two of these names are the same.
pub proof fn the_first_file_is_kept_for_good(stem: Seq<char>, ext: Seq<char>, now: int)
    ensures
        backup_name(Some(stem), Some(ext), false, now) == stem + ".original."@ + ext,
        backup_name(Some(stem), Some(ext), true, now) == stem + ".bak-"@
            + crate::dates::compact_text(crate::dates::parts_of(now)) + "."@ + ext,
        backup_name(Some(stem), Some(ext), true, now) != backup_name(
            Some(stem),
            Some(ext),
            false,
            now,
        ),
{
    reveal_strlit(".original.");
    reveal_strlit(".bak-");
    let a = backup_name(Some(stem), Some(ext), false, now);
    let b = backup_name(Some(stem), Some(ext), true, now);
    assert(a[stem.len() as int + 1] == 'o');
    assert(b[stem.len() as int + 1] == 'b');
}

} // verus!
