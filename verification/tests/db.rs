use std::collections::HashMap;
use sway::db::{
    add_tracks_to_playlist, assign_missing_uids, create_playlist, delete_playlist, delete_tracks,
    device_name, get_auto_sync_xml, get_setting, list_playlists, list_tracks, migrate,
    move_playlist, ms_of_reading, new_uid, now_ms, playlist_tracks, playlist_uid, record_tombstone,
    remove_tracks_from_playlist, rename_playlist, reorder_playlist_tracks, set_auto_sync_xml,
    set_device_name, set_setting, this_device_uid, track_path, track_playlists, track_uid, DbError,
};
use sway::library::{Library, PlaylistRow, PlaylistTrackRow, TrackRow};
use sway::tree::{is_ancestor, MoveError};
use sway::upgrade::{assign_uids_from, migrate_at, Legacy, OldScope};

fn row(id: i64, path: &str, uid: Option<String>) -> TrackRow {
    TrackRow {
        id,
        path: path.to_string(),
        title: String::new(),
        artist: String::new(),
        album: String::new(),
        genre: String::new(),
        duration_ms: 0,
        bpm: None,
        uid,
        content_hash: None,
        rel_path: None,
        size_bytes: None,
        mtime_ms: None,
        updated_at: 0,
        local_state: "present".to_string(),
    }
}

fn add_track(lib: &mut Library, path: &str) -> i64 {
    let id = lib.tracks.iter().map(|t| t.id).max().unwrap_or(0) + 1;
    lib.tracks.push(row(id, path, Some(new_uid())));
    id
}

fn tombstones_of(lib: &Library, entity: &str) -> Vec<String> {
    let mut v: Vec<String> =
        lib.tombstones.iter().filter(|t| t.entity == entity).map(|t| t.uid.clone()).collect();
    v.sort();
    v
}

fn order_of(lib: &Library, pid: i64) -> Vec<i64> {
    playlist_tracks(lib, pid).iter().map(|t| t.id).collect()
}

fn ranks_of(lib: &Library, pid: i64) -> Vec<String> {
    let mut v: Vec<String> = lib
        .playlist_tracks
        .iter()
        .filter(|m| m.playlist_id == pid)
        .map(|m| m.rank.clone())
        .collect();
    v.sort();
    v
}

#[test]
fn create_assigns_sequential_positions() {
    let mut lib = Library::new();
    create_playlist(&mut lib, "a", "playlist", None).unwrap();
    create_playlist(&mut lib, "b", "playlist", None).unwrap();
    let nodes = list_playlists(&lib);
    assert_eq!(nodes.iter().map(|n| n.position).collect::<Vec<_>>(), vec![0, 1]);
}

#[test]
fn move_into_folder_and_reorder_siblings() {
    let mut lib = Library::new();
    let f = create_playlist(&mut lib, "f", "folder", None).unwrap();
    let a = create_playlist(&mut lib, "a", "playlist", None).unwrap();
    let b = create_playlist(&mut lib, "b", "playlist", None).unwrap();
    // a into f
    move_playlist(&mut lib, a, Some(f), 0).unwrap();
    let nodes = list_playlists(&lib);
    assert_eq!(nodes.iter().find(|n| n.id == a).unwrap().parent_id, Some(f));
    // b before f at the root
    move_playlist(&mut lib, b, None, 0).unwrap();
    let roots: Vec<i64> = list_playlists(&lib)
        .into_iter()
        .filter(|n| n.parent_id.is_none())
        .map(|n| n.id)
        .collect();
    assert_eq!(roots, vec![b, f]);
}

#[test]
fn move_rejects_cycle_and_non_folder_target() {
    let mut lib = Library::new();
    let f1 = create_playlist(&mut lib, "f1", "folder", None).unwrap();
    let f2 = create_playlist(&mut lib, "f2", "folder", Some(f1)).unwrap();
    let p = create_playlist(&mut lib, "p", "playlist", None).unwrap();
    assert!(move_playlist(&mut lib, f1, Some(f2), 0).is_err()); // a cycle
    assert!(move_playlist(&mut lib, f1, Some(f1), 0).is_err()); // into itself
    assert!(move_playlist(&mut lib, f2, Some(p), 0).is_err()); // a playlist is no folder
}

#[test]
fn add_ignores_duplicates_and_appends() {
    let mut lib = Library::new();
    let pl = create_playlist(&mut lib, "p", "playlist", None).unwrap();
    let t1 = add_track(&mut lib, "/a");
    let t2 = add_track(&mut lib, "/b");
    assert_eq!(add_tracks_to_playlist(&mut lib, pl, &[t1, t2]).unwrap(), 2);
    assert_eq!(add_tracks_to_playlist(&mut lib, pl, &[t1]).unwrap(), 0);
    assert_eq!(order_of(&lib, pl), vec![t1, t2]);
}

#[test]
fn reorder_moves_block_to_index() {
    let mut lib = Library::new();
    let pl = create_playlist(&mut lib, "p", "playlist", None).unwrap();
    let ids: Vec<i64> = (0..5).map(|i| add_track(&mut lib, &format!("/t{i}"))).collect();
    add_tracks_to_playlist(&mut lib, pl, &ids).unwrap();

    // The first to the end.
    reorder_playlist_tracks(&mut lib, pl, &[ids[0]], 5);
    assert_eq!(order_of(&lib, pl), vec![ids[1], ids[2], ids[3], ids[4], ids[0]]);

    // A block to the beginning.
    reorder_playlist_tracks(&mut lib, pl, &[ids[3], ids[4]], 0);
    assert_eq!(order_of(&lib, pl), vec![ids[3], ids[4], ids[1], ids[2], ids[0]]);

    // Into the middle.
    reorder_playlist_tracks(&mut lib, pl, &[ids[0]], 2);
    assert_eq!(order_of(&lib, pl), vec![ids[3], ids[4], ids[0], ids[1], ids[2]]);
}

#[test]
fn remove_keeps_order_of_survivors() {
    let mut lib = Library::new();
    let pl = create_playlist(&mut lib, "p", "playlist", None).unwrap();
    let ids: Vec<i64> = (0..3).map(|i| add_track(&mut lib, &format!("/r{i}"))).collect();
    add_tracks_to_playlist(&mut lib, pl, &ids).unwrap();
    let ranks_before = ranks_of(&lib, pl);
    remove_tracks_from_playlist(&mut lib, pl, &[ids[1]]);
    assert_eq!(order_of(&lib, pl), vec![ids[0], ids[2]]);
    assert_eq!(ranks_of(&lib, pl), vec![ranks_before[0].clone(), ranks_before[2].clone()]);
}

#[test]
fn reorder_only_rewrites_moved_rows() {
    let mut lib = Library::new();
    let pl = create_playlist(&mut lib, "p", "playlist", None).unwrap();
    let ids: Vec<i64> = (0..5).map(|i| add_track(&mut lib, &format!("/m{i}"))).collect();
    add_tracks_to_playlist(&mut lib, pl, &ids).unwrap();
    let before: HashMap<i64, String> =
        order_of(&lib, pl).into_iter().zip(ranks_of(&lib, pl)).collect();

    reorder_playlist_tracks(&mut lib, pl, &[ids[0]], 3);

    let after: HashMap<i64, String> =
        order_of(&lib, pl).into_iter().zip(ranks_of(&lib, pl)).collect();
    for id in &ids[1..] {
        assert_eq!(before[id], after[id], "track {id} did not move, its rank must not change");
    }
    assert_ne!(before[&ids[0]], after[&ids[0]]);
}

#[test]
fn auto_sync_xml_defaults_true_and_persists() {
    let mut lib = Library::new();
    assert!(get_auto_sync_xml(&lib));
    set_auto_sync_xml(&mut lib, false);
    assert!(!get_auto_sync_xml(&lib));
    set_auto_sync_xml(&mut lib, true);
    assert!(get_auto_sync_xml(&lib));
}

fn playlist_row(id: i64, name: &str) -> PlaylistRow {
    PlaylistRow {
        id,
        name: name.to_string(),
        kind: "playlist".to_string(),
        parent_id: None,
        rank: String::new(),
        uid: None,
        updated_at: 0,
    }
}

fn member_row(playlist_id: i64, track_id: i64) -> PlaylistTrackRow {
    PlaylistTrackRow { playlist_id, track_id, rank: String::new(), added_at: 0 }
}

/// An older library, with places instead of ranks.
fn old_library() -> (Library, Legacy) {
    let mut lib = Library::new();
    lib.playlists = vec![playlist_row(1, "b"), playlist_row(2, "a"), playlist_row(3, "c")];
    lib.tracks = vec![row(10, "/x", None), row(11, "/y", None), row(12, "/z", None)];
    lib.playlist_tracks = vec![member_row(1, 12), member_row(1, 10), member_row(1, 11)];
    let legacy = Legacy {
        playlist_positions: Some(vec![1, 0, 2]),
        member_positions: Some(vec![0, 1, 2]),
        device_scope: Vec::new(),
    };
    (lib, legacy)
}

#[test]
fn migrate_backfills_ranks_preserving_old_order() {
    let (mut lib, legacy) = old_library();
    migrate(&mut lib, &legacy).unwrap();

    let names: Vec<String> = list_playlists(&lib).into_iter().map(|n| n.name).collect();
    assert_eq!(names, vec!["a", "b", "c"]);
    assert_eq!(order_of(&lib, 1), vec![12, 10, 11]);
    // Doing it again writes nothing.
    let ranks = ranks_of(&lib, 1);
    migrate(&mut lib, &Legacy::none()).unwrap();
    assert_eq!(ranks_of(&lib, 1), ranks);
}

#[test]
fn migrating_dates_members_and_keeps_scopes() {
    let (mut lib, mut legacy) = old_library();
    lib.playlist_tracks[1].added_at = 7;
    legacy.device_scope.push(OldScope {
        device_uid: "d".to_string(),
        mode: "selected".to_string(),
        updated_at: 4,
    });
    let fresh: Vec<String> = (0..6).map(|i| format!("u{i}")).collect();
    migrate_at(&mut lib, &legacy, 99, &fresh).unwrap();
    let dates: Vec<i64> = lib.playlist_tracks.iter().map(|m| m.added_at).collect();
    assert_eq!(dates, vec![99, 7, 99]);
    assert_eq!(lib.device_sync.len(), 1);
    assert_eq!(lib.device_sync[0].direction, "both");
    assert_eq!(lib.device_sync[0].mode, "selected");
    assert_eq!(lib.tracks[0].uid.as_deref(), Some("u0"));
    assert_eq!(lib.playlists[0].uid.as_deref(), Some("u3"));
}

#[test]
fn deleting_a_folder_leaves_tombstones_for_the_whole_subtree() {
    let mut lib = Library::new();
    let f = create_playlist(&mut lib, "f", "folder", None).unwrap();
    let sub = create_playlist(&mut lib, "sub", "folder", Some(f)).unwrap();
    let pl = create_playlist(&mut lib, "p", "playlist", Some(sub)).unwrap();
    let uids: Vec<String> =
        [f, sub, pl].iter().map(|id| playlist_uid(&lib, *id).unwrap()).collect();

    delete_playlist(&mut lib, f);

    let mut expected = uids.clone();
    expected.sort();
    assert_eq!(tombstones_of(&lib, "playlist"), expected);
}

#[test]
fn removing_a_track_from_a_playlist_is_recorded_and_reversible() {
    let mut lib = Library::new();
    let pl = create_playlist(&mut lib, "p", "playlist", None).unwrap();
    let t = add_track(&mut lib, "/one");
    let pair = format!("{}:{}", playlist_uid(&lib, pl).unwrap(), track_uid(&lib, t).unwrap());
    add_tracks_to_playlist(&mut lib, pl, &[t]).unwrap();

    remove_tracks_from_playlist(&mut lib, pl, &[t]);
    assert_eq!(tombstones_of(&lib, "playlist_track"), vec![pair.clone()]);

    // Adding it again has to lift the tombstone.
    add_tracks_to_playlist(&mut lib, pl, &[t]).unwrap();
    assert!(tombstones_of(&lib, "playlist_track").is_empty());
}

#[test]
fn deleting_tracks_records_tombstones() {
    let mut lib = Library::new();
    let t1 = add_track(&mut lib, "/gone1");
    let t2 = add_track(&mut lib, "/gone2");
    let mut uids = vec![track_uid(&lib, t1).unwrap(), track_uid(&lib, t2).unwrap()];
    uids.sort();
    let paths = delete_tracks(&mut lib, &[t1, t2]);
    assert_eq!(tombstones_of(&lib, "track"), uids);
    assert_eq!(paths, vec!["/gone1", "/gone2"]);
    assert!(lib.tracks.is_empty());
}

#[test]
fn uids_are_assigned_to_legacy_rows_and_are_stable() {
    let mut lib = Library::new();
    lib.tracks.push(row(1, "/viejo", None));
    let mut vieja = playlist_row(1, "vieja");
    vieja.rank = "V".to_string();
    lib.playlists.push(vieja);
    assign_missing_uids(&mut lib).unwrap();

    let tuid = lib.tracks[0].uid.clone();
    assert!(tuid.is_some());
    // The second time gives nothing anew: a uid is for life.
    assign_missing_uids(&mut lib).unwrap();
    let again = lib.tracks[0].uid.clone();
    assert_eq!(tuid, again);
    assert!(lib.playlists[0].uid.is_some());
}

#[test]
fn a_uid_is_never_given_twice() {
    let mut lib = Library::new();
    lib.tracks.push(row(1, "/a", Some("x".to_string())));
    lib.tracks.push(row(2, "/b", None));
    let fresh = vec!["x".to_string(), "y".to_string()];
    assert_eq!(assign_uids_from(&mut lib, &fresh), Err(DbError::Constraint));
    assert_eq!(lib.tracks[1].uid, None);
}

#[test]
fn device_identity_is_generated_once() {
    let mut lib = Library::new();
    let uid = this_device_uid(&mut lib);
    assert!(!uid.is_empty());
    assert_eq!(this_device_uid(&mut lib), uid);
    set_device_name(&mut lib, "PC del living");
    assert_eq!(device_name(&mut lib, "Sway"), "PC del living");
}

#[test]
fn delete_folder_cascades() {
    let mut lib = Library::new();
    let f = create_playlist(&mut lib, "f", "folder", None).unwrap();
    let pl = create_playlist(&mut lib, "p", "playlist", Some(f)).unwrap();
    let t = add_track(&mut lib, "/x");
    add_tracks_to_playlist(&mut lib, pl, &[t]).unwrap();
    delete_playlist(&mut lib, f);
    assert!(list_playlists(&lib).is_empty());
    assert_eq!(lib.playlist_tracks.len(), 0);
    // The track is still in the library.
    assert_eq!(list_tracks(&lib).len(), 1);
}

#[test]
fn a_name_that_says_nothing_is_replaced() {
    let mut lib = Library::new();
    set_device_name(&mut lib, " Android ");
    assert_eq!(device_name(&mut lib, "Pixel"), "Pixel");
    assert_eq!(get_setting(&lib, "device_name").as_deref(), Some("Pixel"));
}

#[test]
fn settings_are_read_back() {
    let mut lib = Library::new();
    assert_eq!(get_setting(&lib, "k"), None);
    set_setting(&mut lib, "k", "1");
    set_setting(&mut lib, "j", "2");
    set_setting(&mut lib, "k", "3");
    assert_eq!(get_setting(&lib, "k").as_deref(), Some("3"));
    assert_eq!(get_setting(&lib, "j").as_deref(), Some("2"));
    assert_eq!(lib.settings.len(), 2);
}

#[test]
fn uids_are_made_up_anew() {
    let a = new_uid();
    let b = new_uid();
    assert_ne!(a, b);
    assert_eq!(a.len(), 36);
    assert_eq!(a.chars().filter(|c| *c == '-').count(), 4);
    assert_eq!(a.as_bytes()[14], b'4');
}

#[test]
fn the_clock_is_past_2020() {
    assert!(now_ms() > 1_577_836_800_000);
    assert_eq!(ms_of_reading(None), 0);
    assert_eq!(ms_of_reading(Some(1234)), 1234);
}

#[test]
fn refused_moves_say_why() {
    let mut lib = Library::new();
    let f1 = create_playlist(&mut lib, "f1", "folder", None).unwrap();
    let f2 = create_playlist(&mut lib, "f2", "folder", Some(f1)).unwrap();
    let p = create_playlist(&mut lib, "p", "playlist", None).unwrap();
    assert!(is_ancestor(&lib, f1, f2));
    assert!(!is_ancestor(&lib, f2, f1));
    let errors: Vec<MoveError> = vec![
        move_playlist(&mut lib, f1, Some(f1), 0).unwrap_err(),
        move_playlist(&mut lib, f1, Some(f2), 0).unwrap_err(),
        move_playlist(&mut lib, f2, Some(p), 0).unwrap_err(),
    ];
    for e in errors {
        assert!(!e.message().is_empty());
    }
}

#[test]
fn creating_under_nothing_is_refused() {
    let mut lib = Library::new();
    assert_eq!(create_playlist(&mut lib, "x", "playlist", Some(77)), Err(DbError::Constraint));
    let p = create_playlist(&mut lib, "p", "playlist", None).unwrap();
    assert_eq!(add_tracks_to_playlist(&mut lib, p, &[5]), Err(DbError::Constraint));
    assert!(lib.playlist_tracks.is_empty());
}

#[test]
fn tracks_are_listed_by_artist_album_and_title() {
    let mut lib = Library::new();
    let mut put = |id: i64, artist: &str, album: &str, title: &str| {
        let mut t = row(id, &format!("/{id}"), None);
        t.artist = artist.to_string();
        t.album = album.to_string();
        t.title = title.to_string();
        lib.tracks.push(t);
    };
    put(1, "b", "x", "x");
    put(2, "a", "z", "x");
    put(3, "a", "y", "q");
    put(4, "a", "y", "p");
    let ids: Vec<i64> = list_tracks(&lib).iter().map(|t| t.id).collect();
    assert_eq!(ids, vec![4, 3, 2, 1]);
    assert_eq!(track_path(&lib, 3).as_deref(), Some("/3"));
    assert_eq!(track_path(&lib, 9), None);
}

#[test]
fn playlists_of_a_track_and_renaming() {
    let mut lib = Library::new();
    let p = create_playlist(&mut lib, "p", "playlist", None).unwrap();
    let q = create_playlist(&mut lib, "q", "playlist", None).unwrap();
    let t = add_track(&mut lib, "/t");
    add_tracks_to_playlist(&mut lib, p, &[t]).unwrap();
    add_tracks_to_playlist(&mut lib, q, &[t]).unwrap();
    let mut of = track_playlists(&lib, t);
    of.sort();
    assert_eq!(of, vec![p, q]);
    rename_playlist(&mut lib, p, "other");
    assert!(list_playlists(&lib).iter().any(|n| n.id == p && n.name == "other"));
}

#[test]
fn a_deletion_is_recorded_once() {
    let mut lib = Library::new();
    record_tombstone(&mut lib, "track", "u");
    record_tombstone(&mut lib, "track", "u");
    assert_eq!(tombstones_of(&lib, "track"), vec!["u"]);
}
