use sway::db::{add_tracks_to_playlist, create_playlist, list_playlists, list_tracks, DbError};
use sway::library::{Library, ReplicaRow, TrackRow};
use sway::scope::{set_mode, set_playlist, Direction, Mode};
use sway::state::{
    backfill_rel_paths, cue_for, cue_trims, is_internal_path, is_past_retention,
    mark_playlist_scope, mark_scope,
    mark_scope_of_playlist, move_path, paths_to_import, relative_to, set_scope_playlists,
    storage_status, store_hash, tells_progress, unhashed, ExpectedPaths, Poisoned, ScopeChange,
    Settling, StorageView,
};

fn track(id: i64, path: &str) -> TrackRow {
    TrackRow {
        id,
        path: path.to_string(),
        title: String::new(),
        artist: String::new(),
        album: String::new(),
        genre: String::new(),
        duration_ms: 1000,
        bpm: None,
        uid: Some(format!("t{id}")),
        content_hash: Some(format!("h{id}")),
        rel_path: None,
        size_bytes: Some(10 * id),
        mtime_ms: None,
        updated_at: 0,
        local_state: "present".to_string(),
    }
}

fn two_playlists() -> (Library, i64, i64, String) {
    let mut lib = Library::new();
    lib.tracks = vec![track(1, "/m/a"), track(2, "/m/b")];
    let p = create_playlist(&mut lib, "p", "playlist", None).unwrap();
    let q = create_playlist(&mut lib, "q", "playlist", None).unwrap();
    add_tracks_to_playlist(&mut lib, p, &[1]).unwrap();
    add_tracks_to_playlist(&mut lib, q, &[2]).unwrap();
    let uid = sway::db::playlist_uid(&lib, p).unwrap();
    (lib, p, q, uid)
}

#[test]
fn what_is_out_of_scope_is_shown_so() {
    let (mut lib, p, q, uid) = two_playlists();
    let mut tracks = list_tracks(&lib);
    mark_scope(&lib, "me", &mut tracks);
    assert!(tracks.iter().all(|t| t.in_scope));

    set_mode(&mut lib, "me", Mode::Selected);
    set_playlist(&mut lib, "me", &uid, true);
    mark_scope(&lib, "me", &mut tracks);
    let shown: Vec<(i64, bool)> = tracks.iter().map(|t| (t.id, t.in_scope)).collect();
    assert_eq!(shown, vec![(1, true), (2, false)]);

    let mut of_q = sway::db::playlist_tracks(&lib, q);
    mark_scope_of_playlist(&lib, "me", q, &mut of_q);
    assert!(!of_q[0].in_scope);

    let mut nodes = list_playlists(&lib);
    mark_playlist_scope(&lib, "me", &mut nodes);
    let node = |id: i64| nodes.iter().find(|n| n.id == id).unwrap();
    assert!(node(p).in_scope);
    assert_eq!(node(p).stranded_count, 0);
    assert!(!node(q).in_scope);
    assert_eq!(node(q).stranded_count, 1);
}

#[test]
fn several_marks_are_changed_at_once() {
    let (mut lib, _, q, uid) = two_playlists();
    let other = sway::db::playlist_uid(&lib, q).unwrap();
    let changes = vec![
        ScopeChange { uid: uid.clone(), on: true },
        ScopeChange { uid: other.clone(), on: true },
        ScopeChange { uid: uid.clone(), on: false },
    ];
    set_scope_playlists(&mut lib, "me", &changes, 5);
    let mut rows: Vec<(String, bool)> =
        lib.sync_scope.iter().map(|e| (e.playlist_uid.clone(), e.selected)).collect();
    rows.sort();
    let mut expected = vec![(uid, false), (other, true)];
    expected.sort();
    assert_eq!(rows, expected);
}

#[test]
fn only_the_last_of_several_changes_counts() {
    let mut s = Settling { changes: 0 };
    let first = s.note();
    let second = s.note();
    assert!(!s.is_last(first));
    assert!(s.is_last(second));
}

#[test]
fn room_is_added_up() {
    let (mut lib, _, _, uid) = two_playlists();
    set_mode(&mut lib, "me", Mode::Selected);
    set_playlist(&mut lib, "me", &uid, true);
    lib.tracks.push(track(3, "/m/c"));
    lib.tracks[2].local_state = "absent".to_string();
    lib.blob_replicas.push(ReplicaRow {
        hash: "h2".to_string(),
        device_uid: "pc".to_string(),
        seen_at: 0,
    });
    let s = storage_status(&lib, "me", &[1, 2]).unwrap();
    assert_eq!(
        s,
        StorageView {
            library_bytes: 30,
            tracks_present: 2,
            tracks_absent: 1,
            freeable_count: 1,
            freeable_bytes: 20,
        }
    );
    lib.tracks[0].size_bytes = Some(i64::MAX);
    assert_eq!(storage_status(&lib, "me", &[]), Err(DbError::Overflow));
    assert_eq!(format!("{:?}", Poisoned), "Poisoned");
}

#[test]
fn a_file_that_was_put_there_is_no_news_for_a_while() {
    let mut e = ExpectedPaths::default();
    e.expect_path("/m/x", 1000);
    assert!(e.is_expected("/m/x", 1000));
    assert!(e.is_expected("/m/x", 60_999));
    assert!(!e.is_expected("/m/x", 61_000));
    assert!(!e.is_expected("/m/y", 1000));
    e.expect_path("/m/y", 70_000);
    assert_eq!(e.rows.len(), 1);
}

#[test]
fn only_news_is_taken_in() {
    let mut lib = Library::new();
    lib.tracks.push(track(1, "/m/known"));
    let mut e = ExpectedPaths::default();
    e.expect_path("/m/synced", 10);
    let paths: Vec<String> =
        ["/m/known", "/m/synced", "/m/new", "/m/.sway-trash/old", "/m/.sway-incoming/p", "/m/new2"]
            .iter()
            .map(|s| s.to_string())
            .collect();
    assert_eq!(paths_to_import(&lib, &e, &paths, 20), vec!["/m/new", "/m/new2"]);
    assert!(is_internal_path("C:\\m\\.sway-trash\\a.mp3"));
    assert!(is_internal_path(".sway-incoming"));
    assert!(!is_internal_path("/m/.sway-trashy/a"));
    assert!(!is_internal_path("/m/x.sway-trash"));
}

#[test]
fn a_moved_file_is_followed() {
    let mut lib = Library::new();
    lib.tracks = vec![track(1, "/m/Sway/a"), track(2, "/m/b")];
    assert_eq!(move_path(&mut lib, "/m/Sway/a", "/m/b"), Err(DbError::Constraint));
    assert_eq!(move_path(&mut lib, "/m/Sway/a", "/m/a"), Ok(()));
    assert_eq!(lib.tracks[0].path, "/m/a");
    assert_eq!(move_path(&mut lib, "/nowhere", "/m/a"), Ok(()));
}

#[test]
fn paths_inside_the_managed_folder_are_filled_in() {
    assert_eq!(relative_to("/m", "/m/a/b", '/').as_deref(), Some("a/b"));
    assert_eq!(relative_to("/m/", "/m/a", '/').as_deref(), Some("a"));
    assert_eq!(relative_to("/m", "/m", '/').as_deref(), Some(""));
    assert_eq!(relative_to("/m", "/mm/a", '/'), None);
    let mut lib = Library::new();
    lib.tracks = vec![track(1, "/m/a"), track(2, "/else/b"), track(3, "/m/c")];
    lib.tracks[2].rel_path = Some("kept".to_string());
    assert_eq!(backfill_rel_paths(&mut lib, "/m", '/'), 1);
    let rel: Vec<Option<&str>> = lib.tracks.iter().map(|t| t.rel_path.as_deref()).collect();
    assert_eq!(rel, vec![Some("a"), None, Some("kept")]);
}

#[test]
fn hashes_are_written_down() {
    let mut lib = Library::new();
    lib.tracks = vec![track(1, "/m/a"), track(2, "/m/b")];
    lib.tracks[0].content_hash = None;
    assert_eq!(unhashed(&lib), vec![1]);
    store_hash(&mut lib, 1, "abc", 7, 8);
    assert!(unhashed(&lib).is_empty());
    assert_eq!(lib.tracks[0].content_hash.as_deref(), Some("abc"));
    assert_eq!((lib.tracks[0].size_bytes, lib.tracks[0].mtime_ms), (Some(7), Some(8)));
    store_hash(&mut lib, 9, "abc", 7, 8);
    let told: Vec<usize> = (1..=60).filter(|i| tells_progress(*i, 60)).collect();
    assert_eq!(told, vec![25, 50, 60]);
}

#[test]
fn the_trash_keeps_files_for_thirty_days() {
    assert!(!is_past_retention(0));
    assert!(!is_past_retention(2_592_000));
    assert!(is_past_retention(2_592_001));
}

#[test]
fn cues_are_made_of_tracks() {
    let mut lib = Library::new();
    lib.tracks = vec![track(1, "/m/a")];
    lib.tracks[0].duration_ms = -5;
    let c = cue_for(&lib, 1, Some(-3), Some(90)).unwrap();
    assert_eq!((c.duration_ms, c.lead_ms, c.audio_end_ms), (0, 0, 90));
    assert_eq!(c.path, "/m/a");
    assert!(cue_for(&lib, 2, None, None).is_none());
    assert_eq!(cue_trims(true, false, Some(5), None), (5, 0));
    assert_eq!(cue_trims(true, true, Some(5), Some(9)), (0, 0));
    assert_eq!(cue_trims(false, false, Some(5), Some(9)), (0, 0));
}

#[test]
fn directions_have_names() {
    for name in ["both", "send", "receive", "off"] {
        assert_eq!(Direction::from_setting(name).as_str(), name);
    }
}
