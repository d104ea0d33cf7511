use sway::db::{create_playlist, list_playlists, playlist_uid, this_device_uid};
use sway::library::{Library, PlaylistTrackRow, TrackRow};
use sway::manifest::{
    build, DeviceSync, FileTransfer, Membership, Plan, PlaylistEntry, ScopeEntry,
};
use sway::scope::{
    apply_device_sync, apply_entry, entries, evict, evictable, expand, find_in_trash,
    finish_restore, get, link, link_from, merge_device_sync, merge_entries, note_replicas,
    restorable, restrict, scope_playlists, scope_tracks, select_new_local, set_direction, set_mode,
    set_playlist, stranded_counts, tracks_in_scope, Direction, Mode, Scope,
};
use sway::scope_db::{worth_hashing, TrashFile};
use sway::uidset::UidSet;

fn pl(uid: &str, parent: Option<&str>) -> PlaylistEntry {
    PlaylistEntry {
        uid: uid.into(),
        name: uid.into(),
        kind: "playlist".into(),
        parent_uid: parent.map(String::from),
        rank: "V".into(),
        updated_at: 0,
    }
}

fn member(playlist: &str, track: &str) -> Membership {
    Membership {
        playlist_uid: playlist.into(),
        track_uid: track.into(),
        rank: "V".into(),
        added_at: 0,
    }
}

fn set(items: &[&str]) -> UidSet {
    let mut s = UidSet::new();
    for i in items {
        s.insert(i.to_string());
    }
    s
}

#[test]
fn selecting_a_folder_selects_its_subtree() {
    let tree = vec![
        pl("carpeta", None),
        pl("adentro", Some("carpeta")),
        pl("mas-adentro", Some("adentro")),
        pl("afuera", None),
    ];
    let got = expand(&tree, &set(&["carpeta"]));
    assert!(got.contains("adentro") && got.contains("mas-adentro"));
    assert!(!got.contains("afuera"));
}

#[test]
fn a_device_that_only_receives_never_sends_to_anyone() {
    let pc = Direction::from_setting("both");
    let celu = Direction::from_setting("receive");

    assert_eq!(link(&pc, &celu), (false, true));
    assert_eq!(link(&celu, &pc), (true, false));
    // Two that only receive move nothing.
    assert_eq!(link(&celu, &celu), (false, false));
    // And one that pauses cuts off all.
    assert_eq!(link(&pc, &Direction::from_setting("off")), (false, false));
}

#[test]
fn mode_all_means_every_track_no_matter_the_selection() {
    let scope =
        Scope { mode: Mode::All, direction: Direction::default(), selected: set(&["x"]) };
    assert!(tracks_in_scope(&[], &[], &scope).is_none());
}

#[test]
fn only_tracks_under_selected_playlists_are_in_scope() {
    let tree = vec![pl("si", None), pl("no", None)];
    let members = vec![member("si", "t1"), member("no", "t2")];
    let scope =
        Scope { mode: Mode::Selected, direction: Direction::default(), selected: set(&["si"]) };
    let got = tracks_in_scope(&tree, &members, &scope).unwrap();
    assert!(got.contains("t1"));
    assert!(!got.contains("t2"));
}

fn scope_row(selected: bool, updated_at: i64) -> ScopeEntry {
    ScopeEntry {
        device_uid: "celu".into(),
        playlist_uid: "sets".into(),
        selected,
        updated_at,
    }
}

#[test]
fn the_newest_scope_row_wins() {
    let mine = vec![scope_row(true, 100)];
    let theirs = vec![scope_row(false, 500)];
    let merged = merge_entries(&mine, &theirs);
    assert_eq!(merged.len(), 1);
    assert!(!merged[0].selected);
}

#[test]
fn unselecting_keeps_a_row_that_says_no() {
    let mut lib = Library::new();
    set_playlist(&mut lib, "celu", "sets", true);
    set_playlist(&mut lib, "celu", "sets", false);
    let rows = entries(&lib);
    assert_eq!(rows.len(), 1);
    assert!(!rows[0].selected);
    assert!(!get(&lib, "celu").selected.contains("sets"));
}

#[test]
fn an_older_incoming_row_does_not_win() {
    let mut lib = Library::new();
    set_playlist(&mut lib, "celu", "sets", true);
    let now = entries(&lib)[0].updated_at;
    let applied = apply_entry(&mut lib, &scope_row(false, now - 1000));
    assert!(!applied);
    assert!(entries(&lib)[0].selected);
    assert!(apply_entry(&mut lib, &scope_row(false, now + 1000)));
    assert!(!entries(&lib)[0].selected);
}

fn add_track(lib: &mut Library, uid: &str, state: &str) -> i64 {
    if let Some(t) = lib.tracks.iter().find(|t| t.uid.as_deref() == Some(uid)) {
        return t.id;
    }
    let id = lib.tracks.len() as i64 + 1;
    lib.tracks.push(TrackRow {
        id,
        path: format!("/m/{uid}"),
        title: String::new(),
        artist: String::new(),
        album: String::new(),
        genre: String::new(),
        duration_ms: 0,
        bpm: None,
        uid: Some(uid.to_string()),
        content_hash: None,
        rel_path: None,
        size_bytes: None,
        mtime_ms: None,
        updated_at: 0,
        local_state: state.to_string(),
    });
    id
}

fn place(lib: &mut Library, playlist_id: i64, track_id: i64) {
    lib.playlist_tracks.push(PlaylistTrackRow {
        playlist_id,
        track_id,
        rank: "V".to_string(),
        added_at: 1,
    });
}

fn uid_of(lib: &Library, id: i64) -> String {
    playlist_uid(lib, id).unwrap()
}

#[test]
fn re_selecting_a_playlist_recovers_the_file_from_the_trash() {
    let mut lib = Library::new();
    let me = this_device_uid(&mut lib);
    let t = add_track(&mut lib, "tr", "present");
    lib.tracks[0].path = "/m/tema.flac".to_string();
    lib.tracks[0].content_hash = Some("hash".to_string());
    lib.tracks[0].rel_path = Some("tema.flac".to_string());
    lib.tracks[0].size_bytes = Some(10);
    let p = create_playlist(&mut lib, "Sets", "playlist", None).unwrap();
    let pl_uid = uid_of(&lib, p);
    place(&mut lib, p, t);
    note_replicas(&mut lib, "otro", &["hash".to_string()]);

    // Nothing is marked: the file can go, and goes.
    set_mode(&mut lib, &me, Mode::Selected);
    let items = evictable(&mut lib, &[t]);
    assert_eq!(items.len(), 1);
    assert_eq!(evict(&mut lib, &items, &[true]), (1, 10));
    assert_eq!(lib.tracks[0].local_state, "absent");

    // The playlist is marked again: it comes back.
    set_playlist(&mut lib, &me, &pl_uid, true);
    let candidates = restorable(&mut lib);
    assert_eq!(candidates.len(), 1);
    let file = TrashFile { name: "1700000000-tema.flac".to_string(), size: 10 };
    let other = TrashFile { name: "1700000000-otro.flac".to_string(), size: 11 };
    assert!(worth_hashing(&file, &candidates));
    assert!(!worth_hashing(&other, &candidates));
    let found =
        find_in_trash(&[other, file], &[None, Some("hash".to_string())], &candidates);
    assert_eq!(found, vec![(0, 1)]);
    assert_eq!(finish_restore(&mut lib, t, "/m/tema.flac", "tema.flac", 77), Ok(()));
    assert_eq!(lib.tracks[0].mtime_ms, Some(77));
    assert_eq!(lib.tracks[0].local_state, "present");
    assert_eq!(lib.tracks[0].path, "/m/tema.flac");
}

#[test]
fn the_sql_and_the_pure_rule_agree() {
    let mut lib = Library::new();
    let me = this_device_uid(&mut lib);
    let carpeta = create_playlist(&mut lib, "Carpeta", "folder", None).unwrap();
    let sub = create_playlist(&mut lib, "Sub", "playlist", Some(carpeta)).unwrap();
    let afuera = create_playlist(&mut lib, "Afuera", "playlist", None).unwrap();
    for (i, p) in [(1, sub), (2, afuera)] {
        let t = add_track(&mut lib, &format!("t{i}"), "present");
        place(&mut lib, p, t);
    }
    let carpeta_uid = uid_of(&lib, carpeta);

    set_mode(&mut lib, &me, Mode::Selected);
    set_playlist(&mut lib, &me, &carpeta_uid, true);

    // Marking the folder brings the track of the playlist inside it.
    let via_sql = scope_tracks(&lib, &me).unwrap();
    assert!(via_sql.contains("t1"));
    assert!(!via_sql.contains("t2"));

    // The same rule, by what devices tell each other.
    let m = build(&mut lib);
    let via_pura = tracks_in_scope(&m.playlists, &m.memberships, &get(&lib, &me)).unwrap();
    assert_eq!(via_sql.len(), via_pura.len());
    for i in 0..via_sql.len() {
        assert!(via_pura.contains(via_sql.at(i)));
    }
}

#[test]
fn selected_playlists_expand_down_but_not_up() {
    let mut lib = Library::new();
    let me = this_device_uid(&mut lib);
    let carpeta = create_playlist(&mut lib, "Carpeta", "folder", None).unwrap();
    let adentro = create_playlist(&mut lib, "Adentro", "playlist", Some(carpeta)).unwrap();
    let afuera = create_playlist(&mut lib, "Afuera", "playlist", None).unwrap();
    let (u_carpeta, u_adentro, u_afuera) =
        (uid_of(&lib, carpeta), uid_of(&lib, adentro), uid_of(&lib, afuera));

    assert!(scope_playlists(&lib, &me).is_none());

    set_mode(&mut lib, &me, Mode::Selected);
    set_playlist(&mut lib, &me, &u_adentro, true);
    let got = scope_playlists(&lib, &me).unwrap();

    assert!(got.contains(&u_adentro));
    assert!(!got.contains(&u_afuera));
    // Marking a child does not mark its parent.
    assert!(!got.contains(&u_carpeta));

    // But marking a folder reaches down.
    set_playlist(&mut lib, &me, &u_carpeta, true);
    let got = scope_playlists(&lib, &me).unwrap();
    assert!(got.contains(&u_carpeta) && got.contains(&u_adentro));
    assert!(!got.contains(&u_afuera));
}

#[test]
fn a_shared_track_does_not_keep_the_unselected_playlist_alive() {
    let mut lib = Library::new();
    let me = this_device_uid(&mut lib);
    let marcada = create_playlist(&mut lib, "Marcada", "playlist", None).unwrap();
    let no = create_playlist(&mut lib, "Desmarcada", "playlist", None).unwrap();
    for (p, uid) in [(marcada, "compartido"), (no, "compartido"), (no, "propio")] {
        let t = add_track(&mut lib, uid, "present");
        place(&mut lib, p, t);
    }
    let u_marcada = uid_of(&lib, marcada);

    set_mode(&mut lib, &me, Mode::Selected);
    set_playlist(&mut lib, &me, &u_marcada, true);

    let c = stranded_counts(&lib, &me);
    assert_eq!(c.get(&marcada), None, "lo que está en scope no cuenta");
    assert_eq!(
        c.get(&no).copied().unwrap_or(0),
        1,
        "sólo `propio`: `compartido` lo sostiene la marcada"
    );

    // Both still have their file.
    let node = list_playlists(&lib).into_iter().find(|n| n.id == no).unwrap();
    assert_eq!(node.track_count, 2);
    assert_eq!(node.present_count, 2);

    let en_scope = scope_tracks(&lib, &me).unwrap();
    assert!(en_scope.contains("compartido"));
    assert!(!en_scope.contains("propio"));

    // The file goes: nothing is stranded any more.
    for t in lib.tracks.iter_mut().filter(|t| t.uid.as_deref() == Some("propio")) {
        t.local_state = "absent".to_string();
    }
    assert_eq!(stranded_counts(&lib, &me).get(&no), None);

    set_mode(&mut lib, &me, Mode::All);
    assert!(stranded_counts(&lib, &me).is_empty());
}

#[test]
fn a_playlist_created_here_starts_selected() {
    let mut lib = Library::new();
    let me = this_device_uid(&mut lib);
    set_mode(&mut lib, &me, Mode::Selected);
    let id = create_playlist(&mut lib, "Nueva", "playlist", None).unwrap();
    let uid = uid_of(&lib, id);

    assert!(!scope_playlists(&lib, &me).unwrap().contains(&uid));
    select_new_local(&mut lib, id);
    assert!(scope_playlists(&lib, &me).unwrap().contains(&uid));

    // Where everything is wanted there is nothing to mark.
    let mut otra = Library::new();
    let yo = this_device_uid(&mut otra);
    let id = create_playlist(&mut otra, "Nueva", "playlist", None).unwrap();
    select_new_local(&mut otra, id);
    assert!(entries(&otra).is_empty());
    assert!(scope_playlists(&otra, &yo).is_none());
}

#[test]
fn a_track_nobody_else_has_is_never_evictable() {
    let mut lib = Library::new();
    let me = this_device_uid(&mut lib);
    let t = add_track(&mut lib, "solo-aca", "present");
    lib.tracks[0].content_hash = Some("h1".to_string());
    lib.tracks[0].size_bytes = Some(100);
    set_mode(&mut lib, &me, Mode::Selected);

    // Out of scope, but nobody else has it.
    assert!(evictable(&mut lib, &[t]).is_empty());

    // With a copy on another device it can go.
    note_replicas(&mut lib, "otro", &["h1".to_string()]);
    assert_eq!(evictable(&mut lib, &[t]).len(), 1);
    // Outside the managed folder it is not ours to move.
    assert!(evictable(&mut lib, &[]).is_empty());

    // A copy on this device itself does not count.
    lib.blob_replicas.clear();
    note_replicas(&mut lib, &me, &["h1".to_string()]);
    assert!(evictable(&mut lib, &[t]).is_empty());
}

#[test]
fn the_newest_word_on_a_device_counts() {
    let row = |mode: &str, updated_at: i64| DeviceSync {
        device_uid: "d".to_string(),
        mode: mode.to_string(),
        direction: "send".to_string(),
        updated_at,
    };
    let merged = merge_device_sync(&[row("all", 5)], &[row("selected", 9)]);
    assert_eq!(merged.len(), 1);
    assert_eq!(merged[0].mode, "selected");

    let mut lib = Library::new();
    assert!(apply_device_sync(&mut lib, &row("selected", 9)));
    assert!(!apply_device_sync(&mut lib, &row("all", 5)));
    assert_eq!(get(&lib, "d").mode, Mode::Selected);
    set_direction(&mut lib, "d", "receive");
    assert_eq!(get(&lib, "d").direction, Direction { sends: false, receives: true });
    assert_eq!(Mode::from_setting("selected"), Mode::Selected);
    assert_eq!(Mode::All.as_str(), "all");
}

#[test]
fn links_are_read_from_the_rows() {
    let row = |uid: &str, direction: &str| DeviceSync {
        device_uid: uid.to_string(),
        mode: "all".to_string(),
        direction: direction.to_string(),
        updated_at: 1,
    };
    let mine = [row("a", "send")];
    let theirs = [row("b", "receive")];
    assert_eq!(link_from("a", "b", &mine, &theirs), (false, true));
    assert_eq!(link_from("b", "a", &theirs, &mine), (true, false));
    assert_eq!(link_from("a", "c", &mine, &theirs), (false, true));
}

#[test]
fn a_plan_keeps_the_files_that_may_move() {
    let files = |uids: &[&str]| -> Vec<FileTransfer> {
        uids.iter().map(|u| FileTransfer { track_uid: u.to_string(), ..Default::default() }).collect()
    };
    let plan = || Plan {
        pull_files: files(&["a", "b"]),
        push_files: files(&["c", "d"]),
        pull_meta: 3,
        ..Default::default()
    };
    let uids =
        |v: &[FileTransfer]| -> Vec<String> { v.iter().map(|f| f.track_uid.clone()).collect() };
    let p = restrict(plan(), true, true, None, None);
    assert_eq!((uids(&p.pull_files).len(), uids(&p.push_files).len()), (2, 2));
    let p = restrict(plan(), true, false, Some(&set(&["b", "c"])), None);
    assert_eq!(uids(&p.pull_files), vec!["b"]);
    assert!(p.push_files.is_empty());
    assert_eq!(p.pull_meta, 3);
    let p = restrict(plan(), false, true, None, Some(&set(&["d"])));
    assert!(p.pull_files.is_empty());
    assert_eq!(uids(&p.push_files), vec!["d"]);
}
