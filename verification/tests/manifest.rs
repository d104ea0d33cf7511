use sway::library::Library;
use sway::manifest::{
    build, exists_in, held_content, pair_key, plan, tombstoned, Manifest, Membership, PlaylistEntry, Tombstone,
    TrackEntry,
};

fn track(uid: &str, hash: Option<&str>, updated_at: i64) -> TrackEntry {
    TrackEntry {
        uid: uid.into(),
        hash: hash.map(|h| h.into()),
        size: 1000,
        filename: format!("{uid}.flac"),
        title: uid.into(),
        artist: String::new(),
        album: String::new(),
        genre: String::new(),
        duration_ms: 0,
        bpm: None,
        updated_at,
        present: true,
    }
}

fn manifest(tracks: Vec<TrackEntry>) -> Manifest {
    Manifest {
        device_uid: "dev".into(),
        tracks,
        playlists: Vec::new(),
        memberships: Vec::new(),
        tombstones: Vec::new(),
    }
}

#[test]
fn missing_files_are_planned_in_both_directions() {
    let local = manifest(vec![track("a", Some("h-a"), 0)]);
    let remote = manifest(vec![track("b", Some("h-b"), 0)]);
    let p = plan(&local, &remote);
    assert_eq!(p.pull_files.len(), 1);
    assert_eq!(p.pull_files[0].hash, "h-b");
    assert_eq!(p.push_files.len(), 1);
    assert_eq!(p.push_files[0].hash, "h-a");
    assert_eq!(p.bytes_in(), 1000);
}

#[test]
fn same_content_under_different_uids_is_not_transferred() {
    let local = manifest(vec![track("aca", Some("mismo-hash"), 0)]);
    let remote = manifest(vec![track("alla", Some("mismo-hash"), 0)]);
    let p = plan(&local, &remote);
    assert!(p.pull_files.is_empty());
    assert!(p.push_files.is_empty());
}

#[test]
fn deleted_tracks_are_not_pulled_back() {
    let mut local = manifest(vec![]);
    local.tombstones.push(Tombstone {
        entity: "track".into(),
        uid: "borrado".into(),
        deleted_at: 100,
    });
    let remote = manifest(vec![track("borrado", Some("h"), 0)]);
    let p = plan(&local, &remote);
    assert!(p.pull_files.is_empty(), "no debe volver lo que borré");
    // On the other side there is something to delete.
    assert_eq!(p.deletes_out, 1);
    assert_eq!(p.deletes_in, 0);
}

#[test]
fn newer_metadata_counts_on_the_right_side() {
    let local = manifest(vec![track("x", Some("h"), 100)]);
    let remote = manifest(vec![track("x", Some("h"), 500)]);
    let p = plan(&local, &remote);
    assert_eq!(p.pull_meta, 1);
    assert_eq!(p.push_meta, 0);

    let p = plan(&remote, &local);
    assert_eq!(p.pull_meta, 0);
    assert_eq!(p.push_meta, 1);
}

#[test]
fn tracks_without_hash_do_not_participate() {
    let local = manifest(vec![track("a", None, 0)]);
    let remote = manifest(vec![track("b", None, 0)]);
    let p = plan(&local, &remote);
    assert!(p.pull_files.is_empty());
    assert!(p.push_files.is_empty());
    assert_eq!(p.unhashed, 1);
}

#[test]
fn absent_files_are_not_offered_as_a_source() {
    let mut remote = manifest(vec![track("a", Some("h-a"), 0)]);
    remote.tracks[0].present = false;
    let p = plan(&manifest(vec![]), &remote);
    assert!(p.pull_files.is_empty());
}

#[test]
fn memberships_are_unioned_unless_explicitly_removed() {
    let mut local = manifest(vec![]);
    let mut remote = manifest(vec![]);
    remote.memberships.push(Membership {
        playlist_uid: "pl".into(),
        track_uid: "tr".into(),
        rank: "V".into(),
        added_at: 0,
    });
    // Without a tombstone it has to come.
    assert_eq!(plan(&local, &remote).pull_memberships, 1);

    // With one of this side it does not come back.
    local.tombstones.push(Tombstone {
        entity: "playlist_track".into(),
        uid: "pl:tr".into(),
        deleted_at: 10,
    });
    let p = plan(&local, &remote);
    assert_eq!(p.pull_memberships, 0);
    assert_eq!(p.deletes_out, 1);
}

#[test]
fn playlists_missing_on_either_side_are_counted() {
    let mut local = manifest(vec![]);
    let mut remote = manifest(vec![]);
    local.playlists.push(PlaylistEntry {
        uid: "solo-aca".into(),
        name: "Sets".into(),
        kind: "playlist".into(),
        parent_uid: None,
        rank: "V".into(),
        updated_at: 0,
    });
    remote.playlists.push(PlaylistEntry {
        uid: "solo-alla".into(),
        name: "Warmup".into(),
        kind: "playlist".into(),
        parent_uid: None,
        rank: "V".into(),
        updated_at: 0,
    });
    let p = plan(&local, &remote);
    assert_eq!(p.pull_playlists, 1);
    assert_eq!(p.push_playlists, 1);
}

#[test]
fn tombstones_for_things_the_peer_already_lacks_are_not_counted() {
    let mut local = manifest(vec![]);
    local.tombstones.push(Tombstone {
        entity: "track".into(),
        uid: "fantasma".into(),
        deleted_at: 1,
    });
    let p = plan(&local, &manifest(vec![]));
    assert_eq!(p.deletes_out, 0);
    assert!(p.is_empty());
    assert!(tombstoned(&local, "track", "fantasma"));
    assert!(!tombstoned(&local, "playlist", "fantasma"));
}

#[test]
fn identical_libraries_produce_an_empty_plan() {
    let a = manifest(vec![track("x", Some("h"), 10)]);
    let b = manifest(vec![track("x", Some("h"), 10)]);
    assert!(plan(&a, &b).is_empty());
}

#[test]
fn a_plan_mirrors_that_of_the_other_side() {
    let a = manifest(vec![track("x", Some("h1"), 10), track("y", Some("h2"), 5)]);
    let b = manifest(vec![track("x", Some("h1"), 20), track("z", Some("h3"), 5)]);
    let there = plan(&a, &b);
    let back = plan(&b, &a);
    assert_eq!(there.pull_meta, back.push_meta);
    let hashes = |v: &[sway::manifest::FileTransfer]| -> Vec<String> {
        v.iter().map(|f| f.hash.clone()).collect()
    };
    assert_eq!(hashes(&there.pull_files), hashes(&back.push_files));
    assert_eq!(there.bytes_out(), back.bytes_in());
    assert!(!there.is_empty());
}

#[test]
fn things_are_found_by_their_kind() {
    let m = manifest(vec![track("x", Some("h"), 10)]);
    assert!(exists_in(&m, "track", "x"));
    assert!(!exists_in(&m, "track", "y"));
    assert!(!exists_in(&m, "playlist", "x"));
    assert_eq!(pair_key("pl", "tr"), "pl:tr");
}

#[test]
fn an_empty_library_has_an_empty_inventory() {
    let mut lib = Library::new();
    let m = build(&mut lib);
    assert!(m.tracks.is_empty() && m.playlists.is_empty() && m.tombstones.is_empty());
    assert_eq!(m.device_uid.len(), 36);
    assert_eq!(build(&mut lib).device_uid, m.device_uid);
}

#[test]
fn only_files_that_are_there_are_held() {
    let mut gone = track("b", Some("h-b"), 0);
    gone.present = false;
    let m = manifest(vec![track("a", Some("h-a"), 0), gone, track("c", None, 0)]);
    assert_eq!(held_content(&m), vec!["h-a"]);
}
