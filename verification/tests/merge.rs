use sway::library::{Library, PolicyRow, TombstoneRow, TrackRow};
use sway::manifest::{Manifest, Membership, PlaylistEntry, Tombstone, TrackEntry};
use sway::merge::{
    apply, changes_for_peer, files_to_move_away, playlist_is_newer, policy_for, split_at_colon,
    tombstone_at_in, Applied, Changes, DeletePolicy,
};
use sway::uidset::UidSet;

fn track_row(id: i64, path: &str, uid: &str, title: &str, updated_at: i64) -> TrackRow {
    TrackRow {
        id,
        path: path.to_string(),
        title: title.to_string(),
        artist: String::new(),
        album: String::new(),
        genre: String::new(),
        duration_ms: 0,
        bpm: None,
        uid: Some(uid.to_string()),
        content_hash: None,
        rel_path: None,
        size_bytes: None,
        mtime_ms: None,
        updated_at,
        local_state: "present".to_string(),
    }
}

fn add_track(lib: &mut Library, uid: &str, title: &str, updated_at: i64) {
    let id = lib.tracks.len() as i64 + 1;
    lib.tracks.push(track_row(id, &format!("/m/{uid}"), uid, title, updated_at));
}

fn entry(uid: &str, title: &str, updated_at: i64) -> TrackEntry {
    TrackEntry {
        uid: uid.into(),
        hash: Some("h".into()),
        size: 1,
        filename: format!("{uid}.flac"),
        title: title.into(),
        artist: "A".into(),
        album: String::new(),
        genre: String::new(),
        duration_ms: 0,
        bpm: None,
        updated_at,
        present: true,
    }
}

fn pl(uid: &str, name: &str, parent: Option<&str>, updated_at: i64) -> PlaylistEntry {
    PlaylistEntry {
        uid: uid.into(),
        name: name.into(),
        kind: if parent.is_none() && uid.starts_with("f") {
            "folder".into()
        } else {
            "playlist".into()
        },
        parent_uid: parent.map(|s| s.to_string()),
        rank: "V".into(),
        updated_at,
    }
}

fn take(lib: &mut Library, changes: &Changes) -> Applied {
    apply(lib, changes, DeletePolicy::Propagate, &UidSet::new())
}

fn bury(lib: &mut Library, entity: &str, uid: &str, deleted_at: i64) {
    lib.tombstones.push(TombstoneRow {
        entity: entity.to_string(),
        uid: uid.to_string(),
        deleted_at,
        device_uid: String::new(),
    });
}

fn has_tombstone(lib: &Library, entity: &str, uid: &str) -> bool {
    lib.tombstones.iter().any(|t| t.entity == entity && t.uid == uid)
}

#[test]
fn newer_metadata_wins_and_older_is_ignored() {
    let mut lib = Library::new();
    add_track(&mut lib, "t1", "viejo", 100);
    let changes = Changes { tracks: vec![entry("t1", "nuevo", 500)], ..Default::default() };
    assert_eq!(take(&mut lib, &changes).tracks, 1);
    assert_eq!(lib.tracks[0].title, "nuevo");

    // An older change writes over nothing.
    let old = Changes { tracks: vec![entry("t1", "anterior", 200)], ..Default::default() };
    assert_eq!(take(&mut lib, &old).tracks, 0);
    assert_eq!(lib.tracks[0].title, "nuevo");
}

#[test]
fn applying_twice_is_a_no_op() {
    let mut lib = Library::new();
    add_track(&mut lib, "t1", "viejo", 100);
    let changes = Changes {
        tracks: vec![entry("t1", "nuevo", 500)],
        playlists: vec![pl("p1", "Sets", None, 10)],
        memberships: vec![member("V", 0)],
        ..Default::default()
    };
    let first = take(&mut lib, &changes);
    assert!(first.total() > 0);
    let second = take(&mut lib, &changes);
    assert_eq!(second.total(), 0, "la segunda pasada no debe cambiar nada");
}

#[test]
fn deleting_a_track_twice_changes_nothing_more() {
    let mut lib = Library::new();
    add_track(&mut lib, "t1", "old", 100);
    add_track(&mut lib, "t2", "old", 100);
    let changes = Changes {
        tracks: vec![entry("t1", "new", 500), entry("t2", "new", 500)],
        playlists: vec![pl("p1", "Sets", None, 10)],
        memberships: vec![member("V", 5)],
        tombstones: vec![tomb("track", "t1")],
    };
    let first = take(&mut lib, &changes);
    assert_eq!((first.tracks, first.memberships, first.deleted), (2, 1, 1));
    assert_eq!((lib.tracks.len(), lib.playlist_tracks.len()), (1, 0));
    assert_eq!(take(&mut lib, &changes).total(), 0);
    assert_eq!((lib.tracks.len(), lib.playlist_tracks.len()), (1, 0));
    assert_eq!(lib.tracks[0].title, "new");
}

#[test]
fn pairs_that_share_a_joined_name_are_taken_once() {
    let mut lib = Library::new();
    add_track(&mut lib, "c", "x", 1);
    add_track(&mut lib, "b:c", "x", 1);
    let place = |playlist: &str, track: &str| Membership {
        playlist_uid: playlist.to_string(),
        track_uid: track.to_string(),
        rank: "V".to_string(),
        added_at: 5,
    };
    let changes = Changes {
        playlists: vec![pl("a", "A", None, 10), pl("a:b", "AB", None, 10)],
        memberships: vec![place("a", "b:c"), place("a:b", "c")],
        ..Default::default()
    };
    assert_eq!(take(&mut lib, &changes).memberships, 2);
    assert_eq!(take(&mut lib, &changes).total(), 0);
    assert_eq!(lib.playlist_tracks.len(), 2);
}

#[test]
fn deletions_follow_what_was_chosen_for_a_device() {
    let mut lib = Library::new();
    assert_eq!(policy_for(&lib, "pc"), DeletePolicy::Propagate);
    for (device_uid, deletes) in [("pc", "ask"), ("phone", "ignore"), ("tv", "?")] {
        lib.sync_policy.push(PolicyRow {
            device_uid: device_uid.to_string(),
            deletes: deletes.to_string(),
        });
    }
    assert_eq!(policy_for(&lib, "pc"), DeletePolicy::Ask);
    assert_eq!(policy_for(&lib, "phone"), DeletePolicy::Ignore);
    assert_eq!(policy_for(&lib, "tv"), DeletePolicy::Propagate);
    assert_eq!(policy_for(&lib, "nobody"), DeletePolicy::Propagate);
}

#[test]
fn hierarchy_resolves_regardless_of_arrival_order() {
    let mut lib = Library::new();
    let changes = Changes {
        // The child first, its parent after it.
        playlists: vec![
            pl("p1", "Warmup", Some("f1"), 10),
            pl("f1", "Electronica", None, 10),
        ],
        ..Default::default()
    };
    take(&mut lib, &changes);

    let of = |uid: &str| lib.playlists.iter().find(|p| p.uid.as_deref() == Some(uid)).unwrap();
    assert_eq!(of("p1").parent_id, Some(of("f1").id));
}

#[test]
fn an_older_entry_moves_no_playlist() {
    let mut lib = Library::new();
    let now = Changes {
        playlists: vec![pl("f1", "Folder", None, 10), pl("p1", "Sets", Some("f1"), 50)],
        ..Default::default()
    };
    take(&mut lib, &now);
    let folder = lib.playlists[0].id;
    assert_eq!(lib.playlists[1].parent_id, Some(folder));

    for stale in [40, 50] {
        let old = Changes { playlists: vec![pl("p1", "Old", None, stale)], ..Default::default() };
        assert_eq!(take(&mut lib, &old).playlists, 0);
        assert_eq!(lib.playlists[1].name, "Sets");
        assert_eq!(lib.playlists[1].parent_id, Some(folder));
    }

    let newer = Changes { playlists: vec![pl("p1", "New", None, 60)], ..Default::default() };
    assert_eq!(take(&mut lib, &newer).playlists, 1);
    assert_eq!(lib.playlists[1].name, "New");
    assert_eq!(lib.playlists[1].parent_id, None);
}

#[test]
fn tombstoned_playlists_are_not_recreated() {
    let mut lib = Library::new();
    bury(&mut lib, "playlist", "p1", 999);
    let changes = Changes { playlists: vec![pl("p1", "Sets", None, 10)], ..Default::default() };
    assert_eq!(take(&mut lib, &changes).playlists, 0);
    assert_eq!(lib.playlists.len(), 0);
}

#[test]
fn removed_membership_stays_removed_only_with_a_tombstone() {
    let mut lib = Library::new();
    add_track(&mut lib, "t1", "x", 1);
    take(
        &mut lib,
        &Changes { playlists: vec![pl("p1", "Sets", None, 10)], ..Default::default() },
    );
    let member = Changes { memberships: vec![member("V", 0)], ..Default::default() };
    assert_eq!(take(&mut lib, &member).memberships, 1);

    // It is taken out here, on record.
    lib.playlist_tracks.clear();
    bury(&mut lib, "playlist_track", "p1:t1", 999);
    assert_eq!(take(&mut lib, &member).memberships, 0, "no debe volver");
}

#[test]
fn membership_of_an_unknown_track_is_skipped() {
    let mut lib = Library::new();
    let changes = Changes {
        playlists: vec![pl("p1", "Sets", None, 10)],
        memberships: vec![Membership {
            playlist_uid: "p1".into(),
            track_uid: "todavia-no".into(),
            rank: "V".into(),
            added_at: 0,
        }],
        ..Default::default()
    };
    let applied = take(&mut lib, &changes);
    assert_eq!(applied.playlists, 1);
    assert_eq!(applied.memberships, 0);
}

#[test]
fn metadata_for_an_unknown_track_does_not_create_a_row() {
    let mut lib = Library::new();
    let changes = Changes { tracks: vec![entry("nunca-visto", "x", 10)], ..Default::default() };
    assert_eq!(take(&mut lib, &changes).tracks, 0);
    assert_eq!(lib.tracks.len(), 0);
}

fn tomb(entity: &str, uid: &str) -> Tombstone {
    Tombstone { entity: entity.into(), uid: uid.into(), deleted_at: 1000 }
}

#[test]
fn a_propagated_delete_moves_the_file_to_the_trash() {
    let mut lib = Library::new();
    lib.tracks.push(track_row(1, "/m/borrado.flac", "t1", "x", 1));
    let changes = Changes { tombstones: vec![tomb("track", "t1")], ..Default::default() };
    assert_eq!(
        files_to_move_away(&lib, &changes, DeletePolicy::Propagate),
        vec![("t1".to_string(), "/m/borrado.flac".to_string())]
    );
    let applied = take(&mut lib, &changes);
    assert_eq!(applied.deleted, 1);
    assert_eq!(lib.tracks.len(), 0, "sale de la biblioteca");
}

#[test]
fn a_file_that_could_not_be_moved_keeps_its_track() {
    let mut lib = Library::new();
    add_track(&mut lib, "t1", "x", 1);
    let changes = Changes { tombstones: vec![tomb("track", "t1")], ..Default::default() };
    let mut stuck = UidSet::new();
    stuck.insert("t1".to_string());
    assert_eq!(apply(&mut lib, &changes, DeletePolicy::Propagate, &stuck).deleted, 0);
    assert_eq!(lib.tracks.len(), 1);
    assert!(has_tombstone(&lib, "track", "t1"));
}

#[test]
fn an_ignored_delete_keeps_the_track_but_records_the_tombstone() {
    let mut lib = Library::new();
    add_track(&mut lib, "t1", "x", 1);
    let changes = Changes { tombstones: vec![tomb("track", "t1")], ..Default::default() };
    assert!(files_to_move_away(&lib, &changes, DeletePolicy::Ignore).is_empty());
    let applied = apply(&mut lib, &changes, DeletePolicy::Ignore, &UidSet::new());
    assert_eq!(applied.deleted, 0);
    assert_eq!(lib.tracks.len(), 1);
    assert!(has_tombstone(&lib, "track", "t1"), "igual queda constancia");
}

#[test]
fn deleting_a_playlist_does_not_delete_its_tracks() {
    let mut lib = Library::new();
    add_track(&mut lib, "t1", "x", 1);
    take(
        &mut lib,
        &Changes {
            playlists: vec![pl("p1", "Sets", None, 10)],
            memberships: vec![member("V", 0)],
            ..Default::default()
        },
    );
    let changes = Changes { tombstones: vec![tomb("playlist", "p1")], ..Default::default() };
    assert!(files_to_move_away(&lib, &changes, DeletePolicy::Propagate).is_empty());
    take(&mut lib, &changes);
    assert_eq!(lib.playlists.len(), 0);
    assert_eq!(lib.tracks.len(), 1, "el track sigue en la biblioteca");
}

fn manifest_with(playlist_updated: i64, rank: &str) -> Manifest {
    Manifest {
        device_uid: "d".into(),
        tracks: vec![entry("t1", "x", 1)],
        playlists: vec![pl("p1", "Sets", None, playlist_updated)],
        memberships: vec![member(rank, 1)],
        tombstones: vec![],
    }
}

#[test]
fn reordering_travels_when_the_playlist_is_newer() {
    let reordenada = manifest_with(500, "b");
    let vieja = manifest_with(100, "a");

    let c = changes_for_peer(&reordenada, &vieja);
    assert_eq!(c.memberships.len(), 1, "el rank nuevo tiene que viajar");
    assert_eq!(c.memberships[0].rank, "b");

    // Not in the other direction: whoever touched it last decides.
    let c = changes_for_peer(&vieja, &reordenada);
    assert!(c.memberships.is_empty());
    assert!(playlist_is_newer(&reordenada, &vieja, "p1"));
    assert!(!playlist_is_newer(&vieja, &reordenada, "p1"));
}

#[test]
fn an_unchanged_order_is_not_resent() {
    let a = manifest_with(500, "a");
    let b = manifest_with(100, "a");
    assert!(changes_for_peer(&a, &b).memberships.is_empty());
}

#[test]
fn applying_a_reorder_updates_the_existing_rank() {
    let mut lib = Library::new();
    add_track(&mut lib, "t1", "x", 1);
    let base = Changes {
        playlists: vec![pl("p1", "Sets", None, 10)],
        memberships: vec![member("a", 0)],
        ..Default::default()
    };
    take(&mut lib, &base);

    let reorder = Changes { memberships: vec![member("z", 0)], ..Default::default() };
    assert_eq!(take(&mut lib, &reorder).memberships, 1);
    assert_eq!(lib.playlist_tracks[0].rank, "z");

    // Taking it in again is no work.
    assert_eq!(take(&mut lib, &reorder).memberships, 0);
}

fn empty_manifest() -> Manifest {
    Manifest {
        device_uid: "d".into(),
        tracks: vec![],
        playlists: vec![],
        memberships: vec![],
        tombstones: vec![],
    }
}

fn member(rank: &str, added_at: i64) -> Membership {
    Membership {
        playlist_uid: "p1".into(),
        track_uid: "t1".into(),
        rank: rank.into(),
        added_at,
    }
}

fn removal(deleted_at: i64) -> Changes {
    Changes {
        tombstones: vec![Tombstone {
            entity: "playlist_track".into(),
            uid: "p1:t1".into(),
            deleted_at,
        }],
        ..Default::default()
    }
}

#[test]
fn re_adding_a_track_beats_an_older_removal() {
    let mut lib = Library::new();
    add_track(&mut lib, "t1", "x", 1);
    take(
        &mut lib,
        &Changes { playlists: vec![pl("p1", "Sets", None, 10)], ..Default::default() },
    );

    // It was taken out a while ago, and now it is added again.
    bury(&mut lib, "playlist_track", "p1:t1", 100);
    let re_add = Changes { memberships: vec![member("V", 500)], ..Default::default() };
    assert_eq!(take(&mut lib, &re_add).memberships, 1);

    // The old tombstone goes.
    assert!(!has_tombstone(&lib, "playlist_track", "p1:t1"));

    // A later one wins.
    assert_eq!(take(&mut lib, &removal(900)).deleted, 1);
}

#[test]
fn an_older_removal_does_not_undo_a_newer_add() {
    let mut lib = Library::new();
    add_track(&mut lib, "t1", "x", 1);
    take(
        &mut lib,
        &Changes {
            playlists: vec![pl("p1", "Sets", None, 10)],
            memberships: vec![member("V", 800)],
            ..Default::default()
        },
    );

    assert_eq!(take(&mut lib, &removal(200)).deleted, 0);
    assert_eq!(lib.playlist_tracks.len(), 1, "la canción se queda");
}

#[test]
fn a_newer_add_is_still_sent_despite_an_older_remote_tombstone() {
    let mut local = empty_manifest();
    local.playlists.push(pl("p1", "Sets", None, 10));
    local.memberships.push(member("V", 500));

    let mut remote = empty_manifest();
    remote.playlists.push(pl("p1", "Sets", None, 10));
    remote.tombstones.push(Tombstone {
        entity: "playlist_track".into(),
        uid: "p1:t1".into(),
        deleted_at: 100,
    });

    assert_eq!(changes_for_peer(&local, &remote).memberships.len(), 1);

    // If the tombstone of the other side is later, it is not sent.
    remote.tombstones[0].deleted_at = 900;
    assert!(changes_for_peer(&local, &remote).memberships.is_empty());
    assert_eq!(tombstone_at_in(&remote, "playlist_track", "p1:t1"), Some(900));
    assert_eq!(tombstone_at_in(&remote, "track", "p1:t1"), None);
}

#[test]
fn changes_for_peer_only_includes_what_is_newer_or_missing() {
    let local = Manifest {
        device_uid: "a".into(),
        tracks: vec![entry("t1", "nuevo", 500), entry("t2", "igual", 100)],
        playlists: vec![pl("p1", "Sets", None, 50)],
        memberships: vec![member("V", 0)],
        tombstones: vec![],
    };
    let remote = Manifest {
        device_uid: "b".into(),
        tracks: vec![entry("t1", "viejo", 100), entry("t2", "igual", 100)],
        playlists: vec![],
        memberships: vec![],
        tombstones: vec![],
    };
    let c = changes_for_peer(&local, &remote);
    assert_eq!(c.tracks.len(), 1, "sólo t1, que es más nuevo");
    assert_eq!(c.tracks[0].uid, "t1");
    assert_eq!(c.playlists.len(), 1);
    assert_eq!(c.memberships.len(), 1);
}

#[test]
fn two_devices_end_up_alike() {
    let mut a = Library::new();
    let mut b = Library::new();
    add_track(&mut a, "t1", "from a", 100);
    add_track(&mut a, "t2", "from a", 900);
    add_track(&mut b, "t1", "from b", 500);
    add_track(&mut b, "t2", "from b", 500);
    let ma = sway::manifest::build(&mut a);
    let mb = sway::manifest::build(&mut b);
    take(&mut a, &changes_for_peer(&mb, &ma));
    take(&mut b, &changes_for_peer(&ma, &mb));
    for lib in [&a, &b] {
        assert_eq!(lib.tracks[0].title, "from b");
        assert_eq!(lib.tracks[1].title, "from a");
    }
}

#[test]
fn playlists_and_places_arrive() {
    let mut a = Library::new();
    let mut b = Library::new();
    add_track(&mut a, "t1", "x", 100);
    add_track(&mut b, "t1", "x", 100);
    take(
        &mut a,
        &Changes {
            playlists: vec![pl("f1", "Folder", None, 10), pl("p1", "Sets", Some("f1"), 10)],
            memberships: vec![member("V", 5)],
            ..Default::default()
        },
    );
    let ma = sway::manifest::build(&mut a);
    let mb = sway::manifest::build(&mut b);
    take(&mut b, &changes_for_peer(&ma, &mb));
    let names: Vec<&str> = b.playlists.iter().map(|p| p.name.as_str()).collect();
    assert_eq!(names, vec!["Folder", "Sets"]);
    assert_eq!(b.playlists[1].parent_id, Some(b.playlists[0].id));
    assert_eq!(b.playlist_tracks.len(), 1);
    assert_eq!(b.playlist_tracks[0].playlist_id, b.playlists[1].id);
    assert_eq!(b.playlist_tracks[0].track_id, b.tracks[0].id);
}

#[test]
fn policies_are_read_from_settings() {
    assert_eq!(DeletePolicy::from_setting("ignore"), DeletePolicy::Ignore);
    assert_eq!(DeletePolicy::from_setting("propagate"), DeletePolicy::Propagate);
    assert_eq!(split_at_colon("a:b:c"), Some(("a".to_string(), "b:c".to_string())));
    assert_eq!(split_at_colon("abc"), None);
}
