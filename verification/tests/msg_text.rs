use sway::manifest::{Manifest, Membership, PlaylistEntry, Tombstone, TrackEntry};
use sway::merge::{Applied, Changes};
use sway::msg_text::write_msg;
use sway::wire::{Mark, Msg};

fn track(uid: &str, hash: Option<&str>) -> TrackEntry {
    TrackEntry {
        uid: uid.to_string(),
        hash: hash.map(|h| h.to_string()),
        size: -3,
        filename: "a \"b\"\n.mp3".to_string(),
        title: "Canción\u{0}\u{301}".to_string(),
        artist: "\\".to_string(),
        album: String::new(),
        genre: "\t'".to_string(),
        duration_ms: i64::MIN,
        bpm: Some(128),
        updated_at: i64::MAX,
        present: true,
    }
}

fn playlist(parent: Option<&str>) -> PlaylistEntry {
    PlaylistEntry {
        uid: "p".to_string(),
        name: "Sets".to_string(),
        kind: "folder".to_string(),
        parent_uid: parent.map(|p| p.to_string()),
        rank: "V".to_string(),
        updated_at: 7,
    }
}

fn place() -> Membership {
    Membership {
        playlist_uid: "p".to_string(),
        track_uid: "t".to_string(),
        rank: "V".to_string(),
        added_at: 9,
    }
}

fn grave() -> Tombstone {
    Tombstone { entity: "track".to_string(), uid: "t".to_string(), deleted_at: 1 }
}

/// One message of each sort.
fn messages() -> Vec<Msg> {
    let t = |s: &str| s.to_string();
    vec![
        Msg::PairRequest { uid: t("u"), name: t("PC"), platform: t("windows"), token: None },
        Msg::PairRequest { uid: t("u"), name: t("PC"), platform: t(""), token: Some(t("x")) },
        Msg::PairResponse { accepted: true },
        Msg::PairAck { accepted: false },
        Msg::Hello {
            uid: t("u"),
            name: t("n"),
            platform: t("p"),
            tracks: 1,
            playlists: -2,
            clock_ms: 3,
        },
        Msg::Reject { reason: t("no \"way\"") },
        Msg::Unpair { uid: t("u") },
        Msg::NotPaired,
        Msg::ManifestReq,
        Msg::ManifestData {
            manifest: Box::new(Manifest {
                device_uid: t("d"),
                tracks: vec![track("a", None), track("b", Some("h")), track("c", None)],
                playlists: vec![playlist(None), playlist(Some("f"))],
                memberships: vec![place()],
                tombstones: vec![],
            }),
        },
        Msg::BlobReq { hash: t("h"), offset: u64::MAX },
        Msg::BlobStart { size: 0 },
        Msg::BlobEnd { hash: t("h") },
        Msg::BlobPush {
            track_uid: t("u"),
            hash: t("h"),
            filename: t("f"),
            size: 1,
            title: t("t"),
            artist: t("a"),
            album: t("b"),
            genre: t("g"),
            duration_ms: 2,
            bpm: None,
            updated_at: 3,
        },
        Msg::BlobError { reason: t("gone") },
        Msg::MetaPush {
            changes: Box::new(Changes {
                tracks: vec![],
                playlists: vec![playlist(None)],
                memberships: vec![place(), place()],
                tombstones: vec![grave()],
            }),
        },
        Msg::MetaAck {
            applied: Applied { tracks: 1, playlists: 2, memberships: 3, deleted: usize::MAX },
        },
        Msg::Watch { since: None },
        Msg::Watch { since: Some(Mark { revision: 4 }) },
        Msg::Ping { mark: Mark { revision: -1 } },
        Msg::Changed { mark: Mark { revision: 5 } },
        Msg::Bye,
    ]
}

#[test]
fn messages_are_written_out_in_full() {
    for m in messages() {
        assert_eq!(write_msg(&m), format!("{m:?}"));
    }
    assert_eq!(write_msg(&Msg::Bye), "Bye");
    assert_eq!(write_msg(&Msg::BlobStart { size: 12 }), "BlobStart { size: 12 }");
    assert_eq!(
        write_msg(&Msg::Reject { reason: "a \"b\"".to_string() }),
        r#"Reject { reason: "a \"b\"" }"#
    );
}
