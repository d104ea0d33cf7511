use sway::import::{
    fill_meta, free_name, insert_track, is_audio, managed_dest_for, managed_name, meta_from_name,
    read_meta, FolderEntry, Meta, Reading, TagFields,
};
use sway::library::Library;

fn there(names: &[(&str, u64)]) -> Vec<FolderEntry> {
    names.iter().map(|(n, s)| FolderEntry { name: n.to_string(), size: Some(*s) }).collect()
}

#[test]
fn audio_is_known_by_its_extension() {
    for e in ["mp3", "FLAC", "m4a", "wav", "ogg"] {
        assert!(is_audio(Some(e)), "{e}");
    }
    assert!(!is_audio(Some("txt")));
    assert!(!is_audio(None));
}

#[test]
fn a_taken_name_gets_a_number() {
    let e = there(&[("a.mp3", 5), ("a (2).mp3", 6), ("b", 1)]);
    assert_eq!(managed_name(&e, "c.mp3", Some("c"), Some("mp3"), Some(9)), "c.mp3");
    assert_eq!(managed_name(&e, "a.mp3", Some("a"), Some("mp3"), Some(5)), "a.mp3");
    assert_eq!(managed_name(&e, "a.mp3", Some("a"), Some("mp3"), Some(9)), "a (3).mp3");
    assert_eq!(managed_name(&e, "a.mp3", Some("a"), Some("mp3"), None), "a (3).mp3");
    assert_eq!(managed_dest_for(&e, "b", Some("b"), None, 2), "b (2)");
    assert_eq!(free_name(&e, "a", "mp3"), "a (3).mp3");
}

#[test]
fn tags_fill_in_what_is_known() {
    let mut m = meta_from_name(Some("song"));
    assert_eq!(m.title, "song");
    let tag = TagFields {
        title: Some("Real".to_string()),
        artist: Some("X".to_string()),
        album: None,
        genre: None,
        bpm: Some("128".to_string()),
    };
    fill_meta(&mut m, 1234, Some(&tag));
    assert_eq!((m.title.as_str(), m.artist.as_str()), ("Real", "X"));
    assert_eq!((m.duration_ms, m.bpm), (1234, Some(128)));
    let mut bare = meta_from_name(None);
    fill_meta(&mut bare, 7, None);
    assert_eq!((bare.title.as_str(), bare.duration_ms), ("", 7));
}

#[test]
fn a_spoilt_tag_still_gives_the_length() {
    let reading = |title: &str, ms: i64| Reading {
        duration_ms: ms,
        tag: Some(TagFields {
            title: Some(title.to_string()),
            artist: None,
            album: None,
            genre: None,
            bpm: None,
        }),
    };
    let (whole, mended) = (reading("whole", 1), reading("mended", 2));
    let m = read_meta(Some("song"), Some(&whole), Some(&mended), Some(3));
    assert_eq!((m.title.as_str(), m.duration_ms), ("whole", 1));
    let m = read_meta(Some("song"), None, Some(&mended), Some(3));
    assert_eq!((m.title.as_str(), m.duration_ms), ("mended", 2));
    let m = read_meta(Some("song"), None, None, Some(3));
    assert_eq!((m.title.as_str(), m.duration_ms), ("song", 3));
    let m = read_meta(Some("song"), None, None, None);
    assert_eq!((m.title.as_str(), m.duration_ms), ("song", 0));
}

#[test]
fn reading_a_file_again_wipes_out_nothing() {
    let full = Meta {
        title: "T".to_string(),
        artist: "A".to_string(),
        album: String::new(),
        genre: "G".to_string(),
        duration_ms: 900,
        bpm: Some(120),
    };
    let mut lib = Library::new();
    let id = insert_track(&mut lib, "/m/a", &full);
    let again = insert_track(&mut lib, "/m/a", &meta_from_name(None));
    assert_eq!(id, again);
    assert_eq!(lib.tracks.len(), 1);
    assert_eq!(lib.tracks[0].artist, "A");
    assert_eq!((lib.tracks[0].duration_ms, lib.tracks[0].bpm), (900, Some(120)));
    assert_ne!(insert_track(&mut lib, "/m/b", &full), id);
}
