use sway::dates::{civil_from_days, compact_timestamp, itunes_date, utc_parts};
use sway::db::{add_tracks_to_playlist, create_playlist, list_tracks};
use sway::export_xml::{
    ensure_trailing_sep, fnv1a_hex, generate_xml, is_illegal_ctrl, kv_date, kv_integer, kv_string,
    percent_encode_segment, persistent_id_playlist, persistent_id_track, playlist_entry, playlist_items_block,
    to_itunes_location, track_dict, xml_escape, FileFacts,
};
use sway::import::{insert_track, Meta};
use sway::library::Library;

const DIR: &str = r"C:\Music\Sway";

fn add_track(lib: &mut Library, path: &str, title: &str) -> i64 {
    let meta = Meta {
        title: title.to_string(),
        artist: String::new(),
        album: String::new(),
        genre: String::new(),
        duration_ms: 0,
        bpm: None,
    };
    insert_track(lib, path, &meta)
}

#[test]
fn doctype_matches_apple_itunes_exact() {
    let xml = generate_xml(&Library::new(), DIR, &[], 0);
    assert!(xml.contains("-//Apple Computer//DTD PLIST 1.0//EN"));
    assert!(!xml.contains("-//Apple//DTD"));
}

#[test]
fn music_folder_comes_after_playlists_array() {
    let xml = generate_xml(&Library::new(), DIR, &[], 0);
    let playlists_close = xml.find("</array>\n\t<key>Music Folder</key>");
    assert!(
        playlists_close.is_some(),
        "Music Folder debe venir justo despues del cierre de Playlists"
    );
}

#[test]
fn contains_sway_generator_marker() {
    let xml = generate_xml(&Library::new(), DIR, &[], 0);
    assert!(xml.contains("<key>Sway Generator</key><true/>"));
}

#[test]
fn folder_playlist_items_is_union_of_children() {
    let mut lib = Library::new();
    let t1 = add_track(&mut lib, r"C:\Music\a.flac", "A");
    let t2 = add_track(&mut lib, r"C:\Music\b.flac", "B");
    let folder = create_playlist(&mut lib, "Sets", "folder", None).unwrap();
    let p1 = create_playlist(&mut lib, "P1", "playlist", Some(folder)).unwrap();
    let p2 = create_playlist(&mut lib, "P2", "playlist", Some(folder)).unwrap();
    add_tracks_to_playlist(&mut lib, p1, &[t1]).unwrap();
    add_tracks_to_playlist(&mut lib, p2, &[t2]).unwrap();

    let xml = generate_xml(&lib, DIR, &[], 0);
    let folder_persist = persistent_id_playlist(folder);
    let folder_block_start = xml.find(&folder_persist).unwrap();
    let folder_block = &xml[folder_block_start..];
    let items_end = folder_block.find("</array>").unwrap();
    let items_block = &folder_block[..items_end];
    assert!(items_block.contains(&format!("<integer>{t1}</integer>")));
    assert!(items_block.contains(&format!("<integer>{t2}</integer>")));
}

#[test]
fn xml_escape_collapses_nul_and_escapes_amp() {
    let out = xml_escape("Foo\u{0}Bar & Baz");
    assert_eq!(out, "Foo / Bar &amp; Baz");
}

#[test]
fn persistent_ids_are_stable_across_calls() {
    let mut lib = Library::new();
    add_track(&mut lib, r"C:\Music\a.flac", "A");
    let xml1 = generate_xml(&lib, DIR, &[], 0);
    let xml2 = generate_xml(&lib, DIR, &[], 0);
    assert_eq!(xml1, xml2);
}

#[test]
fn an_empty_library_is_written_in_full() {
    let xml = generate_xml(&Library::new(), DIR, &[], 1784776297);
    let head = concat_lines(&[
        "<?xml version=\"1.0\" encoding=\"UTF-8\"?>",
        "<!DOCTYPE plist PUBLIC \"-//Apple Computer//DTD PLIST 1.0//EN\" \"http://www.apple.com/DTDs/PropertyList-1.0.dtd\">",
        "<plist version=\"1.0\">",
        "<dict>",
        "\t<key>Major Version</key><integer>1</integer>",
        "\t<key>Minor Version</key><integer>1</integer>",
        "\t<key>Application Version</key><string>12.13.10.3</string>",
        "\t<key>Date</key><date>2026-07-23T03:11:37Z</date>",
    ]);
    assert!(xml.starts_with(&head), "{xml}");
    assert!(xml.ends_with("</dict>\n</plist>\n"));
}

fn concat_lines(lines: &[&str]) -> String {
    lines.iter().map(|l| format!("{l}\n")).collect()
}

#[test]
fn special_characters_are_escaped() {
    assert_eq!(xml_escape("a<b>\"c'd"), "a&lt;b&gt;&quot;c'd");
    assert_eq!(xml_escape("\u{0}\u{0}x\u{0}"), " / x / ");
    assert_eq!(xml_escape("a\u{1}b"), "a / b");
    assert_eq!(xml_escape("tab\there"), "tab\there");
    assert!(is_illegal_ctrl('\u{8}'));
    assert!(!is_illegal_ctrl('\n'));
}

#[test]
fn pairs_are_written_on_lines() {
    assert_eq!(kv_string("Name", "a&b"), "\t\t\t<key>Name</key><string>a&amp;b</string>\n");
    assert_eq!(kv_integer("Size", -3), "\t\t\t<key>Size</key><integer>-3</integer>\n");
    assert_eq!(
        kv_date("Date Added", "2020"),
        "\t\t\t<key>Date Added</key><date>2020</date>\n"
    );
    assert!(!playlist_items_block(&[]).contains("integer"));
    assert!(playlist_items_block(&[7, 9]).contains("<key>Track ID</key><integer>9</integer>"));
}

#[test]
fn ids_are_sixteen_digits() {
    assert_eq!(persistent_id_track(1).len(), 16);
    assert_ne!(persistent_id_track(1), persistent_id_playlist(1));
    assert_eq!(persistent_id_track(1), "0000000000000001");
    assert_eq!(persistent_id_playlist(1), "8000000000000001");
    let high = 0x4000_0000_0000_0001;
    assert_ne!(persistent_id_track(high), persistent_id_playlist(1));
    assert_eq!(fnv1a_hex(""), "CBF29CE484222325");
    assert_eq!(fnv1a_hex("a"), "AF63DC4C8601EC8C");
}

#[test]
fn locations_are_urls() {
    assert_eq!(percent_encode_segment("a b#c"), "a%20b%23c");
    assert_eq!(percent_encode_segment("ñ"), "%C3%B1");
    assert_eq!(
        to_itunes_location(r"C:\Music\My Song.flac"),
        "file://localhost/C:/Music/My%20Song.flac"
    );
    assert_eq!(to_itunes_location("/home/x/a.mp3"), "file://localhost/home/x/a.mp3");
    assert_eq!(ensure_trailing_sep("/m/"), "/m/");
    assert!(ensure_trailing_sep("/m").len() == 3);
}

#[test]
fn a_track_is_described() {
    let mut lib = Library::new();
    let id = add_track(&mut lib, "/m/a.mp3", "A");
    let tracks = list_tracks(&lib);
    let facts = FileFacts {
        id,
        size: Some(4000),
        modified_secs: Some(0),
        extension: "mp3".to_string(),
    };
    let d = track_dict(&tracks[0], &facts, 0);
    assert!(d.contains("<key>Size</key><integer>4000</integer>"), "{d}");
    assert!(d.contains("1970-01-01T00:00:00Z"), "{d}");
    assert!(d.contains("file://localhost/m/a.mp3"), "{d}");
}

#[test]
fn days_are_dates() {
    assert_eq!(civil_from_days(0), (1970, 1, 1));
    assert_eq!(civil_from_days(-1), (1969, 12, 31));
    assert_eq!(civil_from_days(11_016), (2000, 2, 29));
    assert_eq!(civil_from_days(20_657), (2026, 7, 23));
    assert_eq!(itunes_date(951_782_400), "2000-02-29T00:00:00Z");
    assert_eq!(compact_timestamp(1784776297), "20260723-031137");
    let p = utc_parts(86399);
    assert_eq!((p.hour, p.minute, p.second), (23, 59, 59));
}

#[test]
fn a_deep_playlist_is_written_in_its_folder() {
    let mut lib = Library::new();
    let t1 = add_track(&mut lib, "/m/a.mp3", "A");
    let t2 = add_track(&mut lib, "/m/b.mp3", "B");
    let outer = create_playlist(&mut lib, "Outer", "folder", None).unwrap();
    let middle = create_playlist(&mut lib, "Middle", "folder", Some(outer)).unwrap();
    let inner = create_playlist(&mut lib, "Inner", "folder", Some(middle)).unwrap();
    let deep = create_playlist(&mut lib, "Deep", "playlist", Some(inner)).unwrap();
    add_tracks_to_playlist(&mut lib, deep, &[t2, t1]).unwrap();

    let xml = generate_xml(&lib, DIR, &[], 0);
    let parent = Some(persistent_id_playlist(inner));
    let entry =
        playlist_entry("Deep", 1004, &persistent_id_playlist(deep), &parent, &[t2, t1]);
    assert!(xml.contains(&entry), "{xml}");

    // Every folder above it lists its tracks.
    for folder in [outer, middle, inner] {
        let start = xml.find(&persistent_id_playlist(folder)).unwrap();
        let end = start + xml[start..].find("</array>").unwrap();
        assert!(xml[start..end].contains(&format!("<integer>{t1}</integer>")));
        assert!(xml[start..end].contains(&format!("<integer>{t2}</integer>")));
    }
}
