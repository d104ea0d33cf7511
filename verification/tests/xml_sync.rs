use sway::db::set_auto_sync_xml;
use sway::library::Library;
use sway::xml_sync::{backup_if_foreign, first_backup_name, is_ours, write_if_enabled};

const STEM: Option<&str> = Some("iTunes Music Library");
const EXT: Option<&str> = Some("xml");

#[test]
fn no_backup_when_target_missing() {
    assert_eq!(backup_if_foreign(None, STEM, EXT, false, 0), None);
}

#[test]
fn no_backup_when_marker_present() {
    let ours = "<plist><key>Sway Generator</key><true/></plist>";
    assert_eq!(
        backup_if_foreign(Some(ours), STEM, EXT, false, 0),
        None,
        "our own file must not be moved"
    );
}

#[test]
fn backup_renames_in_place_when_foreign() {
    let foreign = "<plist><key>Application Version</key><string>12.13.10.3</string></plist>";
    assert_eq!(
        backup_if_foreign(Some(foreign), STEM, EXT, false, 0).as_deref(),
        Some("iTunes Music Library.original.xml")
    );
}

#[test]
fn second_foreign_backup_gets_timestamped_name() {
    assert_eq!(
        backup_if_foreign(Some("foreign v1"), STEM, EXT, false, 0).as_deref(),
        Some("iTunes Music Library.original.xml")
    );
    assert_eq!(backup_if_foreign(Some("<key>Sway Generator</key>"), STEM, EXT, true, 0), None);
    // 2026-07-23 03:11:37
    let second = backup_if_foreign(
        Some("foreign v2 (real iTunes rewrote it)"),
        STEM,
        EXT,
        true,
        1784776297,
    );
    assert_eq!(second.as_deref(), Some("iTunes Music Library.bak-20260723-031137.xml"));
    assert!(second.unwrap().contains(".bak-"));
}

#[test]
fn a_file_without_a_name_gets_one() {
    assert_eq!(first_backup_name(None, None), "iTunes Music Library.original.xml");
    assert_eq!(
        backup_if_foreign(Some(""), None, None, true, 0).as_deref(),
        Some("iTunes Music Library.bak-19700101-000000.xml")
    );
}

#[test]
fn what_was_written_here_is_ours() {
    let mut lib = Library::new();
    let xml = write_if_enabled(&lib, "/music/Sway", &[], 0).unwrap();
    assert!(is_ours(&xml));
    assert!(!is_ours("<key>Sway Generator</ke"));
    assert!(!is_ours(""));
    set_auto_sync_xml(&mut lib, false);
    assert_eq!(write_if_enabled(&lib, "/music/Sway", &[], 0), None);
}
