use sway::db::DbError;
use sway::import::{managed_dest_for, FolderEntry, Meta};
use sway::library::Library;
use sway::paths::same_path;
use sway::transfer::{
    arrival_name, bytes_to_send, file_in_the_way, incoming_dir, insert_received, join_path,
    keeps_partial, part_path, path_for_hash, Arrival, OldFile, ReceiveError, Received, Receiving,
    Stage,
};
use sway::wire::Msg;

const CHUNK: u64 = 1024 * 1024;

fn meta(title: &str, artist: &str) -> Meta {
    Meta {
        title: title.to_string(),
        artist: artist.to_string(),
        album: String::new(),
        genre: String::new(),
        duration_ms: 0,
        bpm: None,
    }
}

fn arrival(path: &str, uid: &str, hash: &str, size: i64) -> Arrival {
    Arrival {
        path: path.to_string(),
        rel_path: path.rsplit('/').next().unwrap().to_string(),
        uid: uid.to_string(),
        hash: hash.to_string(),
        size,
        mtime_ms: 3,
        meta: meta("T", "A"),
        updated_at: 10,
    }
}

fn start(size: u64) -> Msg {
    Msg::BlobStart { size }
}

fn end(hash: &str) -> Msg {
    Msg::BlobEnd { hash: hash.to_string() }
}

/// Takes a whole file in, in pieces.
fn receive(already: u64, size: u64, wanted: &str, said: &str, actual: &str) -> Result<u64, ReceiveError> {
    let mut r = Receiving::new(wanted, already);
    r.start(start(size))?;
    let mut left = size;
    while r.stage == Stage::Body {
        let n = left.min(CHUNK);
        r.take(n as usize)?;
        left -= n;
    }
    r.end(end(said))?;
    r.verify(actual)?;
    assert_eq!(r.stage, Stage::Place);
    Ok(r.got)
}

#[test]
fn a_stale_partial_does_not_poison_a_push() {
    // What is left of an earlier attempt goes when the file comes whole.
    assert!(!keeps_partial(false, true));
    assert!(keeps_partial(true, true));
    assert!(keeps_partial(false, false));
    assert_eq!(receive(0, CHUNK + 500, "h", "h", "h").unwrap(), CHUNK + 500);
}

#[test]
fn receiving_a_track_that_already_exists_here_does_not_break_the_session() {
    let mut lib = Library::new();
    let mine = "/m/ya-lo-tengo.flac";
    let mut first = arrival(mine, "uid-1", "", 5);
    first.meta = meta("", "");
    insert_received(&mut lib, &first, OldFile::Missing, '/').unwrap();
    lib.tracks[0].content_hash = None;

    // The same content comes under another name.
    let incoming = "/m/ya-lo-tengo (2).flac";
    assert_eq!(file_in_the_way(&lib, "uid-1", incoming, '/').as_deref(), Some(mine));
    let again = arrival(incoming, "uid-1", "hash", 5);
    let id = insert_received(&mut lib, &again, OldFile::SameContent, '/')
        .expect("no puede fallar por el índice único");

    assert_eq!(lib.tracks.len(), 1, "una sola fila para ese uid");
    assert_eq!(lib.tracks[0].id, id);
    assert_eq!(lib.tracks[0].path, mine, "se queda con el archivo que ya tenía");
    assert_eq!(lib.tracks[0].content_hash.as_deref(), Some("hash"));
}

#[test]
fn a_different_encoding_of_the_same_track_does_not_loop_and_does_not_lose_the_old_file() {
    let mut lib = Library::new();
    insert_received(&mut lib, &arrival("/m/tema.flac", "uid-1", "vieja", 13), OldFile::Missing, '/')
        .unwrap();

    let incoming = "/m/tema (2).flac";
    assert_eq!(file_in_the_way(&lib, "uid-1", incoming, '/').as_deref(), Some("/m/tema.flac"));
    let other = arrival(incoming, "uid-1", "nueva", 13);
    let id = insert_received(&mut lib, &other, OldFile::OtherContent, '/').unwrap();

    assert_eq!(lib.tracks[0].id, id);
    assert_eq!(lib.tracks[0].path, incoming, "gana el que llegó");
    assert_eq!(
        lib.tracks[0].content_hash.as_deref(),
        Some("nueva"),
        "y su hash queda anotado"
    );
}

#[test]
fn a_freed_track_comes_back_to_the_same_row() {
    let mut lib = Library::new();
    insert_received(&mut lib, &arrival("/m/tema.flac", "uid-1", "h1", 5), OldFile::Missing, '/')
        .unwrap();

    // It was let go of: the row stays, the file does not.
    lib.tracks[0].local_state = "absent".to_string();

    let again = "/m/tema (2).flac";
    insert_received(&mut lib, &arrival(again, "uid-1", "h1", 5), OldFile::Missing, '/').unwrap();

    assert_eq!(lib.tracks.len(), 1, "una sola fila, no un duplicado");
    assert_eq!(lib.tracks[0].local_state, "present");
    assert_eq!(lib.tracks[0].path, again);
}

#[test]
fn transfers_and_verifies_a_file() {
    let n = CHUNK * 2 + 1234;
    let data: Vec<u8> = (0..n).map(|i| (i % 251) as u8).collect();
    let mut r = Receiving::new("h", 0);
    r.start(start(bytes_to_send(n, 0).unwrap())).unwrap();
    assert_eq!((r.stage, r.got, r.total), (Stage::Body, 0, n));
    let mut part: Vec<u8> = Vec::new();
    for chunk in data.chunks(CHUNK as usize) {
        assert_eq!(r.stage, Stage::Body);
        r.take(chunk.len()).unwrap();
        part.extend_from_slice(chunk);
        assert_eq!(r.got, part.len() as u64);
    }
    assert_eq!(r.stage, Stage::End);
    r.end(end("h")).unwrap();
    assert_eq!(r.stage, Stage::Verify);
    r.verify("h").unwrap();
    assert_eq!(r.stage, Stage::Place);
    assert_eq!(part, data);
    let name = arrival_name(&[], "track.flac", Some("track"), Some("flac"), "h", None);
    let got = Received { path: join_path("/m", &name, '/'), bytes: r.got };
    assert_eq!((got.path.as_str(), got.bytes), ("/m/track.flac", 2098386));
}

#[test]
fn content_that_does_not_match_the_requested_hash_is_rejected() {
    let err = receive(0, 4096, "wanted", "wanted", "other").unwrap_err();
    let text = err.message("wanted");
    assert!(text.contains("hash distinto"), "error inesperado: {text}");
    assert_eq!(text, "hash distinto (esperado wanted, obtenido other)");
    assert!(err.discards_part());
}

#[test]
fn a_wrong_hash_in_blob_end_is_rejected() {
    let err = receive(0, 2000, "h", &"0".repeat(64), "h").unwrap_err();
    let text = err.message("h");
    assert!(text.contains("dice haber mandado"), "error: {text}");
    assert!(err.discards_part());
}

#[test]
fn an_interrupted_transfer_resumes_from_where_it_stopped() {
    let total = CHUNK * 3;
    let half = total / 2;
    // Only what is missing is sent.
    let rest = bytes_to_send(total, half).unwrap();
    assert_eq!(rest, total - half);
    assert_eq!(receive(half, rest, "h", "h", "h").unwrap(), total);
    assert_eq!(bytes_to_send(10, 11), None);
    assert_eq!(bytes_to_send(10, 10), Some(0));
}

#[test]
fn a_corrupted_resume_prefix_is_caught_by_the_full_hash() {
    let total = CHUNK + 500;
    let half = total / 2;
    let err = receive(half, total - half, "h", "h", "spoilt").unwrap_err();
    let text = err.message("h");
    assert!(text.contains("hash"), "error inesperado: {text}");
    assert!(err.discards_part(), "el .part malo se descarta");
}

#[test]
fn an_existing_file_with_the_same_name_is_never_overwritten() {
    let there = vec![FolderEntry { name: "mismo.flac".to_string(), size: Some(16) }];
    let name = managed_dest_for(&there, "mismo.flac", Some("mismo"), Some("flac"), 3000);
    assert_ne!(name, "mismo.flac");
    assert_eq!(name, "mismo (2).flac");
    let arrive = |content: Option<&str>| {
        arrival_name(&there, "mismo.flac", Some("mismo"), Some("flac"), "new", content)
    };
    assert_eq!(arrive(Some("old")), "mismo (2).flac");
    assert_eq!(arrive(None), "mismo (2).flac");
    assert_eq!(arrive(Some("new")), "mismo.flac");
    assert_eq!(arrival_name(&[], "x.flac", Some("x"), Some("flac"), "new", None), "x.flac");
}

#[test]
fn what_goes_wrong_is_named() {
    let mut r = Receiving::new("h", 0);
    let e = r.start(Msg::BlobError { reason: "gone".to_string() }).unwrap_err();
    assert_eq!(e.message("h"), "gone");
    let mut r = Receiving::new("h", 0);
    assert_eq!(r.start(Msg::Bye).unwrap_err().message("h"), "se esperaba BlobStart, llegó Bye");
    let mut r = Receiving::new("h", 0);
    r.start(start(100)).unwrap();
    r.take(40).unwrap();
    let e = r.take(0).unwrap_err();
    assert_eq!(e.message("h"), "el emisor cortó a los 40 de 100 bytes");
    assert!(!e.discards_part());
    let mut r = Receiving::new("h", 7);
    r.start(start(0)).unwrap();
    assert_eq!(r.stage, Stage::End);
    assert_eq!(r.end(Msg::Bye).unwrap_err().message("h"), "se esperaba BlobEnd, llegó Bye");
}

#[test]
fn a_file_of_two_tracks_is_refused() {
    let mut lib = Library::new();
    insert_received(&mut lib, &arrival("/m/a", "u1", "h1", 1), OldFile::Missing, '/').unwrap();
    insert_received(&mut lib, &arrival("/m/b", "u2", "h2", 1), OldFile::Missing, '/').unwrap();
    assert_eq!(
        insert_received(&mut lib, &arrival("/m/b", "u1", "h3", 1), OldFile::OtherContent, '/'),
        Err(DbError::Constraint)
    );
    assert_eq!(path_for_hash(&lib, "h2").as_deref(), Some("/m/b"));
    assert_eq!(path_for_hash(&lib, "h3"), None);
}

#[test]
fn what_came_in_keeps_the_uid_it_has_elsewhere() {
    let mut lib = Library::new();
    insert_received(&mut lib, &arrival("/m/a", "mine", "h1", 1), OldFile::Missing, '/').unwrap();
    let id = lib.tracks[0].id;
    let r = insert_received(&mut lib, &arrival("/m/a", "theirs", "h2", 2), OldFile::Missing, '/');
    assert_eq!(r, Ok(id));
    assert_eq!(lib.tracks.len(), 1);
    assert_eq!(lib.tracks[0].uid.as_deref(), Some("theirs"));
    assert_eq!(lib.tracks[0].content_hash.as_deref(), Some("h2"));
    assert_eq!(lib.tracks[0].local_state, "present");
}

#[test]
fn a_path_written_otherwise_is_the_same_file() {
    assert!(same_path("/m//x.mp3", "/m/x.mp3", '/'));
    assert!(same_path("/m/./x/", "/m/x", '/'));
    assert!(same_path(r"C:\m\x", "C:/m/x", '\\'));
    assert!(!same_path(r"/m\x", "/m/x", '/'));
    assert!(!same_path("/m/x", "m/x", '/'));
    assert!(!same_path("./x", "x", '/'));
    assert!(!same_path("/m/x", "/m/X", '/'));
    let mut lib = Library::new();
    insert_received(&mut lib, &arrival("/m//x", "u", "h1", 1), OldFile::Missing, '/').unwrap();
    assert_eq!(file_in_the_way(&lib, "u", "/m/x", '/'), None);
    insert_received(&mut lib, &arrival("/m/x", "u", "h2", 1), OldFile::Missing, '/').unwrap();
    assert_eq!(lib.tracks[0].path, "/m/x");
}

#[test]
fn paths_are_joined() {
    assert_eq!(join_path("/m", "a", '/'), "/m/a");
    assert_eq!(join_path("/m/", "a", '/'), "/m/a");
    assert_eq!(join_path("", "a", '/'), "a");
    assert_eq!(incoming_dir("/m", '/'), "/m/.sway-incoming");
    assert_eq!(part_path("/m", "abc", '/'), "/m/.sway-incoming/abc.part");
}
