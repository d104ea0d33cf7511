//! Writing the iTunes library file without losing one that somebody else wrote.

use crate::dates::{compact_text, compact_timestamp, parts_of};
use crate::db::{auto_sync_xml, get_auto_sync_xml};
use crate::export_xml::{generate_xml, library_text, moments_fit, FileFacts, FileFactsView};
use crate::library::{Library, LibraryView};
use crate::seqs::views;
use crate::text::{chars_of, join3, opt_view};
use vstd::prelude::*;

verus! {

broadcast use vstd::string::group_string_axioms;

/// A text occurs in another at a place.
pub open spec fn occurs_at(s: Seq<char>, part: Seq<char>, i: int) -> bool {
    0 <= i && i + part.len() <= s.len() && s.subrange(i, i + part.len()) == part
}

/// A text occurs in another.
pub open spec fn occurs_in(s: Seq<char>, part: Seq<char>) -> bool {
    exists|i: int| #[trigger] occurs_at(s, part, i)
}

/// What every file holds that this program wrote.
pub open spec fn marker() -> Seq<char> {
    "<key>Sway Generator</key>"@
}

/// Whether a text occurs in another.
fn contains(s: &str, part: &str) -> (r: bool)
    ensures
        r == occurs_in(s@, part@),
{
    let v: Vec<char> = chars_of(s);
    let p: Vec<char> = chars_of(part);
    let n: usize = v.len();
    let m: usize = p.len();
    let mut i: usize = 0;
    while i <= n && n - i >= m
        invariant
            v@ == s@,
            p@ == part@,
            n == v@.len(),
            m == p@.len(),
            i <= n + 1,
            n < usize::MAX || i <= n,
            forall|k: int| 0 <= k < i ==> !#[trigger] occurs_at(s@, part@, k),
        decreases n + 1 - i,
    {
        let mut k: usize = 0;
        while k < m && v[i + k] == p[k]
            invariant
                v@ == s@,
                p@ == part@,
                n == v@.len(),
                m == p@.len(),
                i + m <= n,
                k <= m,
                forall|j: int| 0 <= j < k ==> v@[i + j] == #[trigger] p@[j],
            decreases m - k,
        {
            k = k + 1;
        }
        if k == m {
            proof {
                assert(s@.subrange(i as int, i + m) =~= part@);
                assert(occurs_at(s@, part@, i as int));
            }
            return true;
        }
        proof {
            assert(s@.subrange(i as int, i + m)[k as int] != part@[k as int]);
        }
        if i == n {
            proof {
                assert forall|j: int| !#[trigger] occurs_at(s@, part@, j) by {
                    if 0 <= j && j + m <= n {
                        assert(j <= i);
                    }
                }
            }
            return false;
        }
        i = i + 1;
    }
    proof {
        assert forall|j: int| !#[trigger] occurs_at(s@, part@, j) by {
            if 0 <= j && j + m <= n {
                assert(j < i);
            }
        }
    }
    false
}

/// Whether this program wrote a file, by what is in it.
pub fn is_ours(contents: &str) -> (r: bool)
    ensures
        r == occurs_in(contents@, marker()),
{
    contains(contents, "<key>Sway Generator</key>")
}

/// The name under which a file is kept that somebody else wrote: always the same
/// one the first time, so that the first is never lost, and one with the time from
/// then on.
pub open spec fn backup_name(
    stem: Option<Seq<char>>,
    ext: Option<Seq<char>>,
    kept_before: bool,
    now: int,
) -> Seq<char> {
    let stem = match stem {
        Some(s) => s,
        None => "iTunes Music Library"@,
    };
    let ext = match ext {
        Some(e) => e,
        None => "xml"@,
    };
    if kept_before {
        stem + ".bak-"@ + compact_text(parts_of(now)) + "."@ + ext
    } else {
        original_name(stem, ext)
    }
}

pub open spec fn original_name(stem: Seq<char>, ext: Seq<char>) -> Seq<char> {
    stem + ".original."@ + ext
}

/// The name under which a file is kept the first time. Whether there is one of that
/// name already decides on the name that is taken.
pub fn first_backup_name(stem: Option<&str>, ext: Option<&str>) -> (r: String)
    ensures
        r@ == original_name(
            match stem {
                Some(s) => s@,
                None => "iTunes Music Library"@,
            },
            match ext {
                Some(e) => e@,
                None => "xml"@,
            },
        ),
{
    let stem: &str = match stem {
        Some(s) => s,
        None => "iTunes Music Library",
    };
    let ext: &str = match ext {
        Some(e) => e,
        None => "xml",
    };
    join3(stem, ".original.", ext)
}

pub open spec fn str_view(s: Option<&str>) -> Option<Seq<char>> {
    match s {
        Some(t) => Some(t@),
        None => None,
    }
}

/// The name under which to keep the file that is about to be written over, in the
/// same folder; nothing where there is no file, or it is one of this program's own.
/// `contents` is what is in it, nothing where there is none; `kept_before` says
/// whether a file has been kept under the first name already.
pub fn backup_if_foreign(
    contents: Option<&str>,
    stem: Option<&str>,
    ext: Option<&str>,
    kept_before: bool,
    now_secs: u64,
) -> (r: Option<String>)
    requires
        now_secs <= i64::MAX,
    ensures
        match contents {
            None => r is None,
            Some(c) => if occurs_in(c@, marker()) {
                r is None
            } else {
                opt_view(r) == Some(
                    backup_name(str_view(stem), str_view(ext), kept_before, now_secs as int),
                )
            },
        },
{
    match contents {
        None => None,
        Some(c) => {
            if is_ours(c) {
                return None;
            }
            if !kept_before {
                return Some(first_backup_name(stem, ext));
            }
            let stem: &str = match stem {
                Some(s) => s,
                None => "iTunes Music Library",
            };
            let ext: &str = match ext {
                Some(e) => e,
                None => "xml",
            };
            let ts: String = compact_timestamp(now_secs);
            let name: String = join3(stem, ".bak-", ts.as_str());
            Some(join3(name.as_str(), ".", ext))
        },
    }
}

/// The file to write after a change: nothing where that is switched off.
pub fn write_if_enabled(lib: &Library, music_dir: &str, files: &[FileFacts], now_secs: u64) -> (r:
    Option<String>)
    requires
        now_secs <= i64::MAX,
        moments_fit(views(files@)),
        lib@.playlists.len() <= i64::MAX,
        lib@.playlist_tracks.len() <= i64::MAX,
    ensures
        opt_view(r) == if auto_sync_xml(lib@) {
            Some(library_text(lib@, music_dir@, views(files@), now_secs as int))
        } else {
            None
        },
{
    if get_auto_sync_xml(lib) {
        Some(generate_xml(lib, music_dir, files, now_secs))
    } else {
        None
    }
}

/// What this program wrote is never taken for somebody else's.
pub proof fn own_files_are_known(
    l: LibraryView,
    music_dir: Seq<char>,
    files: Seq<FileFactsView>,
    now: int,
)
    ensures
        occurs_in(library_text(l, music_dir, files, now), marker()),
{
    crate::export_xml::head_ends_with_the_mark(music_dir, now);
    crate::export_xml::text_begins_with_its_head(l, music_dir, files, now);
    mark_is_inside(
        library_text(l, music_dir, files, now),
        crate::export_xml::head_text(music_dir, now),
    );
}

proof fn mark_is_inside(all: Seq<char>, head: Seq<char>)
    requires
        head.len() >= "\t<key>Sway Generator</key><true/>\n"@.len(),
        head.subrange(
            head.len() - "\t<key>Sway Generator</key><true/>\n"@.len(),
            head.len() as int,
        ) == "\t<key>Sway Generator</key><true/>\n"@,
        all.len() >= head.len(),
        forall|k: int| 0 <= k < head.len() ==> #[trigger] all[k] == head[k],
    ensures
        occurs_in(all, marker()),
{
    let line = "\t<key>Sway Generator</key><true/>\n"@;
    reveal_strlit("\t<key>Sway Generator</key><true/>\n");
    reveal_strlit("<key>Sway Generator</key>");
    let from = head.len() - line.len();
    let i = from + 1;
    assert(line.subrange(1, 1 + marker().len() as int) =~= marker());
    assert(all.subrange(i, i + marker().len()) =~= line.subrange(1, 1 + marker().len() as int)) by {
        assert forall|k: int| 0 <= k < marker().len() implies all[i + k] == #[trigger] line[1
            + k] by {
            assert(head.subrange(from, head.len() as int)[1 + k] == head[from + (1 + k)]);
        }
    }
    assert(occurs_at(all, marker(), i));
}

} // verus!
