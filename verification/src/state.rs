//! What the screens and the background work need besides: what is in scope as it is
//! shown, how much room the library takes, and which files of the managed folder are
//! news.

use crate::db::DbError;
use crate::library::{
    distinct_same_keys, track_id, track_path_key, Library, LibraryView, TrackRow, TrackRowView,
};
use crate::player::Cue;
use crate::scope::Mode;
use crate::scope_db::{
    evictable_for, files_that_can_go, get, marked_in, playlist_marked, scope_in, scope_playlists,
    scope_tracks, scope_tracks_of_playlist, set_playlist_at, stranded_counts, stranded_in,
    tracks_scoped, tracks_scoped_of, Evictable, EvictableView,
};
use crate::seqs::{count, filter_step, take_all, take_none_filter, views, views_push, views_update};
use crate::table::{find, first_where, first_where_is_first, keyed, retain, row_with};
use crate::text::{chars_of, opt_view, same, text_of};
use crate::tracks::{Track, TrackView};
use crate::tree::{PlaylistNode, PlaylistNodeView};
use crate::uidset::UidSet;
use vstd::prelude::*;

verus! {

broadcast use vstd::string::group_string_axioms;

/// The library can no longer be used, for something went wrong while it was written.
#[derive(Debug, Clone, Copy, PartialEq, Eq, Structural)]
pub struct Poisoned;

// ---------------------------------------------------------------------------
// What is in scope, as it is shown
// ---------------------------------------------------------------------------

/// A track as it is shown where only some are in scope. One without a uid always is.
pub open spec fn shown_in(wanted: Set<Seq<char>>) -> spec_fn(TrackView) -> TrackView {
    |t: TrackView|
        TrackView {
            in_scope: match t.uid {
                Some(u) => wanted.contains(u),
                None => true,
            },
            ..t
        }
}

fn mark_tracks(tracks: &mut Vec<Track>, wanted: &UidSet)
    ensures
        views(final(tracks)@) == views(old(tracks)@).map_values(shown_in(wanted@)),
{
    let ghost start = views(tracks@);
    let n: usize = tracks.len();
    for i in 0..n
        invariant
            n == tracks@.len(),
            n == start.len(),
            start == views(old(tracks)@),
            forall|k: int|
                0 <= k < n ==> #[trigger] views(tracks@)[k] == if k < i {
                    shown_in(wanted@)(start[k])
                } else {
                    start[k]
                },
    {
        let ghost was = tracks@;
        proof {
            assert(views(tracks@)[i as int] == tracks@[i as int]@);
        }
        let inside: bool = match &tracks[i].uid {
            Some(u) => wanted.contains(u.as_str()),
            None => true,
        };
        tracks[i].in_scope = inside;
        proof {
            views_update(was, i as int, tracks@[i as int]);
            assert(tracks@ =~= was.update(i as int, tracks@[i as int]));
            assert forall|k: int| 0 <= k < n implies #[trigger] views(tracks@)[k] == if k < i + 1 {
                shown_in(wanted@)(start[k])
            } else {
                start[k]
            } by {
                if k != i {
                    assert(views(tracks@)[k] == views(was)[k]);
                }
            }
        }
    }
    proof {
        assert(views(tracks@) =~= start.map_values(shown_in(wanted@)));
    }
}

/// Says of each track whether the device `me` synchronises it. Where it wants
/// everything, all stay as they are.
pub fn mark_scope(lib: &Library, me: &str, tracks: &mut Vec<Track>)
    requires
        lib@.wf(),
    ensures
        views(final(tracks)@) == if scope_in(lib@, me@).mode == Mode::All {
            views(old(tracks)@)
        } else {
            views(old(tracks)@).map_values(shown_in(tracks_scoped(lib@, me@)))
        },
{
    if let Some(wanted) = scope_tracks(lib, me) {
        mark_tracks(tracks, &wanted);
    }
}

/// The same for the tracks of one playlist.
pub fn mark_scope_of_playlist(lib: &Library, me: &str, playlist_id: i64, tracks: &mut Vec<Track>)
    requires
        lib@.wf(),
    ensures
        views(final(tracks)@) == if scope_in(lib@, me@).mode == Mode::All {
            views(old(tracks)@)
        } else {
            views(old(tracks)@).map_values(shown_in(tracks_scoped_of(lib@, me@, playlist_id)))
        },
{
    if let Some(wanted) = scope_tracks_of_playlist(lib, me, playlist_id) {
        mark_tracks(tracks, &wanted);
    }
}

/// A playlist as it is shown where only some are in scope.
pub open spec fn node_shown(l: LibraryView, me: Seq<char>) -> spec_fn(
    PlaylistNodeView,
) -> PlaylistNodeView {
    |n: PlaylistNodeView|
        PlaylistNodeView {
            in_scope: match n.uid {
                Some(u) => marked_in(l, me).contains(u),
                None => true,
            },
            stranded_count: stranded_in(l, me, n.id) as i64,
            ..n
        }
}

/// Says of each playlist whether the device `me` synchronises it, and how many of its
/// files are here although nothing in scope asks for them.
pub fn mark_playlist_scope(lib: &Library, me: &str, nodes: &mut Vec<PlaylistNode>)
    requires
        lib@.wf(),
        lib@.playlist_tracks.len() <= i64::MAX,
    ensures
        views(final(nodes)@) == if scope_in(lib@, me@).mode == Mode::All {
            views(old(nodes)@)
        } else {
            views(old(nodes)@).map_values(node_shown(lib@, me@))
        },
{
    broadcast use vstd::std_specs::hash::group_hash_axioms;

    let wanted: UidSet = match scope_playlists(lib, me) {
        Some(w) => w,
        None => {
            return;
        },
    };
    let stranded: std::collections::HashMap<i64, i64> = stranded_counts(lib, me);
    let ghost start = views(nodes@);
    let ghost l = lib@;
    let ghost m = me@;
    let n: usize = nodes.len();
    for i in 0..n
        invariant
            n == nodes@.len(),
            n == start.len(),
            start == views(old(nodes)@),
            l == lib@,
            m == me@,
            wanted@ == marked_in(l, m),
            forall|id: i64| #[trigger]
                stranded@.contains_key(id) <==> stranded_in(l, m, id) > 0,
            forall|id: i64| #[trigger]
                stranded@.contains_key(id) ==> stranded@[id] == stranded_in(l, m, id),
            forall|k: int|
                0 <= k < n ==> #[trigger] views(nodes@)[k] == if k < i {
                    node_shown(l, m)(start[k])
                } else {
                    start[k]
                },
    {
        let ghost was = nodes@;
        proof {
            assert(views(nodes@)[i as int] == nodes@[i as int]@);
        }
        let inside: bool = match &nodes[i].uid {
            Some(u) => wanted.contains(u.as_str()),
            None => true,
        };
        let id: i64 = nodes[i].id;
        let left: i64 = match stranded.get(&id) {
            Some(c) => *c,
            None => 0,
        };
        proof {
            assert(left == stranded_in(l, m, id)) by {
                if stranded@.contains_key(id) {
                } else {
                    assert(!(stranded_in(l, m, id) > 0));
                }
            }
        }
        nodes[i].in_scope = inside;
        nodes[i].stranded_count = left;
        proof {
            views_update(was, i as int, nodes@[i as int]);
            assert(nodes@ =~= was.update(i as int, nodes@[i as int]));
            assert forall|k: int| 0 <= k < n implies #[trigger] views(nodes@)[k] == if k < i + 1 {
                node_shown(l, m)(start[k])
            } else {
                start[k]
            } by {
                if k != i {
                    assert(views(nodes@)[k] == views(was)[k]);
                }
            }
        }
    }
    proof {
        assert(views(nodes@) =~= start.map_values(node_shown(l, m)));
    }
}

/// A change of what is marked.
#[derive(Debug)]
pub struct ScopeChange {
    pub uid: String,
    pub on: bool,
}

pub struct ScopeChangeView {
    pub uid: Seq<char>,
    pub on: bool,
}

impl View for ScopeChange {
    type V = ScopeChangeView;

    open spec fn view(&self) -> ScopeChangeView {
        ScopeChangeView { uid: self.uid@, on: self.on }
    }
}

/// The library once some marks of a device were changed, one after the other.
pub open spec fn all_marked(
    l: LibraryView,
    device_uid: Seq<char>,
    changes: Seq<ScopeChangeView>,
    now: i64,
) -> LibraryView
    decreases changes.len(),
{
    if changes.len() == 0 {
        l
    } else {
        playlist_marked(
            all_marked(l, device_uid, changes.drop_last(), now),
            device_uid,
            changes.last().uid,
            changes.last().on,
            now,
        )
    }
}

/// Changes several marks of a device at once, as marking a folder does.
pub fn set_scope_playlists(lib: &mut Library, device_uid: &str, changes: &[ScopeChange], now: i64)
    ensures
        final(lib)@ == all_marked(old(lib)@, device_uid@, views(changes@), now),
        old(lib)@.wf() ==> final(lib)@.wf(),
{
    let ghost start = lib@;
    let ghost all = views(changes@);
    proof {
        assert(all.take(0) =~= Seq::empty());
    }
    for i in 0..changes.len()
        invariant
            start == old(lib)@,
            all == views(changes@),
            lib@ == all_marked(start, device_uid@, all.take(i as int), now),
            start.wf() ==> lib@.wf(),
    {
        proof {
            assert(all.take(i + 1).drop_last() =~= all.take(i as int));
            assert(all.take(i + 1).last() == changes@[i as int]@);
        }
        set_playlist_at(lib, device_uid, changes[i].uid.as_str(), changes[i].on, now);
    }
    proof {
        take_all(all);
    }
}

/// How many changes of scope were made: what they lead to is done once, after the
/// last of several.
#[derive(Debug, Clone, Copy, PartialEq, Eq, Structural)]
pub struct Settling {
    pub changes: u64,
}

impl Settling {
    /// Counts a change; the number it has. The count begins anew where it ends.
    pub fn note(&mut self) -> (r: u64)
        ensures
            r == final(self).changes,
            r == if old(self).changes == u64::MAX {
                0
            } else {
                old(self).changes + 1
            },
    {
        self.changes = if self.changes == u64::MAX {
            0
        } else {
            self.changes + 1
        };
        self.changes
    }

    /// Whether no change came after the one with that number.
    pub fn is_last(&self, number: u64) -> (r: bool)
        ensures
            r == (self.changes == number),
    {
        self.changes == number
    }
}

/// How long after the last change of scope the screen is brought up to date.
pub const SCOPE_SETTLE_MS: u64 = 120;

/// How long after the last change of scope it is synchronised.
pub const SCOPE_SYNC_SETTLE_MS: u64 = 6000;

// ---------------------------------------------------------------------------
// Room
// ---------------------------------------------------------------------------

/// How much room the library takes.
#[derive(Debug, Clone, Copy, PartialEq, Eq, Structural)]
pub struct StorageView {
    /// The bytes of the files that are here.
    pub library_bytes: i64,
    pub tracks_present: i64,
    /// The tracks whose file is not here.
    pub tracks_absent: i64,
    /// The files that can go.
    pub freeable_count: i64,
    pub freeable_bytes: i64,
}

pub open spec fn is_present() -> spec_fn(TrackRowView) -> bool {
    |t: TrackRowView| t.local_state == "present"@
}

pub open spec fn size_or_zero(t: TrackRowView) -> int {
    match t.size_bytes {
        Some(n) => n as int,
        None => 0,
    }
}

/// The bytes of the files of these tracks that are here.
pub open spec fn present_bytes(rows: Seq<TrackRowView>) -> int
    decreases rows.len(),
{
    if rows.len() == 0 {
        0
    } else {
        present_bytes(rows.drop_last()) + if is_present()(rows.last()) {
            size_or_zero(rows.last())
        } else {
            0
        }
    }
}

pub open spec fn is_i64(n: int) -> bool {
    i64::MIN <= n <= i64::MAX
}

/// Adding the sizes up, track by track, stays within 64 bits.
pub open spec fn bytes_fit(rows: Seq<TrackRowView>) -> bool {
    forall|k: int| 0 <= k <= rows.len() ==> is_i64(#[trigger] present_bytes(rows.take(k)))
}

pub open spec fn evictable_bytes(items: Seq<EvictableView>) -> int
    decreases items.len(),
{
    if items.len() == 0 {
        0
    } else {
        evictable_bytes(items.drop_last()) + items.last().size
    }
}

pub open spec fn evictable_fit(items: Seq<EvictableView>) -> bool {
    forall|k: int| 0 <= k <= items.len() ==> is_i64(#[trigger] evictable_bytes(items.take(k)))
}

fn add_checked(a: i64, b: i64) -> (r: Option<i64>)
    ensures
        r == if is_i64(a + b) {
            Some((a + b) as i64)
        } else {
            None
        },
{
    a.checked_add(b)
}

/// How much room the library takes on the device `me`, and how much of it can be
/// freed; refused where the sizes do not add up to a number of 64 bits. `managed`
/// names the tracks whose file lies in the managed folder.
pub fn storage_status(lib: &Library, me: &str, managed: &[i64]) -> (r: Result<StorageView, DbError>)
    requires
        lib@.wf(),
        lib@.tracks.len() <= i64::MAX,
        evictable_fit(files_that_can_go(lib@, me@, managed@)),
    ensures
        r is Ok <==> bytes_fit(lib@.tracks),
        r is Err ==> r->Err_0 == DbError::Overflow,
        r is Ok ==> ({
            let s = r->Ok_0;
            let items = files_that_can_go(lib@, me@, managed@);
            &&& s.library_bytes == present_bytes(lib@.tracks)
            &&& s.tracks_present == count(lib@.tracks, is_present())
            &&& s.tracks_absent == lib@.tracks.len() - count(lib@.tracks, is_present())
            &&& s.freeable_count == items.len()
            &&& s.freeable_bytes == evictable_bytes(items)
        }),
{
    let ghost all = lib@.tracks;
    let mut bytes: i64 = 0;
    let mut present: usize = 0;
    let n: usize = lib.tracks.len();
    proof {
        assert(all.take(0) =~= Seq::empty());
        take_none_filter(all, is_present());
    }
    for i in 0..n
        invariant
            n == lib.tracks@.len(),
            all == lib@.tracks,
            bytes == present_bytes(all.take(i as int)),
            present == all.take(i as int).filter(is_present()).len(),
            present <= i,
            forall|k: int| 0 <= k <= i ==> is_i64(#[trigger] present_bytes(all.take(k))),
    {
        let t: &TrackRow = &lib.tracks[i];
        proof {
            assert(all[i as int] == t@);
            assert(all.take(i + 1).drop_last() =~= all.take(i as int));
            assert(all.take(i + 1).last() == t@);
            filter_step(all, is_present(), i as int);
        }
        if same(t.local_state.as_str(), "present") {
            let size: i64 = match t.size_bytes {
                Some(s) => s,
                None => 0,
            };
            match add_checked(bytes, size) {
                Some(s) => {
                    bytes = s;
                },
                None => {
                    proof {
                        assert(!is_i64(present_bytes(all.take(i + 1))));
                    }
                    return Err(DbError::Overflow);
                },
            }
            present = present + 1;
        }
    }
    proof {
        take_all(all);
    }
    let items: Vec<Evictable> = evictable_for(lib, me, managed);
    let ghost vs = views(items@);
    let mut free: i64 = 0;
    proof {
        assert(vs.take(0) =~= Seq::empty());
        can_go_are_tracks(lib@, me@, managed@);
    }
    for i in 0..items.len()
        invariant
            vs == views(items@),
            evictable_fit(vs),
            free == evictable_bytes(vs.take(i as int)),
    {
        proof {
            assert(vs.take(i + 1).drop_last() =~= vs.take(i as int));
            assert(vs.take(i + 1).last() == items@[i as int]@);
            assert(is_i64(evictable_bytes(vs.take(i + 1))));
        }
        free = free + items[i].size;
    }
    proof {
        take_all(vs);
    }
    Ok(
        StorageView {
            library_bytes: bytes,
            tracks_present: present as i64,
            tracks_absent: (n - present) as i64,
            freeable_count: items.len() as i64,
            freeable_bytes: free,
        },
    )
}

proof fn can_go_are_tracks(l: LibraryView, me: Seq<char>, managed: Seq<i64>)
    ensures
        files_that_can_go(l, me, managed).len() <= l.tracks.len(),
{
    filter_is_no_longer(l.tracks, crate::scope_db::can_go(l, me, managed));
}

proof fn filter_is_no_longer<A>(s: Seq<A>, p: spec_fn(A) -> bool)
    ensures
        s.filter(p).len() <= s.len(),
    decreases s.len(),
{
    reveal(Seq::filter);
    if s.len() > 0 {
        filter_is_no_longer(s.drop_last(), p);
    }
}

// ---------------------------------------------------------------------------
// The files of the managed folder
// ---------------------------------------------------------------------------

/// For how long a file that was put there by synchronising is no news.
pub const EXPECTED_PATH_TTL_MS: i64 = 60000;

/// A file that was put into the managed folder by synchronising.
#[derive(Debug)]
pub struct Expected {
    pub path: String,
    pub at: i64,
}

pub struct ExpectedView {
    pub path: Seq<char>,
    pub at: i64,
}

impl View for Expected {
    type V = ExpectedView;

    open spec fn view(&self) -> ExpectedView {
        ExpectedView { path: self.path@, at: self.at }
    }
}

pub open spec fn expected_path() -> spec_fn(ExpectedView) -> Seq<char> {
    |e: ExpectedView| e.path
}

/// The file was put there not long ago.
pub open spec fn is_recent(now: i64) -> spec_fn(ExpectedView) -> bool {
    |e: ExpectedView| now - e.at < EXPECTED_PATH_TTL_MS
}

/// The files that synchronising has put into the managed folder lately. Taking them
/// for new ones would give them another uid.
#[derive(Debug)]
pub struct ExpectedPaths {
    pub rows: Vec<Expected>,
}

impl Default for ExpectedPaths {
    fn default() -> (r: Self)
        ensures
            views(r.rows@) == Seq::<ExpectedView>::empty(),
    {
        let r: ExpectedPaths = ExpectedPaths { rows: Vec::new() };
        proof {
            assert(views(r.rows@) =~= Seq::empty());
        }
        r
    }
}

fn recent(at: i64, now: i64) -> (r: bool)
    ensures
        r == (now - at < EXPECTED_PATH_TTL_MS),
{
    match now.checked_sub(at) {
        Some(d) => d < EXPECTED_PATH_TTL_MS,
        None => now < at,
    }
}

/// The rows with that file as one that was put there now; what is no longer recent
/// is dropped.
pub open spec fn expected_put(rows: Seq<ExpectedView>, path: Seq<char>, now: i64) -> Seq<
    ExpectedView,
> {
    let kept = rows.filter(is_recent(now));
    let e = ExpectedView { path, at: now };
    match first_where(kept, keyed(expected_path(), path)) {
        Some(i) => kept.update(i, e),
        None => kept.push(e),
    }
}

/// The file is one that was put there not long ago.
pub open spec fn is_expected_in(rows: Seq<ExpectedView>, path: Seq<char>, now: i64) -> bool {
    match row_with(rows, expected_path(), path) {
        Some(e) => is_recent(now)(e),
        None => false,
    }
}

impl ExpectedPaths {
    fn find(&self, path: &str) -> (r: Option<usize>)
        ensures
            match r {
                Some(i) => i < self.rows@.len() && first_where(
                    views(self.rows@),
                    keyed(expected_path(), path@),
                ) == Some(i as int) && self.rows@[i as int].path@ == path@,
                None => first_where(views(self.rows@), keyed(expected_path(), path@)) is None,
            },
    {
        let hit = |e: &Expected| -> (b: bool)
            ensures
                b == (e.path@ == path@),
            { same(e.path.as_str(), path) };
        find(&self.rows, hit, Ghost(keyed(expected_path(), path@)))
    }

    /// Notes that synchronising puts a file there now.
    pub fn expect_path(&mut self, path: &str, now: i64)
        ensures
            views(final(self).rows@) == expected_put(views(old(self).rows@), path@, now),
    {
        let keep = |e: &Expected| -> (b: bool)
            ensures
                b == (now - e.at < EXPECTED_PATH_TTL_MS),
            { recent(e.at, now) };
        retain(&mut self.rows, keep, Ghost(is_recent(now)));
        let e: Expected = Expected { path: path.to_owned(), at: now };
        match self.find(path) {
            Some(i) => {
                proof {
                    views_update(self.rows@, i as int, e);
                }
                self.rows.set(i, e);
            },
            None => {
                proof {
                    views_push(self.rows@, e);
                }
                self.rows.push(e);
            },
        }
    }

    /// Whether synchronising put the file there not long ago. Asking does not take
    /// it away: a file system tells of the same file several times.
    pub fn is_expected(&self, path: &str, now: i64) -> (r: bool)
        ensures
            r == is_expected_in(views(self.rows@), path@, now),
    {
        match self.find(path) {
            Some(i) => recent(self.rows[i].at, now),
            None => false,
        }
    }
}

/// A file that was noted is expected for as long as it is to be, and no longer, and
/// any other is expected as it was before, as long as it is recent.
pub proof fn noted_files_are_expected(
    rows: Seq<ExpectedView>,
    path: Seq<char>,
    now: i64,
    later: i64,
)
    requires
        later >= now,
    ensures
        is_expected_in(expected_put(rows, path, now), path, later) <==> later - now
            < EXPECTED_PATH_TTL_MS,
{
    let kept = rows.filter(is_recent(now));
    let e = ExpectedView { path, at: now };
    match first_where(kept, keyed(expected_path(), path)) {
        Some(i) => {
            crate::table::row_with_update(kept, expected_path(), i, e, path);
        },
        None => {
            crate::table::row_with_push(kept, expected_path(), e, path);
        },
    }
}

/// A separator of the parts of a path.
pub open spec fn is_sep(c: char) -> bool {
    c == '/' || c == '\\'
}

/// A part of a path stands between two of its ends or separators.
pub open spec fn has_part(path: Seq<char>, part: Seq<char>) -> bool {
    exists|i: int, j: int| #[trigger] is_part(path, part, i, j)
}

pub open spec fn is_part(path: Seq<char>, part: Seq<char>, i: int, j: int) -> bool {
    &&& 0 <= i <= j <= path.len()
    &&& i == 0 || is_sep(path[i - 1])
    &&& j == path.len() || is_sep(path[j])
    &&& path.subrange(i, j) == part
}

/// The file lies in one of the folders that the library keeps for itself.
pub open spec fn is_internal(path: Seq<char>) -> bool {
    has_part(path, ".sway-trash"@) || has_part(path, ".sway-incoming"@)
}

fn contains_part(v: &Vec<char>, part: &str) -> (r: bool)
    requires
        forall|k: int| 0 <= k < part@.len() ==> !is_sep(#[trigger] part@[k]),
    ensures
        r == has_part(v@, part@),
{
    let p: Vec<char> = chars_of(part);
    let n: usize = v.len();
    let m: usize = p.len();
    let mut i: usize = 0;
    while i < n && n - i >= m
        invariant
            p@ == part@,
            n == v@.len(),
            m == p@.len(),
            i <= n,
            forall|a: int, b: int| a < i ==> !#[trigger] is_part(v@, part@, a, b),
        decreases n - i,
    {
        if part_at(v, &p, i) {
            proof {
                assert(is_part(v@, part@, i as int, i + m));
            }
            return true;
        }
        proof {
            assert forall|a: int, b: int| a < i + 1 implies !#[trigger] is_part(
                v@,
                part@,
                a,
                b,
            ) by {
                if a == i && is_part(v@, part@, a, b) {
                    assert(b == i + m);
                }
            }
        }
        i = i + 1;
    }
    if i == n && m == 0 {
        if part_at(v, &p, i) {
            proof {
                assert(is_part(v@, part@, i as int, i + m));
            }
            return true;
        }
        proof {
            assert forall|a: int, b: int| !#[trigger] is_part(v@, part@, a, b) by {
                if a == i && is_part(v@, part@, a, b) {
                    assert(b == i + m);
                }
            }
        }
        return false;
    }
    proof {
        assert forall|a: int, b: int| !#[trigger] is_part(v@, part@, a, b) by {
            if is_part(v@, part@, a, b) {
                assert(b - a == m);
            }
        }
    }
    false
}

fn part_at(v: &Vec<char>, p: &Vec<char>, i: usize) -> (r: bool)
    requires
        i + p@.len() <= v@.len(),
    ensures
        r == is_part(v@, p@, i as int, i + p@.len()),
{
    let n: usize = v.len();
    let m: usize = p.len();
    if i > 0 && !(v[i - 1] == '/' || v[i - 1] == '\\') {
        return false;
    }
    if i + m < n && !(v[i + m] == '/' || v[i + m] == '\\') {
        return false;
    }
    for k in 0..m
        invariant
            n == v@.len(),
            m == p@.len(),
            i + m <= n,
            forall|j: int| 0 <= j < k ==> v@[i + j] == #[trigger] p@[j],
    {
        if v[i + k] != p[k] {
            proof {
                assert(v@.subrange(i as int, i + m)[k as int] != p@[k as int]);
            }
            return false;
        }
    }
    proof {
        assert(v@.subrange(i as int, i + m) =~= p@);
    }
    true
}

/// Whether a file lies in one of the folders that the library keeps for itself: what
/// was deleted, and what is coming in. Taking these for new files would undo every
/// deletion.
pub fn is_internal_path(path: &str) -> (r: bool)
    ensures
        r == is_internal(path@),
{
    let v: Vec<char> = chars_of(path);
    proof {
        reveal_strlit(".sway-trash");
        reveal_strlit(".sway-incoming");
    }
    contains_part(&v, ".sway-trash") || contains_part(&v, ".sway-incoming")
}

/// A file of the managed folder that is news: synchronising did not put it there, it
/// is none of the library's own folders, and no track has it.
pub open spec fn is_news(l: LibraryView, rows: Seq<ExpectedView>, now: i64) -> spec_fn(
    Seq<char>,
) -> bool {
    |p: Seq<char>|
        !is_expected_in(rows, p, now) && !is_internal(p) && row_with(l.tracks, track_path_key(), p)
            is None
}

/// The files to take in, of those that the file system told of.
pub fn paths_to_import(lib: &Library, expected: &ExpectedPaths, paths: &[String], now: i64) -> (r:
    Vec<String>)
    ensures
        views(r@) == views(paths@).filter(is_news(lib@, views(expected.rows@), now)),
{
    let ghost all = views(paths@);
    let ghost q = is_news(lib@, views(expected.rows@), now);
    let mut r: Vec<String> = Vec::new();
    proof {
        take_none_filter(all, q);
        assert(views(r@) =~= all.take(0).filter(q));
    }
    for i in 0..paths.len()
        invariant
            all == views(paths@),
            q == is_news(lib@, views(expected.rows@), now),
            views(r@) == all.take(i as int).filter(q),
    {
        let p: &String = &paths[i];
        proof {
            filter_step(all, q, i as int);
            assert(all[i as int] == p@);
        }
        if !expected.is_expected(p.as_str(), now) && !is_internal_path(p.as_str())
            && find_path(&lib.tracks, p.as_str()).is_none() {
            let s: String = p.clone();
            proof {
                views_push(r@, s);
            }
            r.push(s);
        }
    }
    proof {
        take_all(all);
    }
    r
}

fn find_path(rows: &Vec<TrackRow>, path: &str) -> (r: Option<usize>)
    ensures
        match r {
            Some(i) => i < rows@.len() && first_where(
                views(rows@),
                keyed(track_path_key(), path@),
            ) == Some(i as int) && rows@[i as int].path@ == path@,
            None => first_where(views(rows@), keyed(track_path_key(), path@)) is None,
        },
{
    let hit = |t: &TrackRow| -> (b: bool)
        ensures
            b == (t.path@ == path@),
        { same(t.path.as_str(), path) };
    find(rows, hit, Ghost(keyed(track_path_key(), path@)))
}

/// The library once a file was moved.
pub open spec fn path_moved(l: LibraryView, from: Seq<char>, to: Seq<char>) -> LibraryView {
    match first_where(l.tracks, keyed(track_path_key(), from)) {
        Some(i) => LibraryView {
            tracks: l.tracks.update(i, TrackRowView { path: to, ..l.tracks[i] }),
            ..l
        },
        None => l,
    }
}

/// Writes down that a file was moved; refused where a track has the new path already.
pub fn move_path(lib: &mut Library, from: &str, to: &str) -> (r: Result<(), DbError>)
    requires
        old(lib)@.wf(),
    ensures
        r is Err <==> from@ != to@ && row_with(old(lib)@.tracks, track_path_key(), from@) is Some
            && row_with(old(lib)@.tracks, track_path_key(), to@) is Some,
        r is Err ==> r->Err_0 == DbError::Constraint && final(lib)@ == old(lib)@,
        r is Ok ==> final(lib)@ == path_moved(old(lib)@, from@, to@),
        final(lib)@.wf(),
{
    let i: usize = match find_path(&lib.tracks, from) {
        Some(i) => i,
        None => {
            return Ok(());
        },
    };
    let ghost l = lib@;
    if same(from, to) {
        proof {
            let t = l.tracks[i as int];
            assert(TrackRowView { path: to@, ..t } == t);
            assert(l.tracks.update(i as int, t) =~= l.tracks);
        }
        return Ok(());
    }
    if find_path(&lib.tracks, to).is_some() {
        return Err(DbError::Constraint);
    }
    let ghost was = lib.tracks@;
    lib.tracks[i].path = to.to_owned();
    proof {
        views_update(was, i as int, lib.tracks@[i as int]);
        assert(lib.tracks@ =~= was.update(i as int, lib.tracks@[i as int]));
        first_where_is_first(l.tracks, keyed(track_path_key(), to@));
        path_moved_wf(l, i as int, to@);
    }
    Ok(())
}

proof fn path_moved_wf(l: LibraryView, i: int, to: Seq<char>)
    requires
        l.wf(),
        0 <= i < l.tracks.len(),
        forall|k: int| 0 <= k < l.tracks.len() ==> !keyed(track_path_key(), to)(#[trigger] l.tracks[k]),
    ensures
        (LibraryView {
            tracks: l.tracks.update(i, TrackRowView { path: to, ..l.tracks[i] }),
            ..l
        }).wf(),
{
    let t = l.tracks.update(i, TrackRowView { path: to, ..l.tracks[i] });
    let m = LibraryView { tracks: t, ..l };
    same_ids_wf(l, m);
    assert forall|a: int, b: int| 0 <= a < b < t.len() implies track_path_key()(#[trigger] t[a])
        != track_path_key()(#[trigger] t[b]) by {
        assert(!keyed(track_path_key(), to)(l.tracks[a]));
        assert(!keyed(track_path_key(), to)(l.tracks[b]));
        assert(track_path_key()(l.tracks[a]) != track_path_key()(l.tracks[b]));
    }
}

/// Tracks of the same ids and uids: all but their paths is as it was.
proof fn same_ids_wf(l: LibraryView, m: LibraryView)
    requires
        l.wf(),
        m == (LibraryView { tracks: m.tracks, ..l }),
        m.tracks.len() == l.tracks.len(),
        forall|i: int|
            0 <= i < l.tracks.len() ==> (#[trigger] m.tracks[i]).id == l.tracks[i].id
                && m.tracks[i].uid == l.tracks[i].uid,
    ensures
        crate::library::distinct(m.tracks, track_id()),
        crate::library::distinct_where_some(m.tracks, crate::library::track_uid_key()),
        crate::library::members_exist(m.playlist_tracks, m.playlists, m.tracks),
{
    distinct_same_keys(l.tracks, m.tracks, track_id());
    crate::library::distinct_some_same_keys(
        l.tracks,
        m.tracks,
        crate::library::track_uid_key(),
    );
    assert forall|i: int| 0 <= i < m.playlist_tracks.len() implies crate::library::is_playlist(
        m.playlists,
        (#[trigger] m.playlist_tracks[i]).playlist_id,
    ) && crate::library::is_track(m.tracks, m.playlist_tracks[i].track_id) by {
        assert(crate::library::is_track(l.tracks, l.playlist_tracks[i].track_id));
        let k = choose|k: int|
            0 <= k < l.tracks.len() && (#[trigger] l.tracks[k]).id == l.playlist_tracks[i].track_id;
        assert(m.tracks[k].id == l.playlist_tracks[i].track_id);
    }
}

/// The path from a folder to what lies in it; nothing where it lies elsewhere.
pub open spec fn relative_path(dir: Seq<char>, path: Seq<char>, sep: char) -> Option<Seq<char>> {
    let base = if dir.len() > 0 && dir.last() == sep {
        dir.drop_last()
    } else {
        dir
    };
    if path == base {
        Some(Seq::empty())
    } else if path.len() > base.len() && path.take(base.len() as int) == base && path[base.len() as int]
        == sep {
        Some(path.skip(base.len() as int + 1))
    } else {
        None
    }
}

/// The path from a folder to what lies in it.
pub fn relative_to(dir: &str, path: &str, sep: char) -> (r: Option<String>)
    ensures
        opt_view(r) == relative_path(dir@, path@, sep),
{
    let d: Vec<char> = chars_of(dir);
    let p: Vec<char> = chars_of(path);
    let n: usize = p.len();
    let mut m: usize = d.len();
    if m > 0 && d[m - 1] == sep {
        m = m - 1;
    }
    let ghost base = d@.take(m as int);
    proof {
        assert(base =~= if dir@.len() > 0 && dir@.last() == sep {
            dir@.drop_last()
        } else {
            dir@
        });
    }
    if n < m {
        return None;
    }
    for i in 0..m
        invariant
            d@ == dir@,
            p@ == path@,
            n == p@.len(),
            m <= n,
            m <= d@.len(),
            base == d@.take(m as int),
            base.len() == m,
            base == if dir@.len() > 0 && dir@.last() == sep {
                dir@.drop_last()
            } else {
                dir@
            },
            forall|k: int| 0 <= k < i ==> p@[k] == #[trigger] base[k],
    {
        proof {
            assert(base[i as int] == d@[i as int]);
        }
        if d[i] != p[i] {
            proof {
                if path@ == base {
                    assert(path@[i as int] == base[i as int]);
                }
                if path@.take(m as int) == base {
                    assert(path@.take(m as int)[i as int] == base[i as int]);
                }
            }
            return None;
        }
    }
    proof {
        assert(path@.take(m as int) =~= base);
    }
    if n == m {
        proof {
            assert(path@ =~= base);
            assert(""@ =~= Seq::empty()) by {
                reveal_strlit("");
            }
        }
        return Some("".to_owned());
    }
    if p[m] != sep {
        return None;
    }
    let r: String = text_of(&p, m + 1, n);
    proof {
        assert(r@ =~= path@.skip(m + 1));
    }
    Some(r)
}

/// A track with its path inside the managed folder, where it has none yet and lies
/// there.
pub open spec fn with_rel_path(dir: Seq<char>, sep: char) -> spec_fn(TrackRowView) -> TrackRowView {
    |t: TrackRowView|
        if t.rel_path is None && relative_path(dir, t.path, sep) is Some {
            TrackRowView { rel_path: relative_path(dir, t.path, sep), ..t }
        } else {
            t
        }
}

pub open spec fn lacks_rel_path(dir: Seq<char>, sep: char) -> spec_fn(TrackRowView) -> bool {
    |t: TrackRowView| t.rel_path is None && relative_path(dir, t.path, sep) is Some
}

/// Fills in, for every track that has none, its path inside the managed folder; how
/// many there were. What lies elsewhere is left without: it cannot be synchronised.
pub fn backfill_rel_paths(lib: &mut Library, music_dir: &str, sep: char) -> (r: usize)
    ensures
        final(lib)@ == (LibraryView {
            tracks: old(lib)@.tracks.map_values(with_rel_path(music_dir@, sep)),
            ..old(lib)@
        }),
        r == count(old(lib)@.tracks, lacks_rel_path(music_dir@, sep)),
        old(lib)@.wf() ==> final(lib)@.wf(),
{
    let ghost l = lib@;
    let r: usize = fill_rel_paths(&mut lib.tracks, music_dir, sep);
    proof {
        if l.wf() {
            let m = lib@;
            same_ids_wf(l, m);
            distinct_same_keys(l.tracks, m.tracks, track_path_key());
        }
    }
    r
}

fn fill_rel_paths(rows: &mut Vec<TrackRow>, music_dir: &str, sep: char) -> (r: usize)
    ensures
        views(final(rows)@) == views(old(rows)@).map_values(with_rel_path(music_dir@, sep)),
        r == count(views(old(rows)@), lacks_rel_path(music_dir@, sep)),
{
    let ghost start = views(rows@);
    let ghost f = with_rel_path(music_dir@, sep);
    let ghost q = lacks_rel_path(music_dir@, sep);
    let n: usize = rows.len();
    let mut done: usize = 0;
    proof {
        take_none_filter(start, q);
    }
    for i in 0..n
        invariant
            n == rows@.len(),
            n == start.len(),
            start == views(old(rows)@),
            f == with_rel_path(music_dir@, sep),
            q == lacks_rel_path(music_dir@, sep),
            done <= i,
            done == start.take(i as int).filter(q).len(),
            forall|k: int|
                0 <= k < n ==> #[trigger] views(rows@)[k] == if k < i {
                    f(start[k])
                } else {
                    start[k]
                },
    {
        let ghost was = rows@;
        proof {
            assert(views(rows@)[i as int] == rows@[i as int]@);
            filter_step(start, q, i as int);
        }
        if rows[i].rel_path.is_none() {
            let rel: Option<String> = relative_to(music_dir, rows[i].path.as_str(), sep);
            if rel.is_some() {
                rows[i].rel_path = rel;
                proof {
                    views_update(was, i as int, rows@[i as int]);
                    assert(rows@ =~= was.update(i as int, rows@[i as int]));
                }
                done = done + 1;
            }
        }
        proof {
            assert forall|k: int| 0 <= k < n implies #[trigger] views(rows@)[k] == if k < i + 1 {
                f(start[k])
            } else {
                start[k]
            } by {
                if k != i {
                    assert(views(rows@)[k] == views(was)[k]);
                }
            }
        }
    }
    proof {
        take_all(start);
        assert(views(rows@) =~= start.map_values(f));
    }
    done
}

// ---------------------------------------------------------------------------
// Hashes
// ---------------------------------------------------------------------------

pub open spec fn has_no_hash() -> spec_fn(TrackRowView) -> bool {
    |t: TrackRowView| t.content_hash is None
}

/// The tracks whose file has not been hashed yet.
pub fn unhashed(lib: &Library) -> (r: Vec<i64>)
    ensures
        r@ == lib@.tracks.filter(has_no_hash()).map_values(track_id()),
{
    let ghost rows = lib@.tracks;
    let ghost q = has_no_hash();
    let mut r: Vec<i64> = Vec::new();
    proof {
        take_none_filter(rows, q);
        assert(r@ =~= rows.take(0).filter(q).map_values(track_id()));
    }
    for i in 0..lib.tracks.len()
        invariant
            rows == lib@.tracks,
            rows.len() == lib.tracks@.len(),
            q == has_no_hash(),
            r@ == rows.take(i as int).filter(q).map_values(track_id()),
    {
        proof {
            filter_step(rows, q, i as int);
            assert(rows[i as int] == lib.tracks@[i as int]@);
        }
        if lib.tracks[i].content_hash.is_none() {
            r.push(lib.tracks[i].id);
        }
        assert(r@ =~= rows.take(i + 1).filter(q).map_values(track_id()));
    }
    proof {
        take_all(rows);
    }
    r
}

/// The library once the file of a track was hashed.
pub open spec fn hash_stored(l: LibraryView, id: i64, hash: Seq<char>, size: i64, mtime: i64) -> LibraryView {
    match first_where(l.tracks, keyed(track_id(), id)) {
        Some(i) => LibraryView {
            tracks: l.tracks.update(
                i,
                TrackRowView {
                    content_hash: Some(hash),
                    size_bytes: Some(size),
                    mtime_ms: Some(mtime),
                    ..l.tracks[i]
                },
            ),
            ..l
        },
        None => l,
    }
}

/// Writes down the hash of a track's file, with its size and the time it was changed.
pub fn store_hash(lib: &mut Library, id: i64, hash: &str, size: i64, mtime: i64)
    ensures
        final(lib)@ == hash_stored(old(lib)@, id, hash@, size, mtime),
        old(lib)@.wf() ==> final(lib)@.wf(),
{
    let hit = |t: &TrackRow| -> (b: bool)
        ensures
            b == (t.id == id),
        { t.id == id };
    if let Some(i) = find(&lib.tracks, hit, Ghost(keyed(track_id(), id))) {
        let ghost l = lib@;
        let mut t: TrackRow = lib.tracks[i].clone();
        t.content_hash = Some(hash.to_owned());
        t.size_bytes = Some(size);
        t.mtime_ms = Some(mtime);
        proof {
            views_update(lib.tracks@, i as int, t);
        }
        lib.tracks.set(i, t);
        proof {
            if l.wf() {
                same_ids_wf(l, lib@);
                distinct_same_keys(l.tracks, lib@.tracks, track_path_key());
            }
        }
    }
}

/// Whether to tell how far hashing is: after every 25 files, and after the last.
pub fn tells_progress(done: usize, total: usize) -> (r: bool)
    ensures
        r == (done % 25 == 0 || done == total),
{
    done % 25 == 0 || done == total
}

// ---------------------------------------------------------------------------
// The trash of the library
// ---------------------------------------------------------------------------

/// How long a file stays in the trash of the library.
pub const RETENTION_DAYS: u64 = 30;

/// A file that went to the trash that long ago is deleted for good.
pub fn is_past_retention(age_secs: u64) -> (r: bool)
    ensures
        r == (age_secs > RETENTION_DAYS * 24 * 60 * 60),
{
    age_secs > RETENTION_DAYS * 24 * 60 * 60
}

// ---------------------------------------------------------------------------
// Playing
// ---------------------------------------------------------------------------

pub open spec fn at_least_zero(n: Option<i64>) -> i64 {
    match n {
        Some(x) => if x > 0 {
            x
        } else {
            0
        },
        None => 0,
    }
}

fn not_negative(n: Option<i64>) -> (r: i64)
    ensures
        r == at_least_zero(n),
{
    match n {
        Some(x) => if x > 0 {
            x
        } else {
            0
        },
        None => 0,
    }
}

/// What the player has to know of a track, with what was measured of it; nothing
/// where there is no such track. Where nothing was measured, nothing is cut off.
pub fn cue_for(lib: &Library, id: i64, lead: Option<i64>, audio_end: Option<i64>) -> (r: Option<Cue>)
    ensures
        match row_with(lib@.tracks, track_id(), id) {
            None => r is None,
            Some(t) => match r {
                None => false,
                Some(c) => c.id == id && c.path@ == t.path && c.duration_ms == at_least_zero(
                    Some(t.duration_ms),
                ) && c.lead_ms == at_least_zero(lead) && c.audio_end_ms == at_least_zero(
                    audio_end,
                ),
            },
        },
{
    let hit = |t: &TrackRow| -> (b: bool)
        ensures
            b == (t.id == id),
        { t.id == id };
    match find(&lib.tracks, hit, Ghost(keyed(track_id(), id))) {
        None => None,
        Some(i) => {
            let t: &TrackRow = &lib.tracks[i];
            Some(
                Cue {
                    id,
                    path: t.path.clone(),
                    duration_ms: not_negative(Some(t.duration_ms)) as u64,
                    lead_ms: not_negative(lead) as u64,
                    audio_end_ms: not_negative(audio_end) as u64,
                },
            )
        },
    }
}

/// What is cut off at the ends of a track for a player that is not this one: nothing
/// where tracks fade into each other, for there is no gap to close then.
pub fn cue_trims(gapless: bool, crossfades: bool, lead: Option<i64>, audio_end: Option<i64>) -> (r: (
    i64,
    i64,
))
    ensures
        r == if gapless && !crossfades {
            (at_least_zero(lead), at_least_zero(audio_end))
        } else {
            (0i64, 0i64)
        },
{
    if gapless && !crossfades {
        (not_negative(lead), not_negative(audio_end))
    } else {
        (0, 0)
    }
}

} // verus!
