//! Selective synchronisation: which playlists each device wants.
//!
//! A scope is shared data, not local configuration: it can be edited from any
//! device, and the newest row wins. It decides which files travel and nothing
//! else: playlists, order and metadata are always shared whole. Unmarking stops
//! the synchronisation of the files; it deletes none.

pub use crate::scope_db::{
    all_device_sync, apply_device_sync, apply_entry, entries, evict, evictable, find_in_trash,
    finish_restore, get, note_replicas, restorable, scope_playlists, scope_tracks,
    scope_tracks_of_playlist, select_new_local, set_direction, set_mode, set_playlist,
    stranded_counts, Evictable, Restorable,
};
use crate::graph::{closed_set_holds_all, next_is_reached, reaches, root_is_reached};
use crate::library::{device_sync_key, distinct, distinct_push, distinct_same_keys, scope_key};
use crate::manifest::{DeviceSync, DeviceSyncView, Membership, MembershipView, PlaylistEntry};
use crate::manifest::{
    FileTransfer, FileTransferView, Plan, PlaylistEntryView, ScopeEntry, ScopeEntryView,
};
use crate::seqs::{views, views_push, views_update};
use crate::table::{
    find, first_where_is_first, keyed, retain, row_with, row_with_push, row_with_update,
};
use crate::text::same;
use crate::uidset::UidSet;
use vstd::prelude::*;

verus! {

broadcast use vstd::string::group_string_axioms;

/// How much of the library a device wants.
#[derive(Debug, Clone, Copy, PartialEq, Eq, Structural)]
pub enum Mode {
    /// All of it.
    All,
    /// Only what hangs from the marked playlists and folders.
    Selected,
}

impl Mode {
    pub open spec fn of_setting(s: Seq<char>) -> Mode {
        if s == "selected"@ {
            Mode::Selected
        } else {
            Mode::All
        }
    }

    pub open spec fn setting(self) -> Seq<char> {
        match self {
            Mode::All => "all"@,
            Mode::Selected => "selected"@,
        }
    }

    /// The mode that a stored text stands for.
    pub fn from_setting(s: &str) -> (r: Self)
        ensures
            r == Mode::of_setting(s@),
    {
        if same(s, "selected") {
            Mode::Selected
        } else {
            Mode::All
        }
    }

    /// The text under which the mode is stored.
    pub fn as_str(self) -> (r: &'static str)
        ensures
            r@ == self.setting(),
    {
        match self {
            Mode::All => "all",
            Mode::Selected => "selected",
        }
    }
}

/// A stored mode is read back as it was.
pub proof fn stored_modes_are_read_back(m: Mode)
    ensures
        Mode::of_setting(m.setting()) == m,
{
    reveal_strlit("all");
    reveal_strlit("selected");
    assert("all"@.len() != "selected"@.len());
}

/// What a device does: it sends, it receives, both, or neither.
#[derive(Debug, Clone, Copy, PartialEq, Eq, Structural)]
pub struct Direction {
    pub sends: bool,
    pub receives: bool,
}

impl Direction {
    pub open spec fn of_setting(s: Seq<char>) -> Direction {
        if s == "off"@ {
            Direction { sends: false, receives: false }
        } else if s == "send"@ {
            Direction { sends: true, receives: false }
        } else if s == "receive"@ {
            Direction { sends: false, receives: true }
        } else {
            Direction { sends: true, receives: true }
        }
    }

    /// The direction that a stored text stands for.
    pub fn from_setting(s: &str) -> (r: Self)
        ensures
            r == Direction::of_setting(s@),
    {
        if same(s, "off") {
            Direction { sends: false, receives: false }
        } else if same(s, "send") {
            Direction { sends: true, receives: false }
        } else if same(s, "receive") {
            Direction { sends: false, receives: true }
        } else {
            Direction { sends: true, receives: true }
        }
    }
}

impl Direction {
    pub open spec fn setting(self) -> Seq<char> {
        match (self.sends, self.receives) {
            (true, true) => "both"@,
            (true, false) => "send"@,
            (false, true) => "receive"@,
            (false, false) => "off"@,
        }
    }

    /// The text that stands for the direction.
    pub fn as_str(&self) -> (r: &'static str)
        ensures
            r@ == self.setting(),
    {
        match (self.sends, self.receives) {
            (true, true) => "both",
            (true, false) => "send",
            (false, true) => "receive",
            (false, false) => "off",
        }
    }
}

/// A direction that was stored is read back as it was.
pub proof fn stored_directions_are_read_back(d: Direction)
    ensures
        Direction::of_setting(d.setting()) == d,
{
    reveal_strlit("both");
    reveal_strlit("send");
    reveal_strlit("receive");
    reveal_strlit("off");
    assert("both"@[0] != "send"@[0]);
    assert("both"@.len() != "receive"@.len());
    assert("both"@.len() != "off"@.len());
    assert("send"@.len() != "off"@.len());
    assert("receive"@.len() != "off"@.len());
    assert("receive"@.len() != "send"@.len());
}

impl Default for Direction {
    fn default() -> (r: Self)
        ensures
            r == (Direction { sends: true, receives: true }),
    {
        Direction { sends: true, receives: true }
    }
}

/// What a device wants: a direction, a mode, and the uids marked by hand.
#[derive(Debug)]
pub struct Scope {
    pub mode: Mode,
    pub direction: Direction,
    pub selected: UidSet,
}

pub struct ScopeView {
    pub mode: Mode,
    pub direction: Direction,
    pub selected: Set<Seq<char>>,
}

impl View for Scope {
    type V = ScopeView;

    open spec fn view(&self) -> ScopeView {
        ScopeView { mode: self.mode, direction: self.direction, selected: self.selected@ }
    }
}

impl Clone for Scope {
    fn clone(&self) -> (r: Self)
        ensures
            r@ == self@,
    {
        Scope { mode: self.mode, direction: self.direction, selected: self.selected.clone() }
    }
}

impl Default for Scope {
    fn default() -> (r: Self)
        ensures
            r@ == (ScopeView {
                mode: Mode::All,
                direction: Direction { sends: true, receives: true },
                selected: Set::empty(),
            }),
    {
        Scope { mode: Mode::All, direction: Direction::default(), selected: UidSet::new() }
    }
}

pub open spec fn linked(local: Direction, remote: Direction) -> (bool, bool) {
    (local.receives && remote.sends, local.sends && remote.receives)
}

/// What can move between two devices: whether `local` takes from `remote`, and
/// whether it gives to it. One side moves only if it sends and the other receives.
pub fn link(local: &Direction, remote: &Direction) -> (r: (bool, bool))
    ensures
        r == linked(*local, *remote),
{
    (local.receives && remote.sends, local.sends && remote.receives)
}

/// Both sides come to the same conclusion: what one takes, the other gives.
pub proof fn links_agree_on_both_sides(a: Direction, b: Direction)
    ensures
        linked(a, b).0 == linked(b, a).1,
        linked(a, b).1 == linked(b, a).0,
{
}

/// A device that does not send gives nothing to anyone, and one that does not
/// receive takes nothing from anyone.
pub proof fn a_device_moves_only_what_it_does(a: Direction, b: Direction)
    ensures
        !a.sends ==> !linked(a, b).1,
        !a.receives ==> !linked(a, b).0,
{
}

// ---------------------------------------------------------------------------
// The newest row wins
// ---------------------------------------------------------------------------

/// The newest row of a device; where two are as new as each other, the first.
pub open spec fn newest_sync(rows: Seq<DeviceSyncView>, uid: Seq<char>) -> Option<DeviceSyncView>
    decreases rows.len(),
{
    if rows.len() == 0 {
        None
    } else {
        let earlier = newest_sync(rows.drop_last(), uid);
        let last = rows.last();
        if last.device_uid != uid {
            earlier
        } else if earlier is Some && earlier->0.updated_at >= last.updated_at {
            earlier
        } else {
            Some(last)
        }
    }
}

/// The newest row of a device and a playlist; where two are as new as each other,
/// the first.
pub open spec fn newest_entry(
    rows: Seq<ScopeEntryView>,
    key: (Seq<char>, Seq<char>),
) -> Option<ScopeEntryView>
    decreases rows.len(),
{
    if rows.len() == 0 {
        None
    } else {
        let earlier = newest_entry(rows.drop_last(), key);
        let last = rows.last();
        if scope_key()(last) != key {
            earlier
        } else if earlier is Some && earlier->0.updated_at >= last.updated_at {
            earlier
        } else {
            Some(last)
        }
    }
}

/// No row of the same device is newer than the one that wins, and one wins
/// wherever there is a row.
pub proof fn no_sync_row_is_newer(rows: Seq<DeviceSyncView>, uid: Seq<char>, i: int)
    requires
        0 <= i < rows.len(),
        rows[i].device_uid == uid,
    ensures
        newest_sync(rows, uid) is Some,
        newest_sync(rows, uid)->0.updated_at >= rows[i].updated_at,
        rows.contains(newest_sync(rows, uid)->0),
        newest_sync(rows, uid)->0.device_uid == uid,
    decreases rows.len(),
{
    let t = rows.drop_last();
    if i < t.len() {
        assert(t[i] == rows[i]);
        no_sync_row_is_newer(t, uid, i);
        let w = newest_sync(t, uid)->0;
        let k = choose|k: int| 0 <= k < t.len() && t[k] == w;
        assert(rows[k] == w);
        assert(rows[rows.len() - 1] == rows.last());
    } else {
        assert(rows[i] == rows.last());
        if newest_sync(t, uid) is Some {
            newest_sync_is_a_row(t, uid);
            let w = newest_sync(t, uid)->0;
            let k = choose|k: int| 0 <= k < t.len() && t[k] == w;
            assert(rows[k] == w);
        }
    }
}

proof fn newest_sync_is_a_row(rows: Seq<DeviceSyncView>, uid: Seq<char>)
    requires
        newest_sync(rows, uid) is Some,
    ensures
        rows.contains(newest_sync(rows, uid)->0),
        newest_sync(rows, uid)->0.device_uid == uid,
    decreases rows.len(),
{
    let t = rows.drop_last();
    if newest_sync(t, uid) == newest_sync(rows, uid) {
        newest_sync_is_a_row(t, uid);
        let w = newest_sync(t, uid)->0;
        let k = choose|k: int| 0 <= k < t.len() && t[k] == w;
        assert(rows[k] == w);
    } else {
        assert(rows[rows.len() - 1] == rows.last());
    }
}

/// No row of the same device and playlist is newer than the one that wins, and
/// one wins wherever there is a row.
pub proof fn no_scope_row_is_newer(
    rows: Seq<ScopeEntryView>,
    key: (Seq<char>, Seq<char>),
    i: int,
)
    requires
        0 <= i < rows.len(),
        scope_key()(rows[i]) == key,
    ensures
        newest_entry(rows, key) is Some,
        newest_entry(rows, key)->0.updated_at >= rows[i].updated_at,
        rows.contains(newest_entry(rows, key)->0),
        scope_key()(newest_entry(rows, key)->0) == key,
    decreases rows.len(),
{
    let t = rows.drop_last();
    if i < t.len() {
        assert(t[i] == rows[i]);
        no_scope_row_is_newer(t, key, i);
        let w = newest_entry(t, key)->0;
        let k = choose|k: int| 0 <= k < t.len() && t[k] == w;
        assert(rows[k] == w);
        assert(rows[rows.len() - 1] == rows.last());
    } else {
        assert(rows[i] == rows.last());
        if newest_entry(t, key) is Some {
            newest_entry_is_a_row(t, key);
            let w = newest_entry(t, key)->0;
            let k = choose|k: int| 0 <= k < t.len() && t[k] == w;
            assert(rows[k] == w);
        }
    }
}

proof fn newest_entry_is_a_row(rows: Seq<ScopeEntryView>, key: (Seq<char>, Seq<char>))
    requires
        newest_entry(rows, key) is Some,
    ensures
        rows.contains(newest_entry(rows, key)->0),
        scope_key()(newest_entry(rows, key)->0) == key,
    decreases rows.len(),
{
    let t = rows.drop_last();
    if newest_entry(t, key) == newest_entry(rows, key) {
        newest_entry_is_a_row(t, key);
        let w = newest_entry(t, key)->0;
        let k = choose|k: int| 0 <= k < t.len() && t[k] == w;
        assert(rows[k] == w);
    } else {
        assert(rows[rows.len() - 1] == rows.last());
    }
}

/// The rows hold the newest of each device, and each device once.
pub open spec fn is_newest_sync(r: Seq<DeviceSyncView>, all: Seq<DeviceSyncView>) -> bool {
    &&& distinct(r, device_sync_key())
    &&& forall|u: Seq<char>| #[trigger] row_with(r, device_sync_key(), u) == newest_sync(all, u)
}

/// The rows hold the newest of each device and playlist, and each pair once.
pub open spec fn is_newest_scope(r: Seq<ScopeEntryView>, all: Seq<ScopeEntryView>) -> bool {
    &&& distinct(r, scope_key())
    &&& forall|k: (Seq<char>, Seq<char>)| #[trigger]
        row_with(r, scope_key(), k) == newest_entry(all, k)
}

fn take_in_sync(r: &mut Vec<DeviceSync>, e: &DeviceSync, Ghost(all): Ghost<Seq<DeviceSyncView>>)
    requires
        is_newest_sync(views(old(r)@), all),
    ensures
        is_newest_sync(views(final(r)@), all.push(e@)),
{
    let ghost key = device_sync_key();
    let ghost before = views(r@);
    let hit = |x: &DeviceSync| -> (b: bool)
        ensures
            b == (x.device_uid@ == e.device_uid@),
        { same(x.device_uid.as_str(), e.device_uid.as_str()) };
    let at: Option<usize> = find(r, hit, Ghost(keyed(key, e.device_uid@)));
    proof {
        assert(all.push(e@).drop_last() =~= all);
        first_where_is_first(before, keyed(key, e.device_uid@));
        assert(row_with(before, key, e.device_uid@) == newest_sync(all, e.device_uid@));
    }
    match at {
        Some(i) => {
            if r[i].updated_at < e.updated_at {
                let x: DeviceSync = e.clone();
                proof {
                    views_update(r@, i as int, x);
                    distinct_same_keys(before, before.update(i as int, x@), key);
                    assert forall|u: Seq<char>| #[trigger]
                        row_with(before.update(i as int, x@), key, u) == newest_sync(all.push(e@), u) by {
                        row_with_update(before, key, i as int, x@, u);
                        assert(row_with(before, key, u) == newest_sync(all, u));
                    }
                }
                r.set(i, x);
            } else {
                proof {
                    assert forall|u: Seq<char>| #[trigger]
                        row_with(before, key, u) == newest_sync(all.push(e@), u) by {
                        assert(row_with(before, key, u) == newest_sync(all, u));
                    }
                }
            }
        },
        None => {
            let x: DeviceSync = e.clone();
            proof {
                views_push(r@, x);
                assert forall|j: int| 0 <= j < before.len() implies key(#[trigger] before[j]) != key(
                    x@,
                ) by {
                    assert(!keyed(key, e.device_uid@)(before[j]));
                }
                distinct_push(before, x@, key);
                assert forall|u: Seq<char>| #[trigger]
                    row_with(before.push(x@), key, u) == newest_sync(all.push(e@), u) by {
                    row_with_push(before, key, x@, u);
                    assert(row_with(before, key, u) == newest_sync(all, u));
                }
            }
            r.push(x);
        },
    }
}

fn take_in_entry(r: &mut Vec<ScopeEntry>, e: &ScopeEntry, Ghost(all): Ghost<Seq<ScopeEntryView>>)
    requires
        is_newest_scope(views(old(r)@), all),
    ensures
        is_newest_scope(views(final(r)@), all.push(e@)),
{
    let ghost key = scope_key();
    let ghost k0 = scope_key()(e@);
    let ghost before = views(r@);
    let hit = |x: &ScopeEntry| -> (b: bool)
        ensures
            b == (x.device_uid@ == e.device_uid@ && x.playlist_uid@ == e.playlist_uid@),
        {
            same(x.device_uid.as_str(), e.device_uid.as_str()) && same(
                x.playlist_uid.as_str(),
                e.playlist_uid.as_str(),
            )
        };
    let at: Option<usize> = find(r, hit, Ghost(keyed(key, k0)));
    proof {
        assert(all.push(e@).drop_last() =~= all);
        first_where_is_first(before, keyed(key, k0));
        assert(row_with(before, key, k0) == newest_entry(all, k0));
    }
    match at {
        Some(i) => {
            if r[i].updated_at < e.updated_at {
                let x: ScopeEntry = e.clone();
                proof {
                    views_update(r@, i as int, x);
                    distinct_same_keys(before, before.update(i as int, x@), key);
                    assert forall|u: (Seq<char>, Seq<char>)| #[trigger]
                        row_with(before.update(i as int, x@), key, u) == newest_entry(
                            all.push(e@),
                            u,
                        ) by {
                        row_with_update(before, key, i as int, x@, u);
                        assert(row_with(before, key, u) == newest_entry(all, u));
                    }
                }
                r.set(i, x);
            } else {
                proof {
                    assert forall|u: (Seq<char>, Seq<char>)| #[trigger]
                        row_with(before, key, u) == newest_entry(all.push(e@), u) by {
                        assert(row_with(before, key, u) == newest_entry(all, u));
                    }
                }
            }
        },
        None => {
            let x: ScopeEntry = e.clone();
            proof {
                views_push(r@, x);
                assert forall|j: int| 0 <= j < before.len() implies key(#[trigger] before[j]) != key(
                    x@,
                ) by {
                    assert(!keyed(key, k0)(before[j]));
                }
                distinct_push(before, x@, key);
                assert forall|u: (Seq<char>, Seq<char>)| #[trigger]
                    row_with(before.push(x@), key, u) == newest_entry(all.push(e@), u) by {
                    row_with_push(before, key, x@, u);
                    assert(row_with(before, key, u) == newest_entry(all, u));
                }
            }
            r.push(x);
        },
    }
}

/// Both sides' rows, keeping the newest of each device and playlist.
pub fn merge_entries(a: &[ScopeEntry], b: &[ScopeEntry]) -> (r: Vec<ScopeEntry>)
    ensures
        is_newest_scope(views(r@), views(a@) + views(b@)),
{
    let mut r: Vec<ScopeEntry> = Vec::new();
    let ghost all = views(a@) + views(b@);
    proof {
        assert(all.take(0) =~= Seq::empty());
        assert(views(r@) =~= Seq::empty());
    }
    for i in 0..a.len()
        invariant
            all == views(a@) + views(b@),
            is_newest_scope(views(r@), all.take(i as int)),
    {
        take_in_entry(&mut r, &a[i], Ghost(all.take(i as int)));
        proof {
            assert(all.take(i + 1) =~= all.take(i as int).push(a@[i as int]@));
        }
    }
    for i in 0..b.len()
        invariant
            all == views(a@) + views(b@),
            is_newest_scope(views(r@), all.take(a@.len() + i)),
    {
        take_in_entry(&mut r, &b[i], Ghost(all.take(a@.len() + i)));
        proof {
            assert(all.take(a@.len() + i + 1) =~= all.take(a@.len() + i).push(b@[i as int]@));
        }
    }
    proof {
        assert(all.take(all.len() as int) =~= all);
    }
    r
}

/// Both sides' rows, keeping the newest of each device.
pub fn merge_device_sync(a: &[DeviceSync], b: &[DeviceSync]) -> (r: Vec<DeviceSync>)
    ensures
        is_newest_sync(views(r@), views(a@) + views(b@)),
{
    let mut r: Vec<DeviceSync> = Vec::new();
    let ghost all = views(a@) + views(b@);
    proof {
        assert(all.take(0) =~= Seq::empty());
        assert(views(r@) =~= Seq::empty());
    }
    for i in 0..a.len()
        invariant
            all == views(a@) + views(b@),
            is_newest_sync(views(r@), all.take(i as int)),
    {
        take_in_sync(&mut r, &a[i], Ghost(all.take(i as int)));
        proof {
            assert(all.take(i + 1) =~= all.take(i as int).push(a@[i as int]@));
        }
    }
    for i in 0..b.len()
        invariant
            all == views(a@) + views(b@),
            is_newest_sync(views(r@), all.take(a@.len() + i)),
    {
        take_in_sync(&mut r, &b[i], Ghost(all.take(a@.len() + i)));
        proof {
            assert(all.take(a@.len() + i + 1) =~= all.take(a@.len() + i).push(b@[i as int]@));
        }
    }
    proof {
        assert(all.take(all.len() as int) =~= all);
    }
    r
}

/// The scope that a device's row and marks amount to.
pub open spec fn scope_of(
    row: Option<DeviceSyncView>,
    marked: Set<Seq<char>>,
) -> ScopeView {
    ScopeView {
        mode: match row {
            Some(m) => Mode::of_setting(m.mode),
            None => Mode::All,
        },
        direction: match row {
            Some(m) => Direction::of_setting(m.direction),
            None => Direction { sends: true, receives: true },
        },
        selected: marked,
    }
}

/// The playlists that a device has marked.
pub open spec fn marked_by(entries: Seq<ScopeEntryView>, device_uid: Seq<char>) -> Set<Seq<char>> {
    Set::new(
        |u: Seq<char>|
            exists|i: int|
                0 <= i < entries.len() && (#[trigger] entries[i]).device_uid == device_uid
                    && entries[i].selected && entries[i].playlist_uid == u,
    )
}

pub(crate) fn marks(entries: &[ScopeEntry], device_uid: &str) -> (r: UidSet)
    ensures
        r@ == marked_by(views(entries@), device_uid@),
        r.wf(),
{
    let mut r: UidSet = UidSet::new();
    let ghost v = views(entries@);
    for i in 0..entries.len()
        invariant
            v == views(entries@),
            r.wf(),
            forall|u: Seq<char>| #[trigger]
                r@.contains(u) <==> exists|j: int|
                    0 <= j < i && (#[trigger] v[j]).device_uid == device_uid@ && v[j].selected
                        && v[j].playlist_uid == u,
    {
        let e: &ScopeEntry = &entries[i];
        let ghost before = r@;
        if e.selected && same(e.device_uid.as_str(), device_uid) {
            r.insert(e.playlist_uid.clone());
        }
        proof {
            assert(v[i as int] == e@);
            assert forall|u: Seq<char>| #[trigger]
                r@.contains(u) <==> exists|j: int|
                    0 <= j < i + 1 && (#[trigger] v[j]).device_uid == device_uid@ && v[j].selected
                        && v[j].playlist_uid == u by {
                if before.contains(u) {
                    let j = choose|j: int|
                        0 <= j < i && (#[trigger] v[j]).device_uid == device_uid@ && v[j].selected
                            && v[j].playlist_uid == u;
                    assert(0 <= j < i + 1 && v[j].device_uid == device_uid@);
                }
            }
        }
    }
    proof {
        assert(r@ =~= marked_by(v, device_uid@));
    }
    r
}

/// The scope of a device, out of rows that travel between devices.
pub fn from_entries(device_uid: &str, entries: &[ScopeEntry], modes: &[DeviceSync]) -> (r: Scope)
    ensures
        r@ == scope_of(
            row_with(views(modes@), device_sync_key(), device_uid@),
            marked_by(views(entries@), device_uid@),
        ),
{
    let selected: UidSet = marks(entries, device_uid);
    let ghost v = views(modes@);
    let ghost p = keyed(device_sync_key(), device_uid@);
    for i in 0..modes.len()
        invariant
            v == views(modes@),
            p == keyed(device_sync_key(), device_uid@),
            selected@ == marked_by(views(entries@), device_uid@),
            forall|j: int| 0 <= j < i ==> !p(#[trigger] v[j]),
    {
        if same(modes[i].device_uid.as_str(), device_uid) {
            proof {
                crate::table::first_where_at(v, p, i as int);
            }
            return Scope {
                mode: Mode::from_setting(modes[i].mode.as_str()),
                direction: Direction::from_setting(modes[i].direction.as_str()),
                selected,
            };
        }
    }
    proof {
        first_where_is_first(v, p);
    }
    Scope { mode: Mode::All, direction: Direction::default(), selected }
}

/// What a device does, by the newest of the rows of both sides.
pub open spec fn direction_by(rows: Seq<DeviceSyncView>, uid: Seq<char>) -> Direction {
    scope_of(newest_sync(rows, uid), Set::empty()).direction
}

/// What can move between two devices, by the newest row of each that either side
/// has.
pub fn link_from(
    local_uid: &str,
    remote_uid: &str,
    mine: &[DeviceSync],
    theirs: &[DeviceSync],
) -> (r: (bool, bool))
    ensures
        r == linked(
            direction_by(views(mine@) + views(theirs@), local_uid@),
            direction_by(views(mine@) + views(theirs@), remote_uid@),
        ),
{
    let merged: Vec<DeviceSync> = merge_device_sync(mine, theirs);
    let none: Vec<ScopeEntry> = Vec::new();
    let l: Scope = from_entries(local_uid, none.as_slice(), merged.as_slice());
    let r: Scope = from_entries(remote_uid, none.as_slice(), merged.as_slice());
    proof {
        assert(row_with(views(merged@), device_sync_key(), local_uid@) == newest_sync(
            views(mine@) + views(theirs@),
            local_uid@,
        ));
        assert(row_with(views(merged@), device_sync_key(), remote_uid@) == newest_sync(
            views(mine@) + views(theirs@),
            remote_uid@,
        ));
    }
    link(&l.direction, &r.direction)
}

// ---------------------------------------------------------------------------
// What hangs from what
// ---------------------------------------------------------------------------

/// `b` is a playlist or folder directly inside `a`.
pub open spec fn is_inside(playlists: Seq<PlaylistEntryView>) -> spec_fn(
    Seq<char>,
    Seq<char>,
) -> bool {
    |a: Seq<char>, b: Seq<char>|
        exists|i: int|
            0 <= i < playlists.len() && (#[trigger] playlists[i]).uid == b
                && playlists[i].parent_uid == Some(a)
}

/// What is marked, and all that hangs from it.
pub open spec fn expanded(
    playlists: Seq<PlaylistEntryView>,
    selected: Set<Seq<char>>,
) -> Set<Seq<char>> {
    Set::new(|u: Seq<char>| reaches(is_inside(playlists), selected, u))
}

/// Marking a folder marks everything that hangs from it.
pub fn expand(playlists: &[PlaylistEntry], selected: &UidSet) -> (r: UidSet)
    ensures
        r@ == expanded(views(playlists@), selected@),
        r.wf(),
{
    let ghost v = views(playlists@);
    let ghost edge = is_inside(v);
    let ghost roots = selected@;
    let mut stack: Vec<String> = Vec::new();
    let n: usize = selected.len();
    proof {
        selected.list_is_the_set();
    }
    for i in 0..n
        invariant
            n == selected.listed().len(),
            views(stack@) == selected.listed().take(i as int),
    {
        let u: String = selected.at(i).clone();
        proof {
            views_push(stack@, u);
            assert(selected.listed().take(i + 1) =~= selected.listed().take(i as int).push(u@));
        }
        stack.push(u);
    }
    proof {
        assert(selected.listed().take(n as int) =~= selected.listed());
        assert forall|u: Seq<char>| #[trigger] roots.contains(u) implies views(stack@).contains(u) by {
            assert(selected.listed().to_set().contains(u));
        }
        assert forall|j: int| 0 <= j < stack@.len() implies roots.contains(
            #[trigger] views(stack@)[j],
        ) by {
            assert(selected.listed().to_set().contains(views(stack@)[j]));
        }
    }
    let ghost nodes = roots.union(v.map_values(|p: PlaylistEntryView| p.uid).to_set());
    proof {
        vstd::seq_lib::seq_to_set_is_finite(v.map_values(|p: PlaylistEntryView| p.uid));
        assert(nodes.finite());
        assert forall|j: int| 0 <= j < stack@.len() implies nodes.contains(
            #[trigger] views(stack@)[j],
        ) && reaches(edge, roots, views(stack@)[j]) by {
            root_is_reached(edge, roots, views(stack@)[j]);
        }
    }
    let mut out: UidSet = UidSet::new();
    while stack.len() > 0
        invariant
            v == views(playlists@),
            edge == is_inside(v),
            roots == selected@,
            out.wf(),
            nodes == roots.union(v.map_values(|p: PlaylistEntryView| p.uid).to_set()),
            nodes.finite(),
            out@.subset_of(nodes),
            forall|j: int|
                0 <= j < stack@.len() ==> nodes.contains(#[trigger] views(stack@)[j]) && reaches(
                    edge,
                    roots,
                    views(stack@)[j],
                ),
            forall|u: Seq<char>| #[trigger] out@.contains(u) ==> reaches(edge, roots, u),
            forall|u: Seq<char>| #[trigger]
                roots.contains(u) ==> out@.contains(u) || views(stack@).contains(u),
            forall|a: Seq<char>, b: Seq<char>|
                out@.contains(a) && #[trigger] edge(a, b) ==> out@.contains(b) || views(
                    stack@,
                ).contains(b),
        decreases nodes.difference(out@).len(), stack@.len(),
    {
        let ghost stack0 = views(stack@);
        let ghost out0 = out@;
        let uid: String = match stack.pop() {
            Some(u) => u,
            None => String::new(),
        };
        let ghost u0 = uid@;
        let ghost stack1 = views(stack@);
        proof {
            assert(stack1 =~= stack0.drop_last());
            assert(stack0.last() == u0);
            assert(nodes.contains(stack0[stack0.len() - 1]));
            assert forall|u: Seq<char>| stack0.contains(u) implies u == u0 || stack1.contains(u) by {
                let j = choose|j: int| 0 <= j < stack0.len() && stack0[j] == u;
                if j < stack1.len() {
                    assert(stack1[j] == u);
                }
            }
            assert forall|j: int| 0 <= j < stack1.len() implies nodes.contains(
                #[trigger] stack1[j],
            ) && reaches(edge, roots, stack1[j]) by {
                assert(stack0[j] == stack1[j]);
            }
        }
        let fresh: bool = out.insert(uid.clone());
        if fresh {
            proof {
                assert(nodes.difference(out@) =~= nodes.difference(out0).remove(u0));
                assert(nodes.difference(out0).contains(u0));
            }
            for i in 0..playlists.len()
                invariant
                    v == views(playlists@),
                    edge == is_inside(v),
                    uid@ == u0,
                    nodes == roots.union(v.map_values(|p: PlaylistEntryView| p.uid).to_set()),
                    reaches(edge, roots, u0),
                    views(stack@).len() >= stack1.len(),
                    views(stack@).take(stack1.len() as int) == stack1,
                    forall|j: int|
                        0 <= j < stack@.len() ==> nodes.contains(#[trigger] views(stack@)[j])
                            && reaches(edge, roots, views(stack@)[j]),
                    forall|j: int|
                        0 <= j < i && (#[trigger] v[j]).parent_uid == Some(u0) ==> views(
                            stack@,
                        ).contains(v[j].uid),
            {
                let p: &PlaylistEntry = &playlists[i];
                let ghost s0 = views(stack@);
                if let Some(parent) = &p.parent_uid {
                    if same(parent.as_str(), uid.as_str()) {
                        let child: String = p.uid.clone();
                        proof {
                            views_push(stack@, child);
                            assert(v[i as int] == p@);
                            assert(edge(u0, child@));
                            next_is_reached(edge, roots, u0, child@);
                            let m = v.map_values(|p: PlaylistEntryView| p.uid);
                            assert(m[i as int] == child@);
                            assert(m.to_set().contains(child@));
                        }
                        stack.push(child);
                        proof {
                            let s1 = views(stack@);
                            assert(s1 == s0.push(child@));
                            assert(s1[s0.len() as int] == child@);
                            assert(s1.take(stack1.len() as int) =~= s0.take(stack1.len() as int));
                            assert forall|u: Seq<char>| s0.contains(u) implies s1.contains(u) by {
                                let j = choose|j: int| 0 <= j < s0.len() && s0[j] == u;
                                assert(s1[j] == u);
                            }
                        }
                    }
                }
            }
            proof {
                let s2 = views(stack@);
                assert forall|u: Seq<char>| stack1.contains(u) implies s2.contains(u) by {
                    let j = choose|j: int| 0 <= j < stack1.len() && stack1[j] == u;
                    assert(s2.take(stack1.len() as int)[j] == u);
                    assert(s2[j] == u);
                }
                assert forall|a: Seq<char>, b: Seq<char>|
                    out@.contains(a) && #[trigger] edge(a, b) implies out@.contains(b)
                    || s2.contains(b) by {
                    if a == u0 {
                        let i = choose|i: int|
                            0 <= i < v.len() && (#[trigger] v[i]).uid == b && v[i].parent_uid
                                == Some(a);
                        assert(s2.contains(v[i].uid));
                    } else {
                        assert(out0.contains(a));
                        assert(out0.contains(b) || stack0.contains(b));
                    }
                }
            }
        } else {
            proof {
                assert(out@ =~= out0);
                assert forall|a: Seq<char>, b: Seq<char>|
                    out@.contains(a) && #[trigger] edge(a, b) implies out@.contains(b)
                    || stack1.contains(b) by {
                    assert(out0.contains(b) || stack0.contains(b));
                }
            }
        }
    }
    proof {
        assert(stack@.len() == 0);
        assert forall|u: Seq<char>| #[trigger] roots.contains(u) implies out@.contains(u) by {}
        assert forall|a: Seq<char>, b: Seq<char>|
            out@.contains(a) && #[trigger] edge(a, b) implies out@.contains(b) by {}
        assert forall|u: Seq<char>| #[trigger] reaches(edge, roots, u) implies out@.contains(u) by {
            closed_set_holds_all(edge, roots, out@, u);
        }
        assert(out@ =~= expanded(v, roots));
    }
    out
}

/// A marked folder brings everything that hangs from it: what is marked is in,
/// and so is whatever lies inside something that is in.
pub proof fn a_marked_folder_brings_its_subtree(
    playlists: Seq<PlaylistEntryView>,
    selected: Set<Seq<char>>,
    outer: Seq<char>,
    i: int,
)
    requires
        0 <= i < playlists.len(),
        playlists[i].parent_uid == Some(outer),
    ensures
        selected.contains(outer) ==> expanded(playlists, selected).contains(outer),
        expanded(playlists, selected).contains(outer) ==> expanded(playlists, selected).contains(
            playlists[i].uid,
        ),
{
    let edge = is_inside(playlists);
    if selected.contains(outer) {
        root_is_reached(edge, selected, outer);
    }
    if reaches(edge, selected, outer) {
        assert(edge(outer, playlists[i].uid));
        next_is_reached(edge, selected, outer, playlists[i].uid);
    }
}

/// Marking reaches down and never up: what is in without being marked lies inside
/// something that is in.
pub proof fn marking_reaches_down_only(
    playlists: Seq<PlaylistEntryView>,
    selected: Set<Seq<char>>,
    uid: Seq<char>,
)
    requires
        expanded(playlists, selected).contains(uid),
        !selected.contains(uid),
    ensures
        exists|i: int|
            0 <= i < playlists.len() && (#[trigger] playlists[i]).uid == uid
                && playlists[i].parent_uid is Some && expanded(playlists, selected).contains(
                playlists[i].parent_uid->0,
            ),
{
    let edge = is_inside(playlists);
    let p = choose|p: Seq<Seq<char>>| crate::graph::is_path_to(edge, selected, p, uid);
    let q = p.drop_last();
    assert(p.len() > 1) by {
        if p.len() == 1 {
            assert(p[0] == p.last());
        }
    }
    let a = q.last();
    assert(edge(p[p.len() - 2], p[p.len() - 2 + 1]));
    assert forall|i: int| 0 <= i < q.len() - 1 implies #[trigger] edge(q[i], q[i + 1]) by {
        assert(edge(p[i], p[i + 1]));
    }
    assert(crate::graph::is_path_to(edge, selected, q, a));
    let i = choose|i: int|
        0 <= i < playlists.len() && (#[trigger] playlists[i]).uid == uid && playlists[i].parent_uid
            == Some(a);
    assert(playlists[i].uid == uid);
}

/// The tracks that are in some playlist of the set.
pub open spec fn tracks_under(
    memberships: Seq<MembershipView>,
    wanted: Set<Seq<char>>,
) -> Set<Seq<char>> {
    Set::new(
        |t: Seq<char>|
            exists|i: int|
                0 <= i < memberships.len() && wanted.contains(
                    (#[trigger] memberships[i]).playlist_uid,
                ) && memberships[i].track_uid == t,
    )
}

/// The tracks that a scope asks for; nothing where it asks for all of them.
pub open spec fn scoped_tracks(
    playlists: Seq<PlaylistEntryView>,
    memberships: Seq<MembershipView>,
    scope: ScopeView,
) -> Option<Set<Seq<char>>> {
    match scope.mode {
        Mode::All => None,
        Mode::Selected => Some(tracks_under(memberships, expanded(playlists, scope.selected))),
    }
}

/// The tracks in scope. `None` means all of them, which is not the same as an
/// empty set.
pub fn tracks_in_scope(
    playlists: &[PlaylistEntry],
    memberships: &[Membership],
    scope: &Scope,
) -> (r: Option<UidSet>)
    ensures
        match r {
            Some(s) => s.wf() && scoped_tracks(views(playlists@), views(memberships@), scope@)
                == Some(s@),
            None => scoped_tracks(views(playlists@), views(memberships@), scope@) is None,
        },
{
    if scope.mode == Mode::All {
        return None;
    }
    let wanted: UidSet = expand(playlists, &scope.selected);
    let mut r: UidSet = UidSet::new();
    let ghost v = views(memberships@);
    for i in 0..memberships.len()
        invariant
            v == views(memberships@),
            wanted@ == expanded(views(playlists@), scope.selected@),
            r.wf(),
            forall|t: Seq<char>| #[trigger]
                r@.contains(t) <==> exists|j: int|
                    0 <= j < i && wanted@.contains((#[trigger] v[j]).playlist_uid) && v[j].track_uid
                        == t,
    {
        let m: &Membership = &memberships[i];
        let ghost before = r@;
        if wanted.contains(m.playlist_uid.as_str()) {
            r.insert(m.track_uid.clone());
        }
        proof {
            assert(v[i as int] == m@);
            assert forall|t: Seq<char>| #[trigger]
                r@.contains(t) <==> exists|j: int|
                    0 <= j < i + 1 && wanted@.contains((#[trigger] v[j]).playlist_uid)
                        && v[j].track_uid == t by {
                if before.contains(t) {
                    let j = choose|j: int|
                        0 <= j < i && wanted@.contains((#[trigger] v[j]).playlist_uid)
                            && v[j].track_uid == t;
                    assert(0 <= j < i + 1 && wanted@.contains(v[j].playlist_uid));
                }
            }
        }
    }
    proof {
        assert(r@ =~= tracks_under(v, wanted@));
    }
    Some(r)
}

// ---------------------------------------------------------------------------
// What moves
// ---------------------------------------------------------------------------

/// A file moves if files move that way at all, and if the device it goes to wants it.
pub open spec fn may_move(on: bool, wanted: Option<Set<Seq<char>>>) -> spec_fn(FileTransferView) -> bool {
    |f: FileTransferView|
        on && match wanted {
            Some(uids) => uids.contains(f.track_uid),
            None => true,
        }
}

/// The uids of a set, where there is one.
pub open spec fn uids_in(s: Option<&UidSet>) -> Option<Set<Seq<char>>> {
    match s {
        Some(x) => Some(x@),
        None => None,
    }
}

fn keep_wanted(files: &mut Vec<FileTransfer>, on: bool, wanted: Option<&UidSet>)
    ensures
        views(final(files)@) == views(old(files)@).filter(
            may_move(on, uids_in(wanted)),
        ),
{
    let keep = |f: &FileTransfer| -> (b: bool)
        ensures
            b == may_move(on, uids_in(wanted))(f@),
        {
            on && match wanted {
                Some(s) => s.contains(f.track_uid.as_str()),
                None => true,
            }
        };
    retain(files, keep, Ghost(may_move(on, uids_in(wanted))));
}

/// What is left of a plan by what two devices do and want: files come only where they
/// are received here and sent there, and only those that this device wants (`here`);
/// files go only the other way round (`there`). Nothing else of the plan depends on it.
pub fn restrict(
    plan: Plan,
    receives: bool,
    sends: bool,
    here: Option<&UidSet>,
    there: Option<&UidSet>,
) -> (r: Plan)
    ensures
        views(r.pull_files@) == views(plan.pull_files@).filter(
            may_move(receives, uids_in(here)),
        ),
        views(r.push_files@) == views(plan.push_files@).filter(
            may_move(sends, uids_in(there)),
        ),
        r == (Plan { pull_files: r.pull_files, push_files: r.push_files, ..plan }),
        // Nothing comes in that is not received, or not wanted here; nothing goes out that
        // is not sent, or not wanted there. Without limits all moves.
        !receives ==> r.pull_files@.len() == 0,
        !sends ==> r.push_files@.len() == 0,
        receives && here is None ==> views(r.pull_files@) == views(plan.pull_files@),
        sends && there is None ==> views(r.push_files@) == views(plan.push_files@),
        here is Some ==> forall|i: int|
            0 <= i < r.pull_files@.len() ==> here->0@.contains(
                (#[trigger] views(r.pull_files@)[i]).track_uid,
            ),
        there is Some ==> forall|i: int|
            0 <= i < r.push_files@.len() ==> there->0@.contains(
                (#[trigger] views(r.push_files@)[i]).track_uid,
            ),
{
    let ghost pull = views(plan.pull_files@);
    let ghost push = views(plan.push_files@);
    let mut p: Plan = plan;
    keep_wanted(&mut p.pull_files, receives, here);
    keep_wanted(&mut p.push_files, sends, there);
    proof {
        moved_is_wanted(pull, receives, uids_in(here));
        moved_is_wanted(push, sends, uids_in(there));
    }
    p
}

/// Of some files those move that may, which is none over a closed link, and all over an
/// open one where all are wanted.
proof fn moved_is_wanted(
    files: Seq<FileTransferView>,
    on: bool,
    wanted: Option<Set<Seq<char>>>,
)
    ensures
        ({
            let moved = files.filter(may_move(on, wanted));
            &&& !on ==> moved.len() == 0
            &&& on && wanted is None ==> moved == files
            &&& wanted is Some ==> forall|i: int|
                0 <= i < moved.len() ==> wanted->0.contains((#[trigger] moved[i]).track_uid)
        }),
{
    let p = may_move(on, wanted);
    crate::library::filter_is_part(files, p);
    if !on {
        crate::seqs::filter_none(files, p);
    }
    if on && wanted is None {
        crate::seqs::filter_all(files, p);
    }
    assert forall|i: int| wanted is Some && 0 <= i < files.filter(p).len() implies wanted->0.contains(
        (#[trigger] files.filter(p)[i]).track_uid,
    ) by {
        assert(p(files.filter(p)[i]));
    }
}

} // verus!
