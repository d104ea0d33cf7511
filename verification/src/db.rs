//! The library's own operations: settings, identity, playlists and what is in
//! them.
//!
//! Every deletion leaves a tombstone: without one, the next device to
//! synchronise would bring back what was deleted.

pub use crate::tracks::{
    add_tracks_to_playlist, delete_tracks, list_tracks, playlist_tracks,
    remove_tracks_from_playlist, reorder_playlist_tracks, track_path, track_playlists, track_uid,
    Track,
};
pub use crate::tree::{
    create_playlist, delete_playlist, list_playlists, move_playlist, playlist_uid, rename_playlist,
    PlaylistNode,
};
pub use crate::upgrade::{assign_missing_uids, migrate};
use crate::device_info::{is_name, names_a_device};
use crate::library::{
    Library, LibraryView, SettingRow, SettingRowView, TombstoneRow, TombstoneRowView,
};
use crate::library::{
    distinct_filter, distinct_push, distinct_same_keys, filter_is_part, setting_key, tombstone_key,
};
use crate::seqs::{views, views_push, views_update};
use crate::table::{find, first_where, first_where_at, first_where_is_first, retain};
use crate::text::{same, trim, trimmed};
use vstd::prelude::*;

verus! {

broadcast use vstd::string::group_string_axioms;

/// Why an operation was refused; nothing has changed then.
#[derive(Debug, Clone, Copy, PartialEq, Eq, Structural)]
pub enum DbError {
    /// The row that was asked for is not there.
    NoSuchRow,
    /// A reference would lead nowhere, or a key would occur twice.
    Constraint,
    /// A sum does not fit into a number of 64 bits.
    Overflow,
}

pub open spec fn is_lower_hex(c: char) -> bool {
    ('0' <= c && c <= '9') || ('a' <= c && c <= 'f')
}

/// The shape of a new uid: 36 characters, hexadecimal digits in five groups.
pub open spec fn is_uid_text(s: Seq<char>) -> bool {
    &&& s.len() == 36
    &&& forall|i: int|
        0 <= i < 36 ==> if i == 8 || i == 13 || i == 18 || i == 23 {
            #[trigger] s[i] == '-'
        } else {
            is_lower_hex(s[i])
        }
}

/// `uuid::Uuid::new_v4` written out with `to_string`: a random identifier, of
/// which only the shape is known beforehand. It panics where the operating system
/// gives no random bytes, which depends on no input.
#[verifier::external_body]
pub fn new_uid() -> (r: String)
    ensures
        is_uid_text(r@),
{
    uuid::Uuid::new_v4().to_string()
}

#[verifier::external_type_specification]
#[verifier::external_body]
pub struct ExSystemTime(std::time::SystemTime);

/// `SystemTime::now`: the moment of the call.
#[verifier::external_body]
fn clock() -> (r: std::time::SystemTime) {
    std::time::SystemTime::now()
}

/// How long after the Unix epoch a moment is; nothing where it is before it.
pub uninterp spec fn time_since_epoch(t: std::time::SystemTime) -> Option<std::time::Duration>;

/// `SystemTime::duration_since` the Unix epoch: a function of the moment alone;
/// nothing where the moment is before the epoch.
#[verifier::external_body]
fn since_epoch(t: std::time::SystemTime) -> (r: Option<std::time::Duration>)
    ensures
        r == time_since_epoch(t),
{
    t.duration_since(std::time::UNIX_EPOCH).ok()
}

/// The whole milliseconds of a length of time.
pub uninterp spec fn millis_of(d: std::time::Duration) -> u128;

/// `Duration::as_millis`: the whole milliseconds, a function of the length alone.
#[verifier::external_body]
fn whole_millis(d: std::time::Duration) -> (r: u128)
    ensures
        r == millis_of(d),
{
    d.as_millis()
}

/// The time that a clock reading stands for: its low 64 bits, zero where the
/// clock stands before the epoch.
pub open spec fn reading_value(since_epoch: Option<u128>) -> i64 {
    match since_epoch {
        Some(ms) => ms as i64,
        None => 0,
    }
}

/// A clock reading as the library stores it.
#[verifier::truncate]
pub fn ms_of_reading(since_epoch: Option<u128>) -> (r: i64)
    ensures
        r == reading_value(since_epoch),
{
    match since_epoch {
        Some(ms) => ms as i64,
        None => 0,
    }
}

/// The milliseconds since the epoch at a moment; nothing where it is before it.
pub open spec fn millis_at(t: std::time::SystemTime) -> Option<u128> {
    match time_since_epoch(t) {
        Some(d) => Some(millis_of(d)),
        None => None,
    }
}

/// A time that the system clock can have given at some moment.
pub open spec fn is_clock_time(ms: i64) -> bool {
    exists|t: std::time::SystemTime| ms == reading_value(#[trigger] millis_at(t))
}

/// Milliseconds since the epoch, as the system clock has it now. Which moment that
/// is depends on the clock, so nothing more can be said of it beforehand.
pub fn now_ms() -> (r: i64)
    ensures
        is_clock_time(r),
{
    let t: std::time::SystemTime = clock();
    let reading: Option<u128> = match since_epoch(t) {
        Some(d) => Some(whole_millis(d)),
        None => None,
    };
    assert(reading == millis_at(t));
    ms_of_reading(reading)
}

// ---------------------------------------------------------------------------
// Settings
// ---------------------------------------------------------------------------

pub open spec fn has_key(key: Seq<char>) -> spec_fn(SettingRowView) -> bool {
    |s: SettingRowView| s.key == key
}

/// The value stored under a key.
pub open spec fn setting_of(l: LibraryView, key: Seq<char>) -> Option<Seq<char>> {
    match first_where(l.settings, has_key(key)) {
        Some(i) => Some(l.settings[i].value),
        None => None,
    }
}

/// The library with that value stored under the key, and nothing else changed.
pub open spec fn with_setting(l: LibraryView, key: Seq<char>, value: Seq<char>) -> LibraryView {
    let row = SettingRowView { key, value };
    match first_where(l.settings, has_key(key)) {
        Some(i) => LibraryView { settings: l.settings.update(i, row), ..l },
        None => LibraryView { settings: l.settings.push(row), ..l },
    }
}

/// What was stored is what is read, and no other key is touched.
pub proof fn stored_settings_are_read_back(
    l: LibraryView,
    key: Seq<char>,
    value: Seq<char>,
    other: Seq<char>,
)
    ensures
        setting_of(with_setting(l, key, value), key) == Some(value),
        other != key ==> setting_of(with_setting(l, key, value), other) == setting_of(l, other),
{
    let m = with_setting(l, key, value);
    first_where_is_first(l.settings, has_key(key));
    first_where_is_first(l.settings, has_key(other));
    first_where_is_first(m.settings, has_key(key));
    first_where_is_first(m.settings, has_key(other));
    let n = l.settings.len();
    assert forall|i: int| 0 <= i < n implies (#[trigger] m.settings[i]).key == l.settings[i].key by {}
    match first_where(l.settings, has_key(key)) {
        Some(i) => {
            assert forall|j: int| 0 <= j < i implies !has_key(key)(#[trigger] m.settings[j]) by {
                assert(!has_key(key)(l.settings[j]));
            }
            first_where_at(m.settings, has_key(key), i);
        },
        None => {
            assert forall|j: int| 0 <= j < n implies !has_key(key)(#[trigger] m.settings[j]) by {
                assert(!has_key(key)(l.settings[j]));
            }
            first_where_at(m.settings, has_key(key), n as int);
        },
    }
    if other != key {
        match first_where(l.settings, has_key(other)) {
            Some(i) => {
                assert forall|j: int| 0 <= j < i implies !has_key(other)(#[trigger] m.settings[j]) by {
                    assert(!has_key(other)(l.settings[j]));
                }
                assert(has_key(other)(m.settings[i]));
                first_where_at(m.settings, has_key(other), i);
            },
            None => {
                assert forall|j: int| 0 <= j < m.settings.len() implies !has_key(other)(
                    #[trigger] m.settings[j],
                ) by {
                    if j < n {
                        assert(!has_key(other)(l.settings[j]));
                    }
                }
            },
        }
    }
}

/// Storing a setting keeps the library well formed.
pub(crate) proof fn with_setting_wf(l: LibraryView, key: Seq<char>, value: Seq<char>)
    requires
        l.wf(),
    ensures
        with_setting(l, key, value).wf(),
{
    let m = with_setting(l, key, value);
    first_where_is_first(l.settings, has_key(key));
    match first_where(l.settings, has_key(key)) {
        Some(i) => {
            distinct_same_keys(l.settings, m.settings, setting_key());
        },
        None => {
            assert forall|i: int| 0 <= i < l.settings.len() implies setting_key()(
                #[trigger] l.settings[i],
            ) != key by {
                assert(!has_key(key)(l.settings[i]));
            }
            distinct_push(l.settings, SettingRowView { key, value }, setting_key());
        },
    }
}

/// The value stored under `key`, if there is one.
pub fn get_setting(lib: &Library, key: &str) -> (r: Option<String>)
    ensures
        match r {
            Some(v) => setting_of(lib@, key@) == Some(v@),
            None => setting_of(lib@, key@) is None,
        },
{
    let hit = |s: &SettingRow| -> (b: bool)
        ensures
            b == (s.key@ == key@),
        { same(s.key.as_str(), key) };
    let at: Option<usize> = find(&lib.settings, hit, Ghost(has_key(key@)));
    match at {
        Some(i) => Some(lib.settings[i].value.clone()),
        None => None,
    }
}

/// Stores `value` under `key`.
pub fn set_setting(lib: &mut Library, key: &str, value: &str)
    ensures
        final(lib)@ == with_setting(old(lib)@, key@, value@),
        old(lib)@.wf() ==> final(lib)@.wf(),
{
    let hit = |s: &SettingRow| -> (b: bool)
        ensures
            b == (s.key@ == key@),
        { same(s.key.as_str(), key) };
    let at: Option<usize> = find(&lib.settings, hit, Ghost(has_key(key@)));
    let row: SettingRow = SettingRow { key: key.to_owned(), value: value.to_owned() };
    let ghost before = lib.settings@;
    proof {
        if lib@.wf() {
            with_setting_wf(lib@, key@, value@);
        }
    }
    match at {
        Some(i) => {
            proof {
                views_update(before, i as int, row);
            }
            lib.settings.set(i, row);
        },
        None => {
            proof {
                views_push(before, row);
            }
            lib.settings.push(row);
        },
    }
}

// ---------------------------------------------------------------------------
// Identity
// ---------------------------------------------------------------------------

/// The uid of this device, once it has one.
pub open spec fn identity(l: LibraryView) -> Option<Seq<char>> {
    match setting_of(l, "device_uid"@) {
        Some(u) => if u.len() > 0 {
            Some(u)
        } else {
            None
        },
        None => None,
    }
}

/// The uid of this device, or the one it is about to take.
pub open spec fn identity_or(l: LibraryView, fresh: Seq<char>) -> Seq<char> {
    match identity(l) {
        Some(u) => u,
        None => fresh,
    }
}

/// The library once this device has an identity.
pub open spec fn with_identity(l: LibraryView, fresh: Seq<char>) -> LibraryView {
    if identity(l) is Some {
        l
    } else {
        with_setting(l, "device_uid"@, fresh)
    }
}

/// A device takes an identity once: whatever new one is offered later, it keeps
/// the first.
pub proof fn identity_is_taken_once(l: LibraryView, fresh: Seq<char>, later: Seq<char>)
    requires
        fresh.len() > 0,
    ensures
        identity(with_identity(l, fresh)) == Some(identity_or(l, fresh)),
        identity_or(with_identity(l, fresh), later) == identity_or(l, fresh),
        with_identity(with_identity(l, fresh), later) == with_identity(l, fresh),
{
    stored_settings_are_read_back(l, "device_uid"@, fresh, Seq::empty());
}

pub(crate) proof fn with_identity_wf(l: LibraryView, fresh: Seq<char>)
    requires
        l.wf(),
    ensures
        with_identity(l, fresh).wf(),
{
    with_setting_wf(l, "device_uid"@, fresh);
}

/// The uid of this device, which becomes `fresh` if it had none.
pub fn device_uid_or(lib: &mut Library, fresh: &str) -> (r: String)
    ensures
        r@ == identity_or(old(lib)@, fresh@),
        final(lib)@ == with_identity(old(lib)@, fresh@),
        old(lib)@.wf() ==> final(lib)@.wf(),
{
    if let Some(uid) = get_setting(lib, "device_uid") {
        if !uid.as_str().is_empty() {
            return uid;
        }
    }
    set_setting(lib, "device_uid", fresh);
    fresh.to_owned()
}

/// The uid of this device. It is made up the first time, and stays the same from
/// then on.
pub fn this_device_uid(lib: &mut Library) -> (r: String)
    ensures
        identity(old(lib)@) is Some ==> r@ == identity(old(lib)@)->0 && final(lib)@ == old(lib)@,
        exists|fresh: Seq<char>| #[trigger]
            is_uid_text(fresh) && r@ == identity_or(old(lib)@, fresh) && final(lib)@ == with_identity(
                old(lib)@,
                fresh,
            ),
        r@.len() > 0,
        old(lib)@.wf() ==> final(lib)@.wf(),
{
    let fresh: String = new_uid();
    device_uid_or(lib, fresh.as_str())
}

/// The stored name of this device, where it is a name at all.
pub open spec fn stored_name(l: LibraryView) -> Option<Seq<char>> {
    match setting_of(l, "device_name"@) {
        Some(n) => if is_name(trimmed(n)) {
            Some(trimmed(n))
        } else {
            None
        },
        None => None,
    }
}

/// The visible name of this device. A stored name that says nothing is replaced
/// by `default`, which is then stored.
pub fn device_name(lib: &mut Library, default: &str) -> (r: String)
    ensures
        match stored_name(old(lib)@) {
            Some(n) => r@ == n && final(lib)@ == old(lib)@,
            None => r@ == default@ && final(lib)@ == with_setting(
                old(lib)@,
                "device_name"@,
                default@,
            ),
        },
        old(lib)@.wf() ==> final(lib)@.wf(),
{
    if let Some(n) = get_setting(lib, "device_name") {
        let t: String = trim(n.as_str());
        if names_a_device(t.as_str()) {
            return t;
        }
    }
    set_setting(lib, "device_name", default);
    default.to_owned()
}

/// Stores the visible name of this device.
pub fn set_device_name(lib: &mut Library, name: &str)
    ensures
        final(lib)@ == with_setting(old(lib)@, "device_name"@, name@),
        old(lib)@.wf() ==> final(lib)@.wf(),
{
    set_setting(lib, "device_name", name);
}

/// Whether the library writes its file for other programs by itself.
pub open spec fn auto_sync_xml(l: LibraryView) -> bool {
    match setting_of(l, "auto_sync_xml"@) {
        Some(v) => v == "1"@,
        None => true,
    }
}

/// Whether the library writes its file for other programs by itself; it does
/// until it is told not to.
pub fn get_auto_sync_xml(lib: &Library) -> (r: bool)
    ensures
        r == auto_sync_xml(lib@),
{
    match get_setting(lib, "auto_sync_xml") {
        Some(v) => same(v.as_str(), "1"),
        None => true,
    }
}

/// Stores whether the library writes that file by itself.
pub fn set_auto_sync_xml(lib: &mut Library, enabled: bool)
    ensures
        final(lib)@ == with_setting(
            old(lib)@,
            "auto_sync_xml"@,
            if enabled {
                "1"@
            } else {
                "0"@
            },
        ),
        auto_sync_xml(final(lib)@) == enabled,
        old(lib)@.wf() ==> final(lib)@.wf(),
{
    let value: &str = if enabled {
        "1"
    } else {
        "0"
    };
    proof {
        stored_settings_are_read_back(lib@, "auto_sync_xml"@, value@, Seq::empty());
        reveal_strlit("0");
        reveal_strlit("1");
        assert("0"@[0] != "1"@[0]);
    }
    set_setting(lib, "auto_sync_xml", value);
}

// ---------------------------------------------------------------------------
// Tombstones
// ---------------------------------------------------------------------------

/// A tombstone of something else.
pub open spec fn other_than(entity: Seq<char>, uid: Seq<char>) -> spec_fn(TombstoneRowView) -> bool {
    |t: TombstoneRowView| !(t.entity == entity && t.uid == uid)
}

/// The library once it is recorded that this device deleted something at `now`.
/// An earlier record of the same thing is replaced.
pub open spec fn recorded(
    l: LibraryView,
    entity: Seq<char>,
    uid: Seq<char>,
    now: i64,
    fresh: Seq<char>,
) -> LibraryView {
    let m = with_identity(l, fresh);
    LibraryView {
        tombstones: m.tombstones.filter(other_than(entity, uid)).push(
            TombstoneRowView {
                entity,
                uid,
                deleted_at: now,
                device_uid: identity_or(l, fresh),
            },
        ),
        ..m
    }
}

/// The library once several things are recorded as deleted, one after another.
pub open spec fn all_recorded(
    l: LibraryView,
    entity: Seq<char>,
    uids: Seq<Seq<char>>,
    now: i64,
    fresh: Seq<char>,
) -> LibraryView
    decreases uids.len(),
{
    if uids.len() == 0 {
        l
    } else {
        recorded(
            all_recorded(l, entity, uids.drop_last(), now, fresh),
            entity,
            uids.last(),
            now,
            fresh,
        )
    }
}

pub(crate) proof fn recorded_wf(
    l: LibraryView,
    entity: Seq<char>,
    uid: Seq<char>,
    now: i64,
    fresh: Seq<char>,
)
    requires
        l.wf(),
    ensures
        recorded(l, entity, uid, now, fresh).wf(),
{
    with_identity_wf(l, fresh);
    let m = with_identity(l, fresh);
    let p = other_than(entity, uid);
    distinct_filter(m.tombstones, p, tombstone_key());
    filter_is_part(m.tombstones, p);
    let row = TombstoneRowView {
        entity,
        uid,
        deleted_at: now,
        device_uid: identity_or(l, fresh),
    };
    assert forall|i: int| 0 <= i < m.tombstones.filter(p).len() implies tombstone_key()(
        #[trigger] m.tombstones.filter(p)[i],
    ) != tombstone_key()(row) by {
        assert(p(m.tombstones.filter(p)[i]));
    }
    distinct_push(m.tombstones.filter(p), row, tombstone_key());
}

/// Records touch the tombstones and, the first time, the identity; nothing else.
pub(crate) proof fn recording_keeps_the_rest(
    l: LibraryView,
    entity: Seq<char>,
    uids: Seq<Seq<char>>,
    now: i64,
    fresh: Seq<char>,
)
    ensures
        ({
            let m = all_recorded(l, entity, uids, now, fresh);
            &&& m.tracks == l.tracks
            &&& m.playlists == l.playlists
            &&& m.playlist_tracks == l.playlist_tracks
            &&& m.devices == l.devices
            &&& m.sync_policy == l.sync_policy
            &&& m.device_sync == l.device_sync
            &&& m.sync_scope == l.sync_scope
            &&& m.blob_replicas == l.blob_replicas
        }),
        l.wf() ==> all_recorded(l, entity, uids, now, fresh).wf(),
    decreases uids.len(),
{
    if uids.len() > 0 {
        recording_keeps_the_rest(l, entity, uids.drop_last(), now, fresh);
        if l.wf() {
            recorded_wf(
                all_recorded(l, entity, uids.drop_last(), now, fresh),
                entity,
                uids.last(),
                now,
                fresh,
            );
        }
    }
}

/// A recorded deletion can be found, whatever else was recorded with it.
pub proof fn recorded_deletions_are_found(
    l: LibraryView,
    entity: Seq<char>,
    uids: Seq<Seq<char>>,
    now: i64,
    fresh: Seq<char>,
    i: int,
)
    requires
        0 <= i < uids.len(),
    ensures
        exists|j: int|
            0 <= j < all_recorded(l, entity, uids, now, fresh).tombstones.len() && (
            #[trigger] all_recorded(l, entity, uids, now, fresh).tombstones[j]).entity == entity
                && all_recorded(l, entity, uids, now, fresh).tombstones[j].uid == uids[i]
                && all_recorded(l, entity, uids, now, fresh).tombstones[j].deleted_at == now,
    decreases uids.len(),
{
    let m = all_recorded(l, entity, uids, now, fresh);
    let n = m.tombstones.len();
    if uids[i] == uids.last() {
        assert(m.tombstones[n - 1].entity == entity);
    } else {
        let earlier = all_recorded(l, entity, uids.drop_last(), now, fresh);
        recorded_deletions_are_found(l, entity, uids.drop_last(), now, fresh, i);
        let j = choose|j: int|
            0 <= j < earlier.tombstones.len() && (#[trigger] earlier.tombstones[j]).entity == entity
                && earlier.tombstones[j].uid == uids[i] && earlier.tombstones[j].deleted_at == now;
        let p = other_than(entity, uids.last());
        let kept = earlier.tombstones.filter(p);
        assert(with_identity(earlier, fresh).tombstones == earlier.tombstones);
        earlier.tombstones.lemma_filter_contains(p, j);
        let k = choose|k: int| 0 <= k < kept.len() && kept[k] == earlier.tombstones[j];
        assert(m.tombstones[k] == earlier.tombstones[j]);
    }
}

/// Records at `now` that this device, whose uid becomes `fresh` if it had none,
/// deleted something.
pub fn record_tombstone_at(lib: &mut Library, entity: &str, uid: &str, now: i64, fresh: &str)
    ensures
        final(lib)@ == recorded(old(lib)@, entity@, uid@, now, fresh@),
        old(lib)@.wf() ==> final(lib)@.wf(),
{
    let ghost l0 = lib@;
    let device: String = device_uid_or(lib, fresh);
    let keep = |t: &TombstoneRow| -> (b: bool)
        ensures
            b == !(t.entity@ == entity@ && t.uid@ == uid@),
        { !(same(t.entity.as_str(), entity) && same(t.uid.as_str(), uid)) };
    retain(&mut lib.tombstones, keep, Ghost(other_than(entity@, uid@)));
    let row: TombstoneRow = TombstoneRow {
        entity: entity.to_owned(),
        uid: uid.to_owned(),
        deleted_at: now,
        device_uid: device,
    };
    proof {
        views_push(lib.tombstones@, row);
        if l0.wf() {
            recorded_wf(l0, entity@, uid@, now, fresh@);
        }
    }
    lib.tombstones.push(row);
}

/// Records now that this device deleted something.
pub fn record_tombstone(lib: &mut Library, entity: &str, uid: &str)
    ensures
        exists|now: i64, fresh: Seq<char>|
            is_clock_time(now) && is_uid_text(fresh) && final(lib)@ == #[trigger] recorded(
                old(lib)@,
                entity@,
                uid@,
                now,
                fresh,
            ),
        old(lib)@.wf() ==> final(lib)@.wf(),
{
    let now: i64 = now_ms();
    let fresh: String = new_uid();
    record_tombstone_at(lib, entity, uid, now, fresh.as_str());
}

pub(crate) fn record_all(lib: &mut Library, entity: &str, uids: &Vec<String>, now: i64, fresh: &str)
    ensures
        final(lib)@ == all_recorded(old(lib)@, entity@, views(uids@), now, fresh@),
        old(lib)@.wf() ==> final(lib)@.wf(),
{
    let ghost l0 = lib@;
    let ghost all = views(uids@);
    proof {
        assert(all.take(0) =~= Seq::empty());
    }
    for i in 0..uids.len()
        invariant
            all == views(uids@),
            lib@ == all_recorded(l0, entity@, all.take(i as int), now, fresh@),
    {
        proof {
            assert(all.take(i + 1).drop_last() =~= all.take(i as int));
            assert(all.take(i + 1).last() == uids@[i as int]@);
        }
        record_tombstone_at(lib, entity, uids[i].as_str(), now, fresh);
    }
    proof {
        assert(all.take(all.len() as int) =~= all);
        recording_keeps_the_rest(l0, entity@, all, now, fresh@);
    }
}

} // verus!
