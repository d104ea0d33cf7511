//! The devices this one is paired with: their keys, their names, and where they
//! are called.

use crate::address::{address_text, join_address, split_addr, stored_address};
use crate::db::{
    device_name, device_uid_or, get_setting, identity_or, set_setting, setting_of, stored_name,
    with_identity, with_setting,
};
use crate::discovery::{added_by_hand, other_peer, peer_put, Peer, Peers, PeersView};
use crate::encoding::{base64_bytes, base64_text, decode_base64, encode_base64};
use crate::library::{
    device_key, distinct, distinct_filter, distinct_push, distinct_same_keys, DeviceRow,
    DeviceRowView, Library, LibraryView,
};
use crate::seqs::{views_push, views_update};
use crate::table::{
    find, first_where, first_where_is_first, keyed, retain, row_with, row_with_push,
    row_with_update,
};
use crate::text::same;
use crate::wire::{generate_keypair, Msg, WireError};
use vstd::prelude::*;

verus! {

broadcast use vstd::string::group_string_axioms;

// ---------------------------------------------------------------------------
// Keys
// ---------------------------------------------------------------------------

/// What is known of a device by its key.
#[derive(Debug, Clone, Copy, PartialEq, Eq, Structural)]
pub enum Known {
    /// It is paired, and this is its key.
    Trusted,
    /// It is paired, with another key.
    KeyMismatch,
    /// It is not paired.
    Unknown,
}

/// What is known of a device that shows a key. One whose key was never fixed is
/// not paired.
pub open spec fn known_as(l: LibraryView, uid: Seq<char>, key: Seq<u8>) -> Known {
    match row_with(l.devices, device_key(), uid) {
        None => Known::Unknown,
        Some(d) => match d.pubkey {
            None => Known::Unknown,
            Some(k) => if k == key {
                Known::Trusted
            } else {
                Known::KeyMismatch
            },
        },
    }
}

fn same_bytes(a: &[u8], b: &[u8]) -> (r: bool)
    ensures
        r == (a@ == b@),
{
    if a.len() != b.len() {
        return false;
    }
    for i in 0..a.len()
        invariant
            a@.len() == b@.len(),
            forall|j: int| 0 <= j < i ==> a@[j] == b@[j],
    {
        if a[i] != b[i] {
            return false;
        }
    }
    proof {
        assert(a@ =~= b@);
    }
    true
}

fn find_device(lib: &Library, uid: &str) -> (r: Option<usize>)
    ensures
        match r {
            Some(i) => i < lib.devices@.len() && first_where(
                lib@.devices,
                keyed(device_key(), uid@),
            ) == Some(i as int) && lib.devices@[i as int].uid@ == uid@,
            None => first_where(lib@.devices, keyed(device_key(), uid@)) is None,
        },
{
    let hit = |d: &DeviceRow| -> (b: bool)
        ensures
            b == (d.uid@ == uid@),
        { same(d.uid.as_str(), uid) };
    find(&lib.devices, hit, Ghost(keyed(device_key(), uid@)))
}

/// What is known of a device that shows a key.
pub fn known_state(lib: &Library, uid: &str, pubkey: &[u8]) -> (r: Known)
    ensures
        r == known_as(lib@, uid@, pubkey@),
{
    match find_device(lib, uid) {
        None => Known::Unknown,
        Some(i) => match &lib.devices[i].pubkey {
            None => Known::Unknown,
            Some(k) => if same_bytes(k.as_slice(), pubkey) {
                Known::Trusted
            } else {
                Known::KeyMismatch
            },
        },
    }
}

/// The row of a device that has just been paired.
pub open spec fn paired_row(
    old: Option<DeviceRowView>,
    uid: Seq<char>,
    name: Seq<char>,
    platform: Seq<char>,
    key: Seq<u8>,
    now: i64,
) -> DeviceRowView {
    DeviceRowView {
        uid,
        name,
        platform,
        pubkey: Some(key),
        paired_at: Some(now),
        last_seen: Some(now),
        last_sync_at: match old {
            Some(d) => d.last_sync_at,
            None => None,
        },
        address: match old {
            Some(d) => d.address,
            None => None,
        },
    }
}

/// The rows with `d` in place of the one of that device, or at the end.
pub open spec fn device_put(rows: Seq<DeviceRowView>, d: DeviceRowView) -> Seq<DeviceRowView> {
    match first_where(rows, keyed(device_key(), d.uid)) {
        Some(i) => rows.update(i, d),
        None => rows.push(d),
    }
}

/// The library once a device was paired.
pub open spec fn device_stored(
    l: LibraryView,
    uid: Seq<char>,
    name: Seq<char>,
    platform: Seq<char>,
    key: Seq<u8>,
    now: i64,
) -> LibraryView {
    LibraryView {
        devices: device_put(
            l.devices,
            paired_row(row_with(l.devices, device_key(), uid), uid, name, platform, key, now),
        ),
        ..l
    }
}

proof fn device_put_distinct(rows: Seq<DeviceRowView>, d: DeviceRowView)
    requires
        distinct(rows, device_key()),
    ensures
        distinct(device_put(rows, d), device_key()),
{
    first_where_is_first(rows, keyed(device_key(), d.uid));
    match first_where(rows, keyed(device_key(), d.uid)) {
        Some(i) => {
            distinct_same_keys(rows, rows.update(i, d), device_key());
        },
        None => {
            assert forall|i: int| 0 <= i < rows.len() implies device_key()(#[trigger] rows[i])
                != device_key()(d) by {
                assert(!keyed(device_key(), d.uid)(rows[i]));
            }
            distinct_push(rows, d, device_key());
        },
    }
}

/// Fixes the key of a device, which is thereby paired.
pub fn store_device(lib: &mut Library, uid: &str, name: &str, platform: &str, pubkey: &[u8], now: i64)
    ensures
        final(lib)@ == device_stored(old(lib)@, uid@, name@, platform@, pubkey@, now),
        old(lib)@.wf() ==> final(lib)@.wf(),
{
    let mut key: Vec<u8> = Vec::new();
    for i in 0..pubkey.len()
        invariant
            key@ == pubkey@.take(i as int),
    {
        proof {
            assert(pubkey@.take(i + 1) =~= pubkey@.take(i as int).push(pubkey@[i as int]));
        }
        key.push(pubkey[i]);
    }
    proof {
        crate::seqs::take_all(pubkey@);
        if lib@.wf() {
            device_put_distinct(
                lib@.devices,
                paired_row(
                    row_with(lib@.devices, device_key(), uid@),
                    uid@,
                    name@,
                    platform@,
                    pubkey@,
                    now,
                ),
            );
        }
    }
    match find_device(lib, uid) {
        Some(i) => {
            let d: DeviceRow = DeviceRow {
                uid: uid.to_owned(),
                name: name.to_owned(),
                platform: platform.to_owned(),
                pubkey: Some(key),
                paired_at: Some(now),
                last_seen: Some(now),
                last_sync_at: lib.devices[i].last_sync_at,
                address: crate::text::copy_opt(&lib.devices[i].address),
            };
            proof {
                views_update(lib.devices@, i as int, d);
            }
            lib.devices.set(i, d);
        },
        None => {
            let d: DeviceRow = DeviceRow {
                uid: uid.to_owned(),
                name: name.to_owned(),
                platform: platform.to_owned(),
                pubkey: Some(key),
                paired_at: Some(now),
                last_seen: Some(now),
                last_sync_at: None,
                address: None,
            };
            proof {
                views_push(lib.devices@, d);
            }
            lib.devices.push(d);
        },
    }
}

/// A device that was paired is trusted with the key it had then and with no other,
/// and pairing it changes nothing for any other device.
pub proof fn paired_devices_are_known_by_their_key(
    l: LibraryView,
    uid: Seq<char>,
    name: Seq<char>,
    platform: Seq<char>,
    key: Seq<u8>,
    now: i64,
    other_key: Seq<u8>,
    other: Seq<char>,
)
    ensures
        known_as(device_stored(l, uid, name, platform, key, now), uid, key) == Known::Trusted,
        other_key != key ==> known_as(
            device_stored(l, uid, name, platform, key, now),
            uid,
            other_key,
        ) == Known::KeyMismatch,
        other != uid ==> known_as(device_stored(l, uid, name, platform, key, now), other, other_key)
            == known_as(l, other, other_key),
{
    let d = paired_row(row_with(l.devices, device_key(), uid), uid, name, platform, key, now);
    put_is_found(l.devices, d, uid);
    put_is_found(l.devices, d, other);
}

proof fn put_is_found(rows: Seq<DeviceRowView>, d: DeviceRowView, uid: Seq<char>)
    ensures
        row_with(device_put(rows, d), device_key(), uid) == if uid == d.uid {
            Some(d)
        } else {
            row_with(rows, device_key(), uid)
        },
{
    match first_where(rows, keyed(device_key(), d.uid)) {
        Some(i) => {
            row_with_update(rows, device_key(), i, d, uid);
        },
        None => {
            row_with_push(rows, device_key(), d, uid);
        },
    }
}

/// The library once a device has been heard of.
pub open spec fn device_touched(
    l: LibraryView,
    uid: Seq<char>,
    name: Seq<char>,
    now: i64,
) -> LibraryView {
    match row_with(l.devices, device_key(), uid) {
        Some(d) => LibraryView {
            devices: device_put(l.devices, DeviceRowView { name, last_seen: Some(now), ..d }),
            ..l
        },
        None => l,
    }
}

/// Notes that a paired device was heard of, and the name it goes by.
pub fn touch_device(lib: &mut Library, uid: &str, name: &str, now: i64)
    ensures
        final(lib)@ == device_touched(old(lib)@, uid@, name@, now),
        old(lib)@.wf() ==> final(lib)@.wf(),
{
    if let Some(i) = find_device(lib, uid) {
        let mut d: DeviceRow = lib.devices[i].clone();
        d.name = name.to_owned();
        d.last_seen = Some(now);
        proof {
            views_update(lib.devices@, i as int, d);
            if lib@.wf() {
                device_put_distinct(lib@.devices, d@);
            }
        }
        lib.devices.set(i, d);
    }
}

pub open spec fn other_device(uid: Seq<char>) -> spec_fn(DeviceRowView) -> bool {
    |d: DeviceRowView| d.uid != uid
}

/// The library once a device is no longer paired.
pub open spec fn device_forgotten(l: LibraryView, uid: Seq<char>) -> LibraryView {
    LibraryView { devices: l.devices.filter(other_device(uid)), ..l }
}

/// Takes a device out of the paired ones.
pub fn forget_device(lib: &mut Library, uid: &str)
    ensures
        final(lib)@ == device_forgotten(old(lib)@, uid@),
        old(lib)@.wf() ==> final(lib)@.wf(),
{
    proof {
        if lib@.wf() {
            distinct_filter(lib@.devices, other_device(uid@), device_key());
        }
    }
    let keep = |d: &DeviceRow| -> (b: bool)
        ensures
            b == (d.uid@ != uid@),
        { !same(d.uid.as_str(), uid) };
    retain(&mut lib.devices, keep, Ghost(other_device(uid@)));
}

/// A device that was taken out is unknown, whatever key it shows.
pub proof fn forgotten_devices_are_unknown(l: LibraryView, uid: Seq<char>, key: Seq<u8>)
    ensures
        known_as(device_forgotten(l, uid), uid, key) == Known::Unknown,
{
    let t = l.devices.filter(other_device(uid));
    first_where_is_first(t, keyed(device_key(), uid));
    crate::library::filter_is_part(l.devices, other_device(uid));
    assert forall|i: int| 0 <= i < t.len() implies !keyed(device_key(), uid)(#[trigger] t[i]) by {
        assert(other_device(uid)(t[i]));
    }
}

// ---------------------------------------------------------------------------
// Where devices are called
// ---------------------------------------------------------------------------

/// The library once the address of a device was stored.
pub open spec fn address_stored(l: LibraryView, uid: Seq<char>, address: Seq<char>) -> LibraryView {
    match row_with(l.devices, device_key(), uid) {
        Some(d) => LibraryView {
            devices: device_put(l.devices, DeviceRowView { address: Some(address), ..d }),
            ..l
        },
        None => l,
    }
}

/// Stores where a paired device is called.
pub fn set_device_address(lib: &mut Library, uid: &str, address: &str)
    ensures
        final(lib)@ == address_stored(old(lib)@, uid@, address@),
        old(lib)@.wf() ==> final(lib)@.wf(),
{
    if let Some(i) = find_device(lib, uid) {
        let mut d: DeviceRow = lib.devices[i].clone();
        d.address = Some(address.to_owned());
        proof {
            views_update(lib.devices@, i as int, d);
            if lib@.wf() {
                device_put_distinct(lib@.devices, d@);
            }
        }
        lib.devices.set(i, d);
    }
}

/// Stores where a server is called and shows it among the devices.
pub fn keep_address(
    lib: &mut Library,
    peers: &mut Peers,
    uid: &str,
    name: &str,
    platform: &str,
    host: &str,
    port: u16,
    now: i64,
)
    ensures
        final(lib)@ == address_stored(old(lib)@, uid@, address_text(host@, port)),
        final(peers)@ == by_hand(old(peers)@, uid@, name@, platform@, host@, port, now),
        old(lib)@.wf() ==> final(lib)@.wf(),
        old(peers)@.wf() ==> final(peers)@.wf(),
{
    let address: String = join_address(host, port);
    set_device_address(lib, uid, address.as_str());
    peers.add_manual_at(uid, name, platform, host, port, now);
}

/// The devices once one was added by its address.
pub open spec fn by_hand(
    p: PeersView,
    uid: Seq<char>,
    name: Seq<char>,
    platform: Seq<char>,
    host: Seq<char>,
    port: u16,
    now: i64,
) -> PeersView {
    PeersView {
        by_uid: peer_put(
            p.by_uid,
            added_by_hand(p.get(uid), uid, name, platform, host, port, now),
        ),
        ..p
    }
}

/// The devices with those of some rows added that have an address which is one.
pub open spec fn restored(p: PeersView, rows: Seq<DeviceRowView>, now: i64) -> PeersView
    decreases rows.len(),
{
    if rows.len() == 0 {
        p
    } else {
        let before = restored(p, rows.drop_last(), now);
        let d = rows.last();
        match d.address {
            None => before,
            Some(a) => match stored_address(a) {
                None => before,
                Some((host, port)) => by_hand(
                    before,
                    d.uid,
                    d.name,
                    d.platform,
                    host,
                    port,
                    now,
                ),
            },
        }
    }
}

/// Shows again the devices that have a fixed address. Nobody announces these.
pub fn restore_manual_peers(lib: &Library, peers: &mut Peers, now: i64)
    ensures
        final(peers)@ == restored(old(peers)@, lib@.devices, now),
        old(peers)@.wf() ==> final(peers)@.wf(),
{
    let ghost start = peers@;
    let ghost all = lib@.devices;
    proof {
        assert(all.take(0) =~= Seq::empty());
    }
    for i in 0..lib.devices.len()
        invariant
            start == old(peers)@,
            all == lib@.devices,
            peers@ == restored(start, all.take(i as int), now),
            start.wf() ==> peers@.wf(),
    {
        let d: &DeviceRow = &lib.devices[i];
        proof {
            assert(all.take(i + 1).drop_last() =~= all.take(i as int));
            assert(all.take(i + 1).last() == d@);
        }
        if let Some(a) = &d.address {
            if let Some((host, port)) = split_addr(a.as_str()) {
                peers.add_manual_at(
                    d.uid.as_str(),
                    d.name.as_str(),
                    d.platform.as_str(),
                    host.as_str(),
                    port,
                    now,
                );
            }
        }
    }
    proof {
        crate::seqs::take_all(all);
    }
}

/// Why a device cannot be called.
#[derive(Debug, Clone, Copy, PartialEq, Eq, Structural)]
pub enum AddressError {
    NotVisible,
    NoAddress,
}

impl AddressError {
    pub open spec fn text(self) -> Seq<char> {
        match self {
            AddressError::NotVisible => "that device is no longer visible on the network"@,
            AddressError::NoAddress => "that device did not publish any address"@,
        }
    }

    pub fn message(&self) -> (r: &'static str)
        ensures
            r@ == self.text(),
    {
        match self {
            AddressError::NotVisible => "that device is no longer visible on the network",
            AddressError::NoAddress => "that device did not publish any address",
        }
    }
}

/// Where a device is called: the first of its addresses, and its port.
pub fn peer_addr(peers: &Peers, uid: &str) -> (r: Result<(String, u16), AddressError>)
    ensures
        match peers@.get(uid@) {
            None => r == Err::<(String, u16), AddressError>(AddressError::NotVisible),
            Some(p) => if p.addrs.len() == 0 {
                r == Err::<(String, u16), AddressError>(AddressError::NoAddress)
            } else {
                match r {
                    Ok((host, port)) => host@ == p.addrs[0] && port == p.port,
                    Err(_) => false,
                }
            },
        },
{
    match peers.find(uid) {
        None => Err(AddressError::NotVisible),
        Some(i) => {
            let p: &Peer = &peers.by_uid[i];
            if p.addrs.len() == 0 {
                return Err(AddressError::NoAddress);
            }
            Ok((p.addrs[0].clone(), p.port))
        },
    }
}

/// The name of a device: its uid where it is not seen.
pub fn peer_name(peers: &Peers, uid: &str) -> (r: String)
    ensures
        r@ == match peers@.get(uid@) {
            Some(p) => p.name,
            None => uid@,
        },
{
    match peers.find(uid) {
        Some(i) => peers.by_uid[i].name.clone(),
        None => uid.to_owned(),
    }
}

/// The platform of a device: nothing where it is not seen.
pub fn platform_of(peers: &Peers, uid: &str) -> (r: String)
    ensures
        r@ == match peers@.get(uid@) {
            Some(p) => p.platform,
            None => ""@,
        },
{
    match peers.find(uid) {
        Some(i) => peers.by_uid[i].platform.clone(),
        None => "".to_owned(),
    }
}

/// A paired device has a fixed address.
pub open spec fn is_manual(l: LibraryView, uid: Seq<char>) -> bool {
    match row_with(l.devices, device_key(), uid) {
        Some(d) => d.address is Some,
        None => false,
    }
}

/// Takes a device out of the paired ones; where it can be told so, if it can be
/// called. One with a fixed address is no longer shown either: nobody announces it,
/// so it would stay there for good.
pub fn unpair(lib: &mut Library, peers: &mut Peers, uid: &str) -> (r: Option<(String, u16)>)
    ensures
        final(lib)@ == device_forgotten(old(lib)@, uid@),
        final(peers)@ == if is_manual(old(lib)@, uid@) {
            PeersView { by_uid: old(peers)@.by_uid.filter(other_peer(uid@)), ..old(peers)@ }
        } else {
            old(peers)@
        },
        match old(peers)@.get(uid@) {
            None => r is None,
            Some(p) => if p.addrs.len() == 0 {
                r is None
            } else {
                match r {
                    Some((host, port)) => host@ == p.addrs[0] && port == p.port,
                    None => false,
                }
            },
        },
        old(lib)@.wf() ==> final(lib)@.wf(),
        old(peers)@.wf() ==> final(peers)@.wf(),
{
    let address: Option<(String, u16)> = match peer_addr(peers, uid) {
        Ok(a) => Some(a),
        Err(_) => None,
    };
    let manual: bool = match find_device(lib, uid) {
        Some(i) => lib.devices[i].address.is_some(),
        None => false,
    };
    forget_device(lib, uid);
    if manual {
        peers.forget(uid);
    }
    address
}

// ---------------------------------------------------------------------------
// The key of this device
// ---------------------------------------------------------------------------

/// Why this device has no key.
#[derive(Debug)]
pub enum KeyError {
    /// What is stored is no key.
    Spoilt,
    /// None could be made.
    Wire(WireError),
}

/// The key that a stored text stands for.
pub open spec fn stored_key(text: Seq<char>) -> Option<Seq<u8>> {
    match base64_bytes(text) {
        Some(key) => if key.len() == 32 {
            Some(key)
        } else {
            None
        },
        None => None,
    }
}

/// The private key of this device. It is made the first time and stored; from then on
/// it is the one that was stored.
pub fn private_key(lib: &mut Library) -> (r: Result<Vec<u8>, KeyError>)
    ensures
        match setting_of(old(lib)@, "noise_private_key"@) {
            Some(text) => final(lib)@ == old(lib)@ && match stored_key(text) {
                Some(key) => r is Ok && r->Ok_0@ == key,
                None => r is Err && r->Err_0 is Spoilt,
            },
            None => match r {
                Ok(key) => key@.len() == 32 && final(lib)@ == with_setting(
                    old(lib)@,
                    "noise_private_key"@,
                    base64_text(key@),
                ),
                Err(e) => e is Wire && final(lib)@ == old(lib)@,
            },
        },
        forall|key: Seq<u8>|
            key.len() == 32 && setting_of(old(lib)@, "noise_private_key"@) == Some(
                #[trigger] base64_text(key),
            ) ==> r is Ok && r->Ok_0@ == key,
        old(lib)@.wf() ==> final(lib)@.wf(),
{
    match get_setting(lib, "noise_private_key") {
        Some(text) => match decode_base64(text.as_str()) {
            Some(key) => if key.len() == 32 {
                Ok(key)
            } else {
                Err(KeyError::Spoilt)
            },
            None => Err(KeyError::Spoilt),
        },
        None => match generate_keypair() {
            Ok((private, _)) => {
                let text: String = encode_base64(private.as_slice());
                set_setting(lib, "noise_private_key", text.as_str());
                Ok(private)
            },
            Err(e) => Err(KeyError::Wire(e)),
        },
    }
}

impl KeyError {
    pub open spec fn text(self) -> Seq<char> {
        match self {
            KeyError::Spoilt => "the stored key is spoilt"@,
            KeyError::Wire(e) => e.text(),
        }
    }

    /// What went wrong, in words.
    pub fn message(self) -> (r: String)
        ensures
            r@ == self.text(),
    {
        match self {
            KeyError::Spoilt => "the stored key is spoilt".to_owned(),
            KeyError::Wire(e) => e.message(),
        }
    }
}

// ---------------------------------------------------------------------------
// What devices tell of themselves
// ---------------------------------------------------------------------------

/// How many tracks and playlists there are here.
pub fn library_counts(lib: &Library) -> (r: (i64, i64))
    requires
        lib@.tracks.len() <= i64::MAX,
        lib@.playlists.len() <= i64::MAX,
    ensures
        r.0 == lib@.tracks.len(),
        r.1 == lib@.playlists.len(),
{
    (lib.tracks.len() as i64, lib.playlists.len() as i64)
}

/// The library and name once this device has said who it is.
pub open spec fn named(l: LibraryView, default: Seq<char>) -> (LibraryView, Seq<char>) {
    match stored_name(l) {
        Some(n) => (l, n),
        None => (with_setting(l, "device_name"@, default), default),
    }
}

/// Who this device is: uid and name. Both are made up the first time.
pub fn me(lib: &mut Library, default: &str, fresh: &str) -> (r: (String, String))
    ensures
        r.0@ == identity_or(old(lib)@, fresh@),
        r.1@ == named(with_identity(old(lib)@, fresh@), default@).1,
        final(lib)@ == named(with_identity(old(lib)@, fresh@), default@).0,
        old(lib)@.wf() ==> final(lib)@.wf(),
{
    let uid: String = device_uid_or(lib, fresh);
    let name: String = device_name(lib, default);
    (uid, name)
}

/// What this device tells of itself at a given moment.
pub fn hello(lib: &mut Library, default: &str, fresh: &str, platform: &str, now: i64) -> (r: Msg)
    requires
        old(lib)@.tracks.len() <= i64::MAX,
        old(lib)@.playlists.len() <= i64::MAX,
    ensures
        match r {
            Msg::Hello { uid, name, platform: p, tracks, playlists, clock_ms } => {
                &&& uid@ == identity_or(old(lib)@, fresh@)
                &&& name@ == named(with_identity(old(lib)@, fresh@), default@).1
                &&& p@ == platform@
                &&& tracks == old(lib)@.tracks.len()
                &&& playlists == old(lib)@.playlists.len()
                &&& clock_ms == now
            },
            _ => false,
        },
        final(lib)@ == named(with_identity(old(lib)@, fresh@), default@).0,
        old(lib)@.wf() ==> final(lib)@.wf(),
{
    let (uid, name): (String, String) = me(lib, default, fresh);
    let (tracks, playlists): (i64, i64) = library_counts(lib);
    Msg::Hello { uid, name, platform: platform.to_owned(), tracks, playlists, clock_ms: now }
}

/// What a device told of itself, as it is shown.
#[derive(Debug)]
pub struct PeerHelloEvent {
    pub uid: String,
    pub name: String,
    pub tracks: i64,
    pub playlists: i64,
    /// How far its clock is ahead of this one. What was written last wins, so
    /// clocks that differ much pick the wrong side.
    pub clock_skew_ms: i64,
}

/// By how much clocks may differ.
pub const MAX_SKEW_MS: i64 = 300000;

impl PeerHelloEvent {
    /// The clocks differ too much.
    pub fn clock_is_off(&self) -> (r: bool)
        ensures
            r == (self.clock_skew_ms > MAX_SKEW_MS || self.clock_skew_ms < -MAX_SKEW_MS),
    {
        self.clock_skew_ms > MAX_SKEW_MS || self.clock_skew_ms < -MAX_SKEW_MS
    }
}

/// Takes in what a device told of itself.
pub fn report_hello(
    lib: &mut Library,
    uid: &str,
    name: &str,
    tracks: i64,
    playlists: i64,
    their_clock: i64,
    now: i64,
) -> (r: PeerHelloEvent)
    requires
        i64::MIN < their_clock - now <= i64::MAX,
    ensures
        r.uid@ == uid@,
        r.name@ == name@,
        r.tracks == tracks,
        r.playlists == playlists,
        r.clock_skew_ms == their_clock - now,
        final(lib)@ == device_touched(old(lib)@, uid@, name@, now),
        old(lib)@.wf() ==> final(lib)@.wf(),
{
    touch_device(lib, uid, name, now);
    PeerHelloEvent {
        uid: uid.to_owned(),
        name: name.to_owned(),
        tracks,
        playlists,
        clock_skew_ms: their_clock - now,
    }
}

} // verus!
