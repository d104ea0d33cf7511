//! The devices that are seen on the network.
//!
//! Being announced is not being there: an announcement outlives the device that
//! made it. Who is available is decided by trying to connect, so a paired device
//! that stops announcing itself goes grey and is still tried.

use crate::db::{is_clock_time, now_ms};
use crate::library::{
    distinct, distinct_filter, distinct_push, distinct_same_keys, DeviceRow, DeviceRowView, Library,
    LibraryView,
};
use crate::seqs::{filter_step, take_all, take_none_filter, views, views_push, views_update};
use crate::table::{find, first_where, first_where_is_first, keyed, ordered, retain, row_with, sort};
use crate::text::{before, chars_of, is_before, join3, lowercase, same, text_of, to_lower};
use vstd::prelude::*;

verus! {

broadcast use vstd::string::group_string_axioms;

/// The service under which devices announce themselves.
pub const SERVICE_TYPE: &'static str = "_sway._tcp.local.";

/// The version of what devices say to each other.
pub const PROTO: &'static str = "1";


/// A device on the network, or one that is paired and not on it.
#[derive(Debug)]
pub struct Peer {
    pub uid: String,
    pub name: String,
    pub platform: String,
    pub proto: String,
    /// Where it can be reached, the best address first.
    pub addrs: Vec<String>,
    pub port: u16,
    pub last_seen: i64,
    pub paired: bool,
    pub online: bool,
}

#[verifier::ext_equal]
pub struct PeerView {
    pub uid: Seq<char>,
    pub name: Seq<char>,
    pub platform: Seq<char>,
    pub proto: Seq<char>,
    pub addrs: Seq<Seq<char>>,
    pub port: u16,
    pub last_seen: i64,
    pub paired: bool,
    pub online: bool,
}

impl View for Peer {
    type V = PeerView;

    open spec fn view(&self) -> PeerView {
        PeerView {
            uid: self.uid@,
            name: self.name@,
            platform: self.platform@,
            proto: self.proto@,
            addrs: views(self.addrs@),
            port: self.port,
            last_seen: self.last_seen,
            paired: self.paired,
            online: self.online,
        }
    }
}

fn copy_texts(v: &Vec<String>) -> (r: Vec<String>)
    ensures
        views(r@) == views(v@),
{
    let mut r: Vec<String> = Vec::new();
    for i in 0..v.len()
        invariant
            views(r@) == views(v@).take(i as int),
    {
        let x: String = v[i].clone();
        proof {
            views_push(r@, x);
            assert(views(v@).take(i + 1) =~= views(v@).take(i as int).push(x@));
        }
        r.push(x);
    }
    proof {
        take_all(views(v@));
    }
    r
}

impl Clone for Peer {
    fn clone(&self) -> (r: Self)
        ensures
            r@ == self@,
    {
        Peer {
            uid: self.uid.clone(),
            name: self.name.clone(),
            platform: self.platform.clone(),
            proto: self.proto.clone(),
            addrs: copy_texts(&self.addrs),
            port: self.port,
            last_seen: self.last_seen,
            paired: self.paired,
            online: self.online,
        }
    }
}

/// The device that announces itself under a name.
#[derive(Debug)]
pub struct NameRow {
    pub fullname: String,
    pub uid: String,
}

pub struct NameRowView {
    pub fullname: Seq<char>,
    pub uid: Seq<char>,
}

impl View for NameRow {
    type V = NameRowView;

    open spec fn view(&self) -> NameRowView {
        NameRowView { fullname: self.fullname@, uid: self.uid@ }
    }
}

/// The devices that are seen on the network.
#[derive(Debug)]
pub struct Peers {
    pub by_uid: Vec<Peer>,
    pub names: Vec<NameRow>,
}

#[verifier::ext_equal]
pub struct PeersView {
    pub by_uid: Seq<PeerView>,
    pub names: Seq<NameRowView>,
}

impl View for Peers {
    type V = PeersView;

    open spec fn view(&self) -> PeersView {
        PeersView { by_uid: views(self.by_uid@), names: views(self.names@) }
    }
}

pub open spec fn peer_uid() -> spec_fn(PeerView) -> Seq<char> {
    |p: PeerView| p.uid
}

pub open spec fn full_name() -> spec_fn(NameRowView) -> Seq<char> {
    |n: NameRowView| n.fullname
}

impl PeersView {
    /// Each device is there once, and each name.
    pub open spec fn wf(self) -> bool {
        &&& distinct(self.by_uid, peer_uid())
        &&& distinct(self.names, full_name())
    }

    /// The device of that uid.
    pub open spec fn get(self, uid: Seq<char>) -> Option<PeerView> {
        row_with(self.by_uid, peer_uid(), uid)
    }

    /// The uid of the device that announces itself under that name.
    pub open spec fn named(self, fullname: Seq<char>) -> Option<Seq<char>> {
        match row_with(self.names, full_name(), fullname) {
            Some(n) => Some(n.uid),
            None => None,
        }
    }
}

/// What an announcement changed.
#[derive(Debug, Clone, Copy, PartialEq, Eq, Structural)]
pub struct Seen {
    /// Something that is shown is different now.
    pub changed: bool,
    /// The device was not there until now: it has to catch up.
    pub first_time: bool,
}

/// The rows with that device in the place of the one of the same uid, or at the
/// end.
pub open spec fn peer_put(rows: Seq<PeerView>, p: PeerView) -> Seq<PeerView> {
    match first_where(rows, keyed(peer_uid(), p.uid)) {
        Some(i) => rows.update(i, p),
        None => rows.push(p),
    }
}

/// The names with that one in the place of the same name, or at the end.
pub open spec fn name_put(rows: Seq<NameRowView>, n: NameRowView) -> Seq<NameRowView> {
    match first_where(rows, keyed(full_name(), n.fullname)) {
        Some(i) => rows.update(i, n),
        None => rows.push(n),
    }
}

/// What the announcement of a device changes. A device that was grey and announces
/// itself counts as one that was not there; an announcement that says nothing new
/// counts as nothing.
pub open spec fn seen_of(old: Option<PeerView>, p: PeerView) -> Seen {
    match old {
        Some(o) => Seen {
            changed: o.name != p.name || o.addrs != p.addrs || o.port != p.port || !o.online,
            first_time: !o.online,
        },
        None => Seen { changed: true, first_time: true },
    }
}

fn same_texts(a: &Vec<String>, b: &Vec<String>) -> (r: bool)
    ensures
        r == (views(a@) == views(b@)),
{
    if a.len() != b.len() {
        proof {
            assert(views(a@).len() != views(b@).len());
        }
        return false;
    }
    for i in 0..a.len()
        invariant
            a@.len() == b@.len(),
            forall|j: int| 0 <= j < i ==> views(a@)[j] == views(b@)[j],
    {
        if !same(a[i].as_str(), b[i].as_str()) {
            proof {
                assert(views(a@)[i as int] != views(b@)[i as int]);
            }
            return false;
        }
    }
    proof {
        assert(views(a@) =~= views(b@));
    }
    true
}

/// By name, whatever its case.
pub open spec fn by_name() -> spec_fn(PeerView, PeerView) -> bool {
    |a: PeerView, b: PeerView| before(lowercase(a.name), lowercase(b.name))
}

/// Those on the network first, then by name.
pub open spec fn by_online_and_name() -> spec_fn(PeerView, PeerView) -> bool {
    |a: PeerView, b: PeerView|
        (a.online && !b.online) || (a.online == b.online && before(
            lowercase(a.name),
            lowercase(b.name),
        ))
}

fn name_before(a: &Peer, b: &Peer) -> (r: bool)
    ensures
        r == before(lowercase(a.name@), lowercase(b.name@)),
{
    let x: String = to_lower(a.name.as_str());
    let y: String = to_lower(b.name.as_str());
    is_before(x.as_str(), y.as_str())
}

/// The device is paired with this one.
pub open spec fn is_known(l: LibraryView, uid: Seq<char>) -> bool {
    exists|i: int| 0 <= i < l.devices.len() && (#[trigger] l.devices[i]).uid == uid
}

/// Whether the device is paired with this one.
pub fn is_paired(lib: &Library, uid: &str) -> (r: bool)
    ensures
        r == is_known(lib@, uid@),
{
    for i in 0..lib.devices.len()
        invariant
            forall|j: int| 0 <= j < i ==> (#[trigger] lib@.devices[j]).uid != uid@,
    {
        if same(lib.devices[i].uid.as_str(), uid) {
            proof {
                assert(lib@.devices[i as int].uid == uid@);
            }
            return true;
        }
    }
    false
}

/// A paired device that is not on the network, as it is shown.
pub open spec fn peer_of_device(d: DeviceRowView) -> PeerView {
    PeerView {
        uid: d.uid,
        name: d.name,
        platform: d.platform,
        proto: PROTO@,
        addrs: Seq::empty(),
        port: 0,
        last_seen: match d.last_seen {
            Some(t) => t,
            None => 0,
        },
        paired: true,
        online: false,
    }
}

pub open spec fn with_pairing(l: LibraryView) -> spec_fn(PeerView) -> PeerView {
    |p: PeerView| PeerView { paired: is_known(l, p.uid), ..p }
}

pub open spec fn not_seen(rows: Seq<PeerView>) -> spec_fn(DeviceRowView) -> bool {
    |d: DeviceRowView| first_where(rows, keyed(peer_uid(), d.uid)) is None
}

/// All devices that are shown: those on the network, and those that are paired.
/// Whether a device is paired is always what the library says now.
pub open spec fn all_peers(p: PeersView, l: LibraryView) -> Seq<PeerView> {
    ordered(
        ordered(p.by_uid, by_name()).map_values(with_pairing(l)) + l.devices.filter(
            not_seen(p.by_uid),
        ).map_values(|d: DeviceRowView| peer_of_device(d)),
        by_online_and_name(),
    )
}

impl Default for Peers {
    fn default() -> (r: Self)
        ensures
            r@ == (PeersView { by_uid: Seq::empty(), names: Seq::empty() }),
            r@.wf(),
    {
        let r: Peers = Peers { by_uid: Vec::new(), names: Vec::new() };
        proof {
            assert(r@ =~~= (PeersView { by_uid: Seq::empty(), names: Seq::empty() }));
        }
        r
    }
}

impl Peers {
    pub(crate) fn find(&self, uid: &str) -> (r: Option<usize>)
        ensures
            match r {
                Some(i) => i < self.by_uid@.len() && first_where(
                    self@.by_uid,
                    keyed(peer_uid(), uid@),
                ) == Some(i as int) && self.by_uid@[i as int].uid@ == uid@,
                None => first_where(self@.by_uid, keyed(peer_uid(), uid@)) is None,
            },
    {
        let hit = |p: &Peer| -> (b: bool)
            ensures
                b == (p.uid@ == uid@),
            { same(p.uid.as_str(), uid) };
        find(&self.by_uid, hit, Ghost(keyed(peer_uid(), uid@)))
    }

    fn find_name(&self, fullname: &str) -> (r: Option<usize>)
        ensures
            match r {
                Some(i) => i < self.names@.len() && first_where(
                    self@.names,
                    keyed(full_name(), fullname@),
                ) == Some(i as int) && self.names@[i as int].fullname@ == fullname@,
                None => first_where(self@.names, keyed(full_name(), fullname@)) is None,
            },
    {
        let hit = |n: &NameRow| -> (b: bool)
            ensures
                b == (n.fullname@ == fullname@),
            { same(n.fullname.as_str(), fullname) };
        find(&self.names, hit, Ghost(keyed(full_name(), fullname@)))
    }

    /// The devices on the network, by name.
    pub fn list(&self) -> (r: Vec<Peer>)
        ensures
            views(r@) == ordered(self@.by_uid, by_name()),
    {
        let mut v: Vec<Peer> = Vec::new();
        for i in 0..self.by_uid.len()
            invariant
                views(v@) == self@.by_uid.take(i as int),
        {
            let p: Peer = self.by_uid[i].clone();
            proof {
                views_push(v@, p);
                assert(self@.by_uid.take(i + 1) =~= self@.by_uid.take(i as int).push(p@));
            }
            v.push(p);
        }
        proof {
            take_all(self@.by_uid);
        }
        let lt = |a: &Peer, b: &Peer| -> (c: bool)
            ensures
                c == by_name()(a@, b@),
            { name_before(a, b) };
        sort(v, lt, Ghost(by_name()))
    }

    /// The devices on the network and those that are paired, the former first.
    pub fn merged_list(&self, lib: &Library) -> (r: Vec<Peer>)
        ensures
            views(r@) == all_peers(self@, lib@),
    {
        let mut out: Vec<Peer> = self.list();
        let ghost listed = views(out@);
        let n: usize = out.len();
        let ghost f = with_pairing(lib@);
        for i in 0..n
            invariant
                n == out@.len(),
                n == listed.len(),
                f == with_pairing(lib@),
                forall|j: int| 0 <= j < i ==> (#[trigger] out@[j])@ == f(listed[j]),
                forall|j: int| i <= j < n ==> (#[trigger] out@[j])@ == listed[j],
        {
            let known: bool = is_paired(lib, out[i].uid.as_str());
            out[i].paired = known;
            proof {
                assert(out@[i as int]@ =~= f(listed[i as int]));
            }
        }
        proof {
            assert(views(out@) =~= listed.map_values(f));
        }
        let ghost head = listed.map_values(f);
        let ghost q = not_seen(self@.by_uid);
        let ghost g = |d: DeviceRowView| peer_of_device(d);
        let ghost devices = lib@.devices;
        proof {
            take_none_filter(devices, q);
            assert(views(out@) =~= head + devices.take(0).filter(q).map_values(g));
        }
        for i in 0..lib.devices.len()
            invariant
                devices == lib@.devices,
                q == not_seen(self@.by_uid),
                g == (|d: DeviceRowView| peer_of_device(d)),
                views(out@) == head + devices.take(i as int).filter(q).map_values(g),
        {
            let d: &DeviceRow = &lib.devices[i];
            let ghost kept = devices.take(i as int).filter(q);
            proof {
                filter_step(devices, q, i as int);
                assert(devices[i as int] == d@);
            }
            if self.find(d.uid.as_str()).is_none() {
                let p: Peer = Peer {
                    uid: d.uid.clone(),
                    name: d.name.clone(),
                    platform: d.platform.clone(),
                    proto: PROTO.to_owned(),
                    addrs: Vec::new(),
                    port: 0,
                    last_seen: match d.last_seen {
                        Some(t) => t,
                        None => 0,
                    },
                    paired: true,
                    online: false,
                };
                proof {
                    views_push(out@, p);
                    assert(p@ =~~= peer_of_device(d@));
                    assert(kept.push(d@).map_values(g) =~= kept.map_values(g).push(g(d@)));
                    assert((head + kept.map_values(g)).push(p@) =~= head + kept.push(d@).map_values(g));
                }
                out.push(p);
            }
        }
        proof {
            take_all(devices);
        }
        let lt = |a: &Peer, b: &Peer| -> (c: bool)
            ensures
                c == by_online_and_name()(a@, b@),
            { (a.online && !b.online) || (a.online == b.online && name_before(a, b)) };
        sort(out, lt, Ghost(by_online_and_name()))
    }

    /// Takes in the announcement of a device; what it changed.
    pub fn upsert(&mut self, fullname: String, peer: Peer) -> (r: Seen)
        ensures
            r == seen_of(old(self)@.get(peer@.uid), peer@),
            final(self)@ == (PeersView {
                by_uid: peer_put(old(self)@.by_uid, peer@),
                names: name_put(
                    old(self)@.names,
                    NameRowView { fullname: fullname@, uid: peer@.uid },
                ),
            }),
            old(self)@.wf() ==> final(self)@.wf(),
    {
        let ghost before = self@;
        let ghost pv = peer@;
        let ghost nv = NameRowView { fullname: fullname@, uid: peer.uid@ };
        let at: Option<usize> = self.find(peer.uid.as_str());
        let named: Option<usize> = self.find_name(fullname.as_str());
        let seen: Seen = match at {
            Some(i) => {
                let old_peer: &Peer = &self.by_uid[i];
                Seen {
                    changed: !same(old_peer.name.as_str(), peer.name.as_str()) || !same_texts(
                        &old_peer.addrs,
                        &peer.addrs,
                    ) || old_peer.port != peer.port || !old_peer.online,
                    first_time: !old_peer.online,
                }
            },
            None => Seen { changed: true, first_time: true },
        };
        let row: NameRow = NameRow { fullname, uid: peer.uid.clone() };
        match named {
            Some(k) => {
                proof {
                    views_update(self.names@, k as int, row);
                }
                self.names.set(k, row);
            },
            None => {
                proof {
                    views_push(self.names@, row);
                }
                self.names.push(row);
            },
        }
        match at {
            Some(i) => {
                proof {
                    views_update(self.by_uid@, i as int, peer);
                }
                self.by_uid.set(i, peer);
            },
            None => {
                proof {
                    views_push(self.by_uid@, peer);
                }
                self.by_uid.push(peer);
            },
        }
        proof {
            if before.wf() {
                peer_put_distinct(before.by_uid, pv);
                name_put_distinct(before.names, nv);
            }
        }
        seen
    }

    /// Where each device that has an address can be tried.
    pub fn probe_targets(&self) -> (r: Vec<(String, String, u16)>)
        ensures
            r@.len() == self@.by_uid.filter(has_address()).len(),
            forall|i: int|
                0 <= i < r@.len() ==> {
                    let p = self@.by_uid.filter(has_address())[i];
                    (#[trigger] r@[i]).0@ == p.uid && r@[i].1@ == p.addrs[0] && r@[i].2 == p.port
                },
    {
        let mut r: Vec<(String, String, u16)> = Vec::new();
        let ghost all = self@.by_uid;
        let ghost q = has_address();
        proof {
            take_none_filter(all, q);
        }
        for i in 0..self.by_uid.len()
            invariant
                all == self@.by_uid,
                q == has_address(),
                r@.len() == all.take(i as int).filter(q).len(),
                forall|k: int|
                    0 <= k < r@.len() ==> {
                        let p = all.take(i as int).filter(q)[k];
                        (#[trigger] r@[k]).0@ == p.uid && r@[k].1@ == p.addrs[0] && r@[k].2 == p.port
                    },
        {
            let p: &Peer = &self.by_uid[i];
            proof {
                filter_step(all, q, i as int);
                assert(all[i as int] == p@);
            }
            if p.addrs.len() > 0 {
                r.push((p.uid.clone(), p.addrs[0].clone(), p.port));
            }
        }
        proof {
            take_all(all);
        }
        r
    }

    /// Notes at a given moment whether a device can be reached; whether that is
    /// news.
    pub fn set_online_at(&mut self, uid: &str, online: bool, now: i64) -> (r: bool)
        ensures
            r == (old(self)@.get(uid@) is Some && old(self)@.get(uid@)->0.online != online),
            final(self)@ == online_set(old(self)@, uid@, online, now),
            old(self)@.wf() ==> final(self)@.wf(),
    {
        let ghost before = self@;
        match self.find(uid) {
            Some(i) => {
                if self.by_uid[i].online != online {
                    let mut p: Peer = self.by_uid[i].clone();
                    p.online = online;
                    if online {
                        p.last_seen = now;
                    }
                    proof {
                        views_update(self.by_uid@, i as int, p);
                        if before.wf() {
                            distinct_same_keys(
                                before.by_uid,
                                before.by_uid.update(i as int, p@),
                                peer_uid(),
                            );
                        }
                    }
                    self.by_uid.set(i, p);
                    true
                } else {
                    false
                }
            },
            None => false,
        }
    }

    /// Notes whether a device can be reached; whether that is news.
    pub fn set_online(&mut self, uid: &str, online: bool) -> (r: bool)
        ensures
            r == (old(self)@.get(uid@) is Some && old(self)@.get(uid@)->0.online != online),
            exists|now: i64|
                is_clock_time(now) && final(self)@ == #[trigger] online_set(
                    old(self)@,
                    uid@,
                    online,
                    now,
                ),
            old(self)@.wf() ==> final(self)@.wf(),
    {
        let now: i64 = now_ms();
        self.set_online_at(uid, online, now)
    }

    /// Notes that a device could not be reached; whether that is news.
    pub fn mark_unreachable(&mut self, uid: &str) -> (r: bool)
        ensures
            r == (old(self)@.get(uid@) is Some && old(self)@.get(uid@)->0.online),
            final(self)@ == online_set(old(self)@, uid@, false, 0),
            old(self)@.wf() ==> final(self)@.wf(),
    {
        self.set_online_at(uid, false, 0)
    }

    /// Drops a device; whether it was there.
    pub fn forget(&mut self, uid: &str) -> (r: bool)
        ensures
            r == (old(self)@.get(uid@) is Some),
            final(self)@ == (PeersView {
                by_uid: old(self)@.by_uid.filter(other_peer(uid@)),
                ..old(self)@
            }),
            old(self)@.wf() ==> final(self)@.wf(),
    {
        let there: bool = self.find(uid).is_some();
        proof {
            if self@.wf() {
                distinct_filter(self@.by_uid, other_peer(uid@), peer_uid());
            }
        }
        let keep = |p: &Peer| -> (b: bool)
            ensures
                b == (p.uid@ != uid@),
            { !same(p.uid.as_str(), uid) };
        retain(&mut self.by_uid, keep, Ghost(other_peer(uid@)));
        there
    }

    /// Adds, at a given moment, a device by its address. Whether it can be reached
    /// is not known yet, so it is not taken to be there.
    pub fn add_manual_at(
        &mut self,
        uid: &str,
        name: &str,
        platform: &str,
        host: &str,
        port: u16,
        now: i64,
    )
        ensures
            final(self)@ == (PeersView {
                by_uid: peer_put(
                    old(self)@.by_uid,
                    added_by_hand(old(self)@.get(uid@), uid@, name@, platform@, host@, port, now),
                ),
                ..old(self)@
            }),
            old(self)@.wf() ==> final(self)@.wf(),
    {
        let ghost before = self@;
        let mut addrs: Vec<String> = Vec::new();
        addrs.push(host.to_owned());
        proof {
            assert(views(addrs@) =~= seq![host@]);
        }
        match self.find(uid) {
            Some(i) => {
                let old_peer: &Peer = &self.by_uid[i];
                let p: Peer = Peer {
                    uid: uid.to_owned(),
                    name: name.to_owned(),
                    platform: platform.to_owned(),
                    proto: old_peer.proto.clone(),
                    addrs,
                    port,
                    last_seen: old_peer.last_seen,
                    paired: old_peer.paired,
                    online: old_peer.online,
                };
                proof {
                    views_update(self.by_uid@, i as int, p);
                    if before.wf() {
                        peer_put_distinct(before.by_uid, p@);
                    }
                }
                self.by_uid.set(i, p);
            },
            None => {
                let p: Peer = Peer {
                    uid: uid.to_owned(),
                    name: name.to_owned(),
                    platform: platform.to_owned(),
                    proto: PROTO.to_owned(),
                    addrs,
                    port,
                    last_seen: now,
                    paired: true,
                    online: false,
                };
                proof {
                    views_push(self.by_uid@, p);
                    if before.wf() {
                        peer_put_distinct(before.by_uid, p@);
                    }
                }
                self.by_uid.push(p);
            },
        }
    }

    /// Adds a device by its address.
    pub fn add_manual(&mut self, uid: &str, name: &str, platform: &str, host: &str, port: u16)
        ensures
            exists|now: i64|
                is_clock_time(now) && final(self)@ == (PeersView {
                    by_uid: peer_put(
                        old(self)@.by_uid,
                        #[trigger] added_by_hand(
                            old(self)@.get(uid@),
                            uid@,
                            name@,
                            platform@,
                            host@,
                            port,
                            now,
                        ),
                    ),
                    ..old(self)@
                }),
            old(self)@.wf() ==> final(self)@.wf(),
    {
        let now: i64 = now_ms();
        self.add_manual_at(uid, name, platform, host, port, now);
    }

    /// The uid of the device that announces itself under that name.
    pub fn uid_of(&self, fullname: &str) -> (r: Option<String>)
        ensures
            crate::text::opt_view(r) == self@.named(fullname@),
    {
        match self.find_name(fullname) {
            Some(i) => Some(self.names[i].uid.clone()),
            None => None,
        }
    }

    /// Drops the device that announced itself under that name, and the name;
    /// whether the device was there.
    pub fn remove_by_fullname(&mut self, fullname: &str) -> (r: bool)
        ensures
            final(self)@ == name_removed(old(self)@, fullname@),
            r == match old(self)@.named(fullname@) {
                Some(uid) => old(self)@.get(uid) is Some,
                None => false,
            },
            old(self)@.wf() ==> final(self)@.wf(),
    {
        let uid: Option<String> = self.uid_of(fullname);
        proof {
            if self@.wf() {
                distinct_filter(self@.names, other_name(fullname@), full_name());
            }
        }
        match uid {
            Some(u) => {
                let keep = |n: &NameRow| -> (b: bool)
                    ensures
                        b == (n.fullname@ != fullname@),
                    { !same(n.fullname.as_str(), fullname) };
                retain(&mut self.names, keep, Ghost(other_name(fullname@)));
                self.forget(u.as_str())
            },
            None => false,
        }
    }

    /// Notes that the device that announced itself under that name stopped doing so:
    /// it goes grey and stays, so that it is still tried. Whether that is news.
    pub fn mark_gone_by_fullname(&mut self, fullname: &str) -> (r: bool)
        ensures
            match old(self)@.named(fullname@) {
                Some(uid) => final(self)@ == online_set(old(self)@, uid, false, 0) && r == (old(
                    self,
                )@.get(uid) is Some && old(self)@.get(uid)->0.online),
                None => final(self)@ == old(self)@ && !r,
            },
            old(self)@.wf() ==> final(self)@.wf(),
    {
        match self.uid_of(fullname) {
            Some(uid) => self.set_online_at(uid.as_str(), false, 0),
            None => false,
        }
    }
}

pub open spec fn has_address() -> spec_fn(PeerView) -> bool {
    |p: PeerView| p.addrs.len() > 0
}

pub open spec fn other_peer(uid: Seq<char>) -> spec_fn(PeerView) -> bool {
    |p: PeerView| p.uid != uid
}

pub open spec fn other_name(fullname: Seq<char>) -> spec_fn(NameRowView) -> bool {
    |n: NameRowView| n.fullname != fullname
}

/// The devices once it is known whether one of them can be reached.
pub open spec fn online_set(p: PeersView, uid: Seq<char>, online: bool, now: i64) -> PeersView {
    match first_where(p.by_uid, keyed(peer_uid(), uid)) {
        Some(i) => if p.by_uid[i].online != online {
            PeersView {
                by_uid: p.by_uid.update(
                    i,
                    PeerView {
                        online,
                        last_seen: if online {
                            now
                        } else {
                            p.by_uid[i].last_seen
                        },
                        ..p.by_uid[i]
                    },
                ),
                ..p
            }
        } else {
            p
        },
        None => p,
    }
}

/// A device that was added by its address.
pub open spec fn added_by_hand(
    old_peer: Option<PeerView>,
    uid: Seq<char>,
    name: Seq<char>,
    platform: Seq<char>,
    host: Seq<char>,
    port: u16,
    now: i64,
) -> PeerView {
    match old_peer {
        Some(o) => PeerView { uid, name, platform, addrs: seq![host], port, ..o },
        None => PeerView {
            uid,
            name,
            platform,
            proto: PROTO@,
            addrs: seq![host],
            port,
            last_seen: now,
            paired: true,
            online: false,
        },
    }
}

/// The devices once a name and its device are gone.
pub open spec fn name_removed(p: PeersView, fullname: Seq<char>) -> PeersView {
    match p.named(fullname) {
        Some(uid) => PeersView {
            by_uid: p.by_uid.filter(other_peer(uid)),
            names: p.names.filter(other_name(fullname)),
        },
        None => p,
    }
}

proof fn peer_put_distinct(rows: Seq<PeerView>, p: PeerView)
    requires
        distinct(rows, peer_uid()),
    ensures
        distinct(peer_put(rows, p), peer_uid()),
{
    let k = keyed(peer_uid(), p.uid);
    first_where_is_first(rows, k);
    match first_where(rows, k) {
        Some(i) => {
            distinct_same_keys(rows, rows.update(i, p), peer_uid());
        },
        None => {
            assert forall|j: int| 0 <= j < rows.len() implies peer_uid()(#[trigger] rows[j])
                != peer_uid()(p) by {
                assert(!k(rows[j]));
            }
            distinct_push(rows, p, peer_uid());
        },
    }
}

proof fn name_put_distinct(rows: Seq<NameRowView>, n: NameRowView)
    requires
        distinct(rows, full_name()),
    ensures
        distinct(name_put(rows, n), full_name()),
{
    let k = keyed(full_name(), n.fullname);
    first_where_is_first(rows, k);
    match first_where(rows, k) {
        Some(i) => {
            distinct_same_keys(rows, rows.update(i, n), full_name());
        },
        None => {
            assert forall|j: int| 0 <= j < rows.len() implies full_name()(#[trigger] rows[j])
                != full_name()(n) by {
                assert(!k(rows[j]));
            }
            distinct_push(rows, n, full_name());
        },
    }
}

/// The same announcement twice in a row is nothing the second time.
pub proof fn a_repeated_announcement_is_nothing(rows: Seq<PeerView>, p: PeerView)
    requires
        p.online,
    ensures
        seen_of(row_with(peer_put(rows, p), peer_uid(), p.uid), p) == (Seen {
            changed: false,
            first_time: false,
        }),
{
    let k = keyed(peer_uid(), p.uid);
    first_where_is_first(rows, k);
    match first_where(rows, k) {
        Some(i) => {
            crate::table::row_with_update(rows, peer_uid(), i, p, p.uid);
        },
        None => {
            crate::table::row_with_push(rows, peer_uid(), p, p.uid);
        },
    }
}

/// A device that went grey is still among those that are tried, and an
/// announcement of it counts as its first.
pub proof fn a_grey_device_is_still_tried(p: PeersView, uid: Seq<char>, again: PeerView)
    requires
        p.get(uid) is Some,
        p.get(uid)->0.addrs.len() > 0,
        again.uid == uid,
    ensures
        ({
            let q = online_set(p, uid, false, 0);
            &&& q.get(uid) is Some
            &&& !q.get(uid)->0.online
            &&& q.get(uid)->0.addrs == p.get(uid)->0.addrs
            &&& has_address()(q.get(uid)->0)
            &&& seen_of(q.get(uid), again).first_time
        }),
{
    let k = keyed(peer_uid(), uid);
    first_where_is_first(p.by_uid, k);
    let i = first_where(p.by_uid, k)->0;
    if p.by_uid[i].online {
        let row = PeerView { online: false, ..p.by_uid[i] };
        crate::table::row_with_update(p.by_uid, peer_uid(), i, row, uid);
    }
}

// ---------------------------------------------------------------------------
// Announcements
// ---------------------------------------------------------------------------

/// An address, as its numbers.
#[derive(Debug, Clone, Copy)]
pub enum Ip {
    V4([u8; 4]),
    V6([u16; 8]),
}

/// An address that leads nowhere beyond its own link.
pub open spec fn stays_on_link(ip: Ip) -> bool {
    match ip {
        Ip::V4(b) => b[0] == 169 && b[1] == 254,
        Ip::V6(s) => s[0] & 0xffc0 == 0xfe80,
    }
}

/// Whether an address leads nowhere beyond its own link.
pub fn is_link_local(ip: &Ip) -> (r: bool)
    ensures
        r == stays_on_link(*ip),
{
    match ip {
        Ip::V4(b) => b[0] == 169 && b[1] == 254,
        Ip::V6(s) => s[0] & 0xffc0 == 0xfe80,
    }
}

/// An address that a device announces.
#[derive(Debug)]
pub struct Address {
    pub ip: Ip,
    pub loopback: bool,
    pub text: String,
}

pub struct AddressView {
    pub link_local: bool,
    pub loopback: bool,
    pub text: Seq<char>,
}

impl View for Address {
    type V = AddressView;

    open spec fn view(&self) -> AddressView {
        AddressView {
            link_local: stays_on_link(self.ip),
            loopback: self.loopback,
            text: self.text@,
        }
    }
}

impl Clone for Address {
    fn clone(&self) -> (r: Self)
        ensures
            r@ == self@,
    {
        Address { ip: self.ip, loopback: self.loopback, text: self.text.clone() }
    }
}

/// Addresses that lead somewhere first, then by their text.
pub open spec fn by_use() -> spec_fn(AddressView, AddressView) -> bool {
    |a: AddressView, b: AddressView|
        (!a.link_local && b.link_local) || (a.link_local == b.link_local && before(a.text, b.text))
}

pub open spec fn is_outside() -> spec_fn(AddressView) -> bool {
    |a: AddressView| !a.loopback
}

/// The addresses at which a device may be reached, the best first.
pub open spec fn usable_addrs(addrs: Seq<AddressView>) -> Seq<Seq<char>> {
    ordered(addrs.filter(is_outside()), by_use()).map_values(|a: AddressView| a.text)
}

/// The addresses at which a device may be reached, the best first. One that leads
/// nowhere beyond its link is a real address, but of no use for connecting.
pub fn usable(addrs: &[Address]) -> (r: Vec<String>)
    ensures
        views(r@) == usable_addrs(views(addrs@)),
{
    let mut kept: Vec<Address> = Vec::new();
    let ghost all = views(addrs@);
    let ghost p = is_outside();
    proof {
        take_none_filter(all, p);
        assert(views(kept@) =~= all.take(0).filter(p));
    }
    for i in 0..addrs.len()
        invariant
            all == views(addrs@),
            p == is_outside(),
            views(kept@) == all.take(i as int).filter(p),
    {
        proof {
            filter_step(all, p, i as int);
            assert(all[i as int] == addrs@[i as int]@);
        }
        if !addrs[i].loopback {
            let a: Address = addrs[i].clone();
            proof {
                views_push(kept@, a);
            }
            kept.push(a);
        }
    }
    proof {
        take_all(all);
    }
    let lt = |a: &Address, b: &Address| -> (c: bool)
        ensures
            c == by_use()(a@, b@),
        {
            let x: bool = is_link_local(&a.ip);
            let y: bool = is_link_local(&b.ip);
            (!x && y) || (x == y && is_before(a.text.as_str(), b.text.as_str()))
        };
    let sorted: Vec<Address> = sort(kept, lt, Ghost(by_use()));
    let ghost goal = usable_addrs(all);
    let mut r: Vec<String> = Vec::new();
    for i in 0..sorted.len()
        invariant
            goal == views(sorted@).map_values(|a: AddressView| a.text),
            views(r@) == goal.take(i as int),
    {
        let t: String = sorted[i].text.clone();
        proof {
            views_push(r@, t);
            assert(goal.take(i + 1) =~= goal.take(i as int).push(t@));
        }
        r.push(t);
    }
    proof {
        take_all(goal);
    }
    r
}

/// What a device says of itself when it announces itself; empty where it says
/// nothing.
#[derive(Debug)]
pub struct Announcement {
    pub uid: String,
    pub name: String,
    pub platform: String,
    pub proto: String,
    pub port: u16,
}

/// The device that an announcement is of; nothing where it has no uid, or is this
/// device itself.
pub open spec fn announced_peer(
    a: Announcement,
    addrs: Seq<AddressView>,
    me: Seq<char>,
    now: i64,
) -> Option<PeerView> {
    if a.uid@.len() == 0 || a.uid@ == me {
        None
    } else {
        Some(
            PeerView {
                uid: a.uid@,
                name: if a.name@.len() == 0 {
                    a.uid@
                } else {
                    a.name@
                },
                platform: a.platform@,
                proto: a.proto@,
                addrs: usable_addrs(addrs),
                port: a.port,
                last_seen: now,
                paired: false,
                online: true,
            },
        )
    }
}

/// Takes in an announcement that came at a given moment; what it changed, or
/// nothing where it is of no device but this one.
pub fn on_announced(
    peers: &mut Peers,
    fullname: &str,
    a: &Announcement,
    addrs: &[Address],
    me: &str,
    now: i64,
) -> (r: Option<Seen>)
    ensures
        match announced_peer(*a, views(addrs@), me@, now) {
            Some(p) => r == Some(seen_of(old(peers)@.get(p.uid), p)) && final(peers)@ == (
            PeersView {
                by_uid: peer_put(old(peers)@.by_uid, p),
                names: name_put(
                    old(peers)@.names,
                    NameRowView { fullname: fullname@, uid: p.uid },
                ),
            }),
            None => r is None && final(peers)@ == old(peers)@,
        },
        old(peers)@.wf() ==> final(peers)@.wf(),
{
    if a.uid.as_str().is_empty() || same(a.uid.as_str(), me) {
        return None;
    }
    let name: String = if a.name.as_str().is_empty() {
        a.uid.clone()
    } else {
        a.name.clone()
    };
    let peer: Peer = Peer {
        uid: a.uid.clone(),
        name,
        platform: a.platform.clone(),
        proto: a.proto.clone(),
        addrs: usable(addrs),
        port: a.port,
        last_seen: now,
        paired: false,
        online: true,
    };
    Some(peers.upsert(fullname.to_owned(), peer))
}

/// The devices once the announcements under a name stopped. A paired device goes
/// grey and is still tried; another one is dropped.
pub open spec fn announcements_stopped(
    p: PeersView,
    l: LibraryView,
    fullname: Seq<char>,
) -> PeersView {
    match p.named(fullname) {
        Some(uid) => if is_known(l, uid) {
            online_set(p, uid, false, 0)
        } else {
            name_removed(p, fullname)
        },
        None => p,
    }
}

/// Notes that the announcements under a name stopped; whether that changed
/// anything that is shown.
pub fn on_removed(peers: &mut Peers, lib: &Library, fullname: &str) -> (r: bool)
    ensures
        final(peers)@ == announcements_stopped(old(peers)@, lib@, fullname@),
        r == match old(peers)@.named(fullname@) {
            Some(uid) => if is_known(lib@, uid) {
                old(peers)@.get(uid) is Some && old(peers)@.get(uid)->0.online
            } else {
                old(peers)@.get(uid) is Some
            },
            None => false,
        },
        old(peers)@.wf() ==> final(peers)@.wf(),
{
    let ours: bool = match peers.uid_of(fullname) {
        Some(uid) => is_paired(lib, uid.as_str()),
        None => false,
    };
    if ours {
        peers.mark_gone_by_fullname(fullname)
    } else {
        peers.remove_by_fullname(fullname)
    }
}

// ---------------------------------------------------------------------------
// Trying
// ---------------------------------------------------------------------------

/// Every how many rounds the network is asked anew.
pub const REBROWSE_EVERY: u32 = 6;

/// Whether the network is asked anew in that round.
pub fn asks_anew(tick: u32) -> (r: bool)
    ensures
        r == (tick as int % 6 == 0),
{
    tick % REBROWSE_EVERY == 0
}

/// The devices after they were tried at a given moment, and which of them can be
/// reached again.
pub open spec fn tried(
    p: PeersView,
    results: Seq<(Seq<char>, bool)>,
    now: i64,
) -> (PeersView, bool, Seq<Seq<char>>)
    decreases results.len(),
{
    if results.len() == 0 {
        (p, false, Seq::empty())
    } else {
        let (q, changed, back) = tried(p, results.drop_last(), now);
        let (uid, up) = results.last();
        let news = q.get(uid) is Some && q.get(uid)->0.online != up;
        (
            online_set(q, uid, up, now),
            changed || news,
            if news && up {
                back.push(uid)
            } else {
                back
            },
        )
    }
}

pub open spec fn result_views(results: Seq<(String, bool)>) -> Seq<(Seq<char>, bool)> {
    Seq::new(results.len(), |i: int| (results[i].0@, results[i].1))
}

/// Notes at a given moment which devices could be reached: whether anything
/// changed, and which devices are back.
pub fn note_results(peers: &mut Peers, results: &[(String, bool)], now: i64) -> (r: (
    bool,
    Vec<String>,
))
    ensures
        (final(peers)@, r.0, views(r.1@)) == tried(old(peers)@, result_views(results@), now),
        old(peers)@.wf() ==> final(peers)@.wf(),
{
    let ghost p0 = peers@;
    let ghost v = result_views(results@);
    let mut changed: bool = false;
    let mut back: Vec<String> = Vec::new();
    proof {
        assert(v.take(0) =~= Seq::empty());
        assert(views(back@) =~= Seq::empty());
    }
    for i in 0..results.len()
        invariant
            v == result_views(results@),
            (peers@, changed, views(back@)) == tried(p0, v.take(i as int), now),
            p0.wf() ==> peers@.wf(),
    {
        proof {
            assert(v.take(i + 1).drop_last() =~= v.take(i as int));
            assert(v.take(i + 1).last() == (results@[i as int].0@, results@[i as int].1));
        }
        let up: bool = results[i].1;
        if peers.set_online_at(results[i].0.as_str(), up, now) {
            changed = true;
            if up {
                let u: String = results[i].0.clone();
                proof {
                    views_push(back@, u);
                }
                back.push(u);
            }
        }
    }
    proof {
        take_all(v);
    }
    (changed, back)
}

// ---------------------------------------------------------------------------
// Announcing
// ---------------------------------------------------------------------------

pub open spec fn hyphen_at(s: Seq<char>) -> Option<int> {
    first_where(s, |c: char| c == '-')
}

/// The first group of a uid.
pub open spec fn short_of(uid: Seq<char>) -> Seq<char> {
    match hyphen_at(uid) {
        Some(i) => uid.subrange(0, i),
        None => uid,
    }
}

/// The first group of a uid: what this device is called on the network. The name
/// that its user gave it will not do, for two devices may have the same.
pub fn short_uid(uid: &str) -> (r: String)
    ensures
        r@ == short_of(uid@),
{
    let v: Vec<char> = chars_of(uid);
    let n: usize = v.len();
    let ghost p = |c: char| c == '-';
    for i in 0..n
        invariant
            v@ == uid@,
            n == v@.len(),
            p == (|c: char| c == '-'),
            forall|j: int| 0 <= j < i ==> !p(#[trigger] uid@[j]),
    {
        if v[i] == '-' {
            proof {
                crate::table::first_where_at(uid@, p, i as int);
            }
            return text_of(&v, 0, i);
        }
    }
    proof {
        first_where_is_first(uid@, p);
    }
    uid.to_owned()
}

/// The host name of this device on the network.
pub fn host_name(uid: &str) -> (r: String)
    ensures
        r@ == "sway-"@ + short_of(uid@) + ".local."@,
{
    let s: String = short_uid(uid);
    join3("sway-", s.as_str(), ".local.")
}

/// What kind of device this is, by the name of its operating system.
pub fn platform_name(os: &str) -> (r: String)
    ensures
        r@ == if os@ == "android"@ || os@ == "windows"@ || os@ == "macos"@ {
            os@
        } else {
            "linux"@
        },
{
    if same(os, "android") || same(os, "windows") || same(os, "macos") {
        os.to_owned()
    } else {
        "linux".to_owned()
    }
}

} // verus!
