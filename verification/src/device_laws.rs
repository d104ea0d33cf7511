//! What is known of other devices, and how they are shown.

use crate::address::stored_address;
use crate::db::stored_name;
use crate::device_info::is_name;
use crate::devices::{
    named, address_stored, device_put, device_stored, device_touched, paired_row, restored,
};
use crate::discovery::{
    added_by_hand, all_peers, announced_peer, announcements_stopped, by_name, by_online_and_name,
    by_use, is_known, is_outside, not_seen, online_set, peer_of_device, peer_put, peer_uid, seen_of,
    short_of, tried, usable_addrs, with_pairing, stays_on_link, AddressView, Announcement, PeerView,
    PeersView,
};
use crate::discovery::Ip;
use crate::library::{device_key, filter_is_part, DeviceRowView, LibraryView};
use crate::merge_laws::found_by_key;
use crate::sync_laws::filtered_is_there;
use crate::table::{
    first_where, first_where_is_first, keyed, ordered, ordered_is_in_order, row_with, row_with_push,
    row_with_update, weak_order,
};
use crate::text::{before, lowercase, trimmed};
use vstd::prelude::*;

verus! {

// ---------------------------------------------------------------------------
// Paired devices
// ---------------------------------------------------------------------------

proof fn put_is_read(rows: Seq<DeviceRowView>, d: DeviceRowView, uid: Seq<char>)
    ensures
        row_with(device_put(rows, d), device_key(), uid) == if uid == d.uid {
            Some(d)
        } else {
            row_with(rows, device_key(), uid)
        },
{
    match first_where(rows, keyed(device_key(), d.uid)) {
        Some(i) => row_with_update(rows, device_key(), i, d, uid),
        None => row_with_push(rows, device_key(), d, uid),
    }
}

/// A device that was paired is known by its name, its platform and its key, as paired and
/// seen at that moment; when it was synchronised last and where it is stays known. Other
/// devices stay as they are.
pub proof fn a_paired_device_is_on_record(
    l: LibraryView,
    uid: Seq<char>,
    name: Seq<char>,
    platform: Seq<char>,
    key: Seq<u8>,
    now: i64,
    other: Seq<char>,
)
    requires
        other != uid,
    ensures
        ({
            let m = device_stored(l, uid, name, platform, key, now);
            let old = row_with(l.devices, device_key(), uid);
            match row_with(m.devices, device_key(), uid) {
                Some(d) => {
                    &&& d.uid == uid
                    &&& d.name == name
                    &&& d.platform == platform
                    &&& d.pubkey == Some(key)
                    &&& d.paired_at == Some(now)
                    &&& d.last_seen == Some(now)
                    &&& old is Some ==> d.last_sync_at == old->0.last_sync_at && d.address
                        == old->0.address
                    &&& old is None ==> d.last_sync_at is None && d.address is None
                },
                None => false,
            }
        }),
        row_with(
            device_stored(l, uid, name, platform, key, now).devices,
            device_key(),
            other,
        ) == row_with(l.devices, device_key(), other),
{
    let d = paired_row(row_with(l.devices, device_key(), uid), uid, name, platform, key, now);
    put_is_read(l.devices, d, uid);
    put_is_read(l.devices, d, other);
}

/// A device that shows itself has the name it gives and was seen at that moment; all else
/// of it stays, its key above all, and so do the other devices. One that is not known
/// does not become so.
pub proof fn a_device_that_shows_itself_keeps_its_key(
    l: LibraryView,
    uid: Seq<char>,
    name: Seq<char>,
    now: i64,
    other: Seq<char>,
)
    requires
        other != uid,
    ensures
        ({
            let m = device_touched(l, uid, name, now);
            match (row_with(l.devices, device_key(), uid), row_with(m.devices, device_key(), uid)) {
                (Some(was), Some(is)) => {
                    &&& is.name == name
                    &&& is.last_seen == Some(now)
                    &&& is.uid == was.uid && is.platform == was.platform && is.pubkey == was.pubkey
                    &&& is.paired_at == was.paired_at && is.last_sync_at == was.last_sync_at
                        && is.address == was.address
                },
                (None, None) => true,
                _ => false,
            }
        }),
        row_with(device_touched(l, uid, name, now).devices, device_key(), other) == row_with(
            l.devices,
            device_key(),
            other,
        ),
{
    found_by_key(l.devices, device_key(), uid);
    if let Some(d) = row_with(l.devices, device_key(), uid) {
        let e = DeviceRowView { name, last_seen: Some(now), ..d };
        put_is_read(l.devices, e, uid);
        put_is_read(l.devices, e, other);
    }
}

/// An address that is noted is that of the device it was noted for; nothing else of it
/// changes, nor any other device.
pub proof fn an_address_is_that_of_its_device(
    l: LibraryView,
    uid: Seq<char>,
    address: Seq<char>,
    other: Seq<char>,
)
    requires
        other != uid,
    ensures
        ({
            let m = address_stored(l, uid, address);
            match (row_with(l.devices, device_key(), uid), row_with(m.devices, device_key(), uid)) {
                (Some(was), Some(is)) => is == (DeviceRowView { address: Some(address), ..was }),
                (None, None) => true,
                _ => false,
            }
        }),
        row_with(address_stored(l, uid, address).devices, device_key(), other) == row_with(
            l.devices,
            device_key(),
            other,
        ),
{
    found_by_key(l.devices, device_key(), uid);
    if let Some(d) = row_with(l.devices, device_key(), uid) {
        let e = DeviceRowView { address: Some(address), ..d };
        put_is_read(l.devices, e, uid);
        put_is_read(l.devices, e, other);
    }
}

// ---------------------------------------------------------------------------
// Devices in sight
// ---------------------------------------------------------------------------

/// A device that is put among those in sight is found as it was put; the others are found
/// as before.
pub proof fn a_device_in_sight_is_found(rows: Seq<PeerView>, p: PeerView, uid: Seq<char>)
    ensures
        row_with(peer_put(rows, p), peer_uid(), p.uid) == Some(p),
        uid != p.uid ==> row_with(peer_put(rows, p), peer_uid(), uid) == row_with(
            rows,
            peer_uid(),
            uid,
        ),
{
    match first_where(rows, keyed(peer_uid(), p.uid)) {
        Some(i) => {
            row_with_update(rows, peer_uid(), i, p, p.uid);
            row_with_update(rows, peer_uid(), i, p, uid);
        },
        None => {
            row_with_push(rows, peer_uid(), p, p.uid);
            row_with_push(rows, peer_uid(), p, uid);
        },
    }
}

/// A device that was added by hand is reached at the one address that was given, under
/// its own uid, name and platform; whether it is online stays open until it answers.
pub proof fn a_device_added_by_hand_is_reached_there(
    old_peer: Option<PeerView>,
    uid: Seq<char>,
    name: Seq<char>,
    platform: Seq<char>,
    host: Seq<char>,
    port: u16,
    now: i64,
)
    ensures
        ({
            let p = added_by_hand(old_peer, uid, name, platform, host, port, now);
            &&& p.uid == uid
            &&& p.name == name
            &&& p.platform == platform
            &&& p.addrs.len() == 1 && p.addrs[0] == host
            &&& p.port == port
            &&& old_peer is None ==> !p.online && p.paired && p.last_seen == now
            &&& old_peer is Some ==> p.online == old_peer->0.online && p.last_seen
                == old_peer->0.last_seen && p.paired == old_peer->0.paired
        }),
{
}

/// Every paired device whose address was noted is in sight again after a start, at that
/// address; the last row of a device counts.
pub proof fn noted_addresses_are_in_sight_again(
    p: PeersView,
    rows: Seq<DeviceRowView>,
    now: i64,
    i: int,
)
    requires
        0 <= i < rows.len(),
        forall|j: int| i < j < rows.len() ==> (#[trigger] rows[j]).uid != rows[i].uid,
        rows[i].address is Some,
        stored_address(rows[i].address->0) is Some,
    ensures
        match (restored(p, rows, now).get(rows[i].uid), stored_address(rows[i].address->0)) {
            (Some(q), Some((host, port))) => {
                &&& q.name == rows[i].name
                &&& q.platform == rows[i].platform
                &&& q.addrs.len() == 1 && q.addrs[0] == host
                &&& q.port == port
            },
            _ => false,
        },
    decreases rows.len(),
{
    let t = rows.drop_last();
    let before = restored(p, t, now);
    let d = rows.last();
    if i < t.len() {
        assert(t[i] == rows[i]);
        assert forall|j: int| i < j < t.len() implies (#[trigger] t[j]).uid != t[i].uid by {
            assert(t[j] == rows[j]);
        }
        noted_addresses_are_in_sight_again(p, t, now, i);
        assert(rows[rows.len() - 1].uid != rows[i].uid);
    }
    if let Some(a) = d.address {
        if let Some((host, port)) = stored_address(a) {
            let q = added_by_hand(
                before.get(d.uid),
                d.uid,
                d.name,
                d.platform,
                host,
                port,
                now,
            );
            a_device_in_sight_is_found(before.by_uid, q, rows[i].uid);
        }
    }
}

/// Whether a device is online changes that, and when it was seen, if it came back; where
/// and what it is stays, and so do the others.
pub proof fn being_online_is_all_that_changes(
    p: PeersView,
    uid: Seq<char>,
    online: bool,
    now: i64,
    other: Seq<char>,
)
    ensures
        match (p.get(uid), online_set(p, uid, online, now).get(uid)) {
            (Some(was), Some(is)) => {
                &&& is.online == online
                &&& is.uid == was.uid && is.name == was.name && is.platform == was.platform
                &&& is.proto == was.proto && is.addrs == was.addrs && is.port == was.port
                    && is.paired == was.paired
                &&& !was.online && online ==> is.last_seen == now
                &&& !(!was.online && online) ==> is.last_seen == was.last_seen
            },
            (None, None) => true,
            _ => false,
        },
        other != uid ==> online_set(p, uid, online, now).get(other) == p.get(other),
        online_set(p, uid, online, now).names == p.names,
{
    let k = keyed(peer_uid(), uid);
    first_where_is_first(p.by_uid, k);
    if let Some(i) = first_where(p.by_uid, k) {
        if p.by_uid[i].online != online {
            let q = online_set(p, uid, online, now).by_uid[i];
            row_with_update(p.by_uid, peer_uid(), i, q, uid);
            row_with_update(p.by_uid, peer_uid(), i, q, other);
        }
    }
}

/// Once devices were tried, each is online exactly if it answered the last time it was
/// tried; one that is not in sight does not come into it.
pub proof fn a_device_is_online_if_it_answered(
    p: PeersView,
    results: Seq<(Seq<char>, bool)>,
    now: i64,
    i: int,
)
    requires
        0 <= i < results.len(),
        p.get(results[i].0) is Some,
        forall|j: int| i < j < results.len() ==> (#[trigger] results[j]).0 != results[i].0,
    ensures
        match tried(p, results, now).0.get(results[i].0) {
            Some(q) => q.online == results[i].1,
            None => false,
        },
    decreases results.len(),
{
    let t = results.drop_last();
    let (q, changed, back) = tried(p, t, now);
    let (uid, up) = results.last();
    let me = results[i].0;
    trying_keeps_who_is_in_sight(p, t, now, me);
    if i < t.len() {
        assert(t[i] == results[i]);
        assert forall|j: int| i < j < t.len() implies (#[trigger] t[j]).0 != t[i].0 by {
            assert(t[j] == results[j]);
        }
        a_device_is_online_if_it_answered(p, t, now, i);
        assert(results[results.len() - 1].0 != me);
        being_online_is_all_that_changes(q, uid, up, now, me);
    } else {
        being_online_is_all_that_changes(q, uid, up, now, me);
    }
}

proof fn trying_keeps_who_is_in_sight(
    p: PeersView,
    results: Seq<(Seq<char>, bool)>,
    now: i64,
    me: Seq<char>,
)
    ensures
        tried(p, results, now).0.get(me) is Some <==> p.get(me) is Some,
    decreases results.len(),
{
    if results.len() > 0 {
        let t = results.drop_last();
        trying_keeps_who_is_in_sight(p, t, now, me);
        let q = tried(p, t, now).0;
        let (uid, up) = results.last();
        if uid == me {
            being_online_is_all_that_changes(q, uid, up, now, me);
        } else {
            being_online_is_all_that_changes(q, uid, up, now, me);
        }
    }
}

/// Of one device that was tried: it is reported as back exactly if it was in sight, not
/// online, and answered; and something changed exactly if it was in sight and its answer
/// was another than before.
pub proof fn a_device_that_answers_again_is_reported(
    p: PeersView,
    results: Seq<(Seq<char>, bool)>,
    now: i64,
    uid: Seq<char>,
    up: bool,
)
    ensures
        ({
            let (q, changed, back) = tried(p, results, now);
            let (r, changed_now, back_now) = tried(p, results.push((uid, up)), now);
            &&& match q.get(uid) {
                Some(x) => {
                    &&& changed_now <==> changed || x.online != up
                    &&& back_now == if up && !x.online {
                        back.push(uid)
                    } else {
                        back
                    }
                },
                None => changed_now == changed && back_now == back && r == q,
            }
        }),
{
    assert(results.push((uid, up)).drop_last() =~= results);
    let q = tried(p, results, now).0;
    first_where_is_first(q.by_uid, keyed(peer_uid(), uid));
}

/// When announcements stop, a paired device is still in sight, as not online, and one
/// that is not paired is gone.
pub proof fn a_paired_device_stays_in_sight(
    p: PeersView,
    l: LibraryView,
    fullname: Seq<char>,
    uid: Seq<char>,
)
    requires
        p.named(fullname) == Some(uid),
    ensures
        is_known(l, uid) && p.get(uid) is Some ==> match announcements_stopped(
            p,
            l,
            fullname,
        ).get(uid) {
            Some(q) => !q.online && q.addrs == p.get(uid)->0.addrs && q.name == p.get(uid)->0.name,
            None => false,
        },
        !is_known(l, uid) ==> announcements_stopped(p, l, fullname).get(uid) is None,
{
    being_online_is_all_that_changes(p, uid, false, 0, uid);
    if !is_known(l, uid) {
        let t = p.by_uid.filter(crate::discovery::other_peer(uid));
        filter_is_part(p.by_uid, crate::discovery::other_peer(uid));
        found_by_key(t, peer_uid(), uid);
        if let Some(i) = first_where(t, keyed(peer_uid(), uid)) {
            assert(crate::discovery::other_peer(uid)(t[i]));
        }
    }
}

/// A device that announces itself is in sight under its uid and its name, or under its
/// uid where it gives no name, online and seen now, at the addresses that can be used; a
/// device does not see itself, nor one without a uid.
pub proof fn an_announcement_is_taken_as_it_is(
    a: Announcement,
    addrs: Seq<AddressView>,
    me: Seq<char>,
    now: i64,
)
    ensures
        announced_peer(a, addrs, me, now) is None <==> a.uid@.len() == 0 || a.uid@ == me,
        match announced_peer(a, addrs, me, now) {
            Some(p) => {
                &&& p.uid == a.uid@
                &&& p.name == if a.name@.len() > 0 {
                    a.name@
                } else {
                    a.uid@
                }
                &&& p.platform == a.platform@
                &&& p.proto == a.proto@
                &&& p.port == a.port
                &&& p.last_seen == now
                &&& p.online
                &&& p.addrs == usable_addrs(addrs)
            },
            None => true,
        },
{
}

/// Something is new about a device if it was not in sight, was not online, or has another
/// name or can be reached elsewhere; it is there for the first time if it was not in
/// sight, or not online.
pub proof fn what_is_new_about_a_device(old_peer: PeerView, p: PeerView)
    ensures
        seen_of(None, p).changed && seen_of(None, p).first_time,
        !old_peer.online ==> seen_of(Some(old_peer), p).changed && seen_of(
            Some(old_peer),
            p,
        ).first_time,
        old_peer.online ==> !seen_of(Some(old_peer), p).first_time,
        old_peer.online && old_peer.name == p.name && old_peer.addrs == p.addrs && old_peer.port
            == p.port ==> !seen_of(Some(old_peer), p).changed,
        old_peer.name != p.name ==> seen_of(Some(old_peer), p).changed,
        old_peer.addrs != p.addrs ==> seen_of(Some(old_peer), p).changed,
        old_peer.port != p.port ==> seen_of(Some(old_peer), p).changed,
{
}

// ---------------------------------------------------------------------------
// Addresses
// ---------------------------------------------------------------------------

proof fn texts_are_ordered(a: Seq<char>, b: Seq<char>, c: Seq<char>)
    ensures
        before(a, b) ==> !before(b, a),
        !before(b, a) && !before(c, b) ==> !before(c, a),
{
    crate::playlist_laws::not_after(a, b, c);
}

proof fn use_is_an_order()
    ensures
        weak_order(by_use()),
{
    let lt = by_use();
    assert forall|a: AddressView, b: AddressView| #[trigger] lt(a, b) implies !lt(b, a) by {
        texts_are_ordered(a.text, b.text, b.text);
    }
    assert forall|a: AddressView, b: AddressView, c: AddressView|
        !#[trigger] lt(b, a) && !#[trigger] lt(c, b) implies !lt(c, a) by {
        texts_are_ordered(a.text, b.text, c.text);
    }
}

/// The addresses at which a device can be reached are those that lead out of it, each of
/// them; those that only reach along one link come after the others.
pub proof fn the_best_addresses_come_first(addrs: Seq<AddressView>)
    ensures
        usable_addrs(addrs).len() == addrs.filter(is_outside()).len(),
        forall|i: int|
            0 <= i < addrs.len() && !(#[trigger] addrs[i]).loopback ==> usable_addrs(
                addrs,
            ).contains(addrs[i].text),
        ({
            let o = ordered(addrs.filter(is_outside()), by_use());
            &&& usable_addrs(addrs) == o.map_values(|a: AddressView| a.text)
            &&& forall|i: int|
                0 <= i < o.len() ==> !(#[trigger] o[i]).loopback && addrs.contains(o[i])
            &&& forall|i: int, j: int|
                0 <= i < j < o.len() && (#[trigger] o[i]).link_local ==> (
                #[trigger] o[j]).link_local
            &&& forall|i: int, j: int|
                0 <= i < j < o.len() && (#[trigger] o[i]).link_local == (
                #[trigger] o[j]).link_local ==> !before(o[j].text, o[i].text)
        }),
{
    broadcast use vstd::seq_lib::group_to_multiset_ensures;

    let s = addrs.filter(is_outside());
    let o = ordered(s, by_use());
    let r = usable_addrs(addrs);
    use_is_an_order();
    ordered_is_in_order(s, by_use());
    filter_is_part(addrs, is_outside());
    assert forall|i: int| 0 <= i < addrs.len() && !(#[trigger] addrs[i]).loopback implies r.contains(
        addrs[i].text,
    ) by {
        let k = filtered_is_there(addrs, is_outside(), i);
        assert(s.to_multiset().count(s[k]) > 0);
        assert(o.to_multiset().count(s[k]) > 0);
        assert(o.contains(s[k]));
        let n = choose|n: int| 0 <= n < o.len() && o[n] == s[k];
        assert(r[n] == addrs[i].text);
    }
    assert forall|i: int| 0 <= i < o.len() implies !(#[trigger] o[i]).loopback && addrs.contains(
        o[i],
    ) by {
        assert(o.to_multiset().count(o[i]) > 0);
        assert(s.to_multiset().count(o[i]) > 0);
        assert(s.contains(o[i]));
        let n = choose|n: int| 0 <= n < s.len() && s[n] == o[i];
        assert(is_outside()(s[n]));
        assert(addrs.contains(s[n]));
    }
    let lt = by_use();
    assert forall|i: int, j: int| 0 <= i < j < o.len() && (#[trigger] o[i]).link_local implies (
    #[trigger] o[j]).link_local by {
        assert(!lt(o[j], o[i]));
    }
    assert forall|i: int, j: int|
        0 <= i < j < o.len() && (#[trigger] o[i]).link_local == (#[trigger] o[j]).link_local implies
        !before(o[j].text, o[i].text) by {
        assert(!lt(o[j], o[i]));
    }
}

/// The short form of a uid is what stands before its first hyphen.
pub proof fn the_short_form_ends_at_the_hyphen(uid: Seq<char>)
    ensures
        short_of(uid).len() <= uid.len(),
        short_of(uid) == uid.take(short_of(uid).len() as int),
        forall|i: int| 0 <= i < short_of(uid).len() ==> #[trigger] short_of(uid)[i] != '-',
        short_of(uid).len() < uid.len() ==> uid[short_of(uid).len() as int] == '-',
{
    let p = |c: char| c == '-';
    first_where_is_first(uid, p);
    match first_where(uid, p) {
        Some(i) => {
            assert(short_of(uid) =~= uid.take(i));
            assert forall|k: int| 0 <= k < short_of(uid).len() implies #[trigger] short_of(uid)[k]
                != '-' by {
                assert(!p(uid[k]));
            }
        },
        None => {
            assert(uid.take(uid.len() as int) =~= uid);
            assert forall|k: int| 0 <= k < uid.len() implies #[trigger] uid[k] != '-' by {
                assert(!p(uid[k]));
            }
        },
    }
}

// ---------------------------------------------------------------------------
// The list of devices
// ---------------------------------------------------------------------------

proof fn online_and_name_is_an_order()
    ensures
        weak_order(by_online_and_name()),
        weak_order(by_name()),
{
    let lt = by_online_and_name();
    assert forall|a: PeerView, b: PeerView| #[trigger] lt(a, b) implies !lt(b, a) by {
        texts_are_ordered(lowercase(a.name), lowercase(b.name), lowercase(b.name));
    }
    assert forall|a: PeerView, b: PeerView, c: PeerView|
        !#[trigger] lt(b, a) && !#[trigger] lt(c, b) implies !lt(c, a) by {
        texts_are_ordered(lowercase(a.name), lowercase(b.name), lowercase(c.name));
    }
    let nt = by_name();
    assert forall|a: PeerView, b: PeerView| #[trigger] nt(a, b) implies !nt(b, a) by {
        texts_are_ordered(lowercase(a.name), lowercase(b.name), lowercase(b.name));
    }
    assert forall|a: PeerView, b: PeerView, c: PeerView|
        !#[trigger] nt(b, a) && !#[trigger] nt(c, b) implies !nt(c, a) by {
        texts_are_ordered(lowercase(a.name), lowercase(b.name), lowercase(c.name));
    }
}

/// The list of devices shows those that are online first, and each group by name; every
/// device in sight is in it, as paired exactly if it is, and so is every paired device
/// that is not in sight, as not online.
pub proof fn every_device_is_listed(p: PeersView, l: LibraryView)
    ensures
        ({
            let shown = all_peers(p, l);
            &&& forall|i: int, j: int|
                0 <= i < j < shown.len() && (#[trigger] shown[j]).online ==> (
                #[trigger] shown[i]).online
            &&& forall|i: int, j: int|
                0 <= i < j < shown.len() && (#[trigger] shown[j]).online == (
                #[trigger] shown[i]).online ==> !before(
                    lowercase(shown[j].name),
                    lowercase(shown[i].name),
                )
            &&& forall|i: int|
                0 <= i < p.by_uid.len() ==> shown.contains(
                    PeerView {
                        paired: is_known(l, (#[trigger] p.by_uid[i]).uid),
                        ..p.by_uid[i]
                    },
                )
            &&& shown.len() == p.by_uid.len() + l.devices.filter(not_seen(p.by_uid)).len()
        }),
        forall|i: int|
            0 <= i < l.devices.len() && p.get((#[trigger] l.devices[i]).uid) is None ==> exists|k: int|
                0 <= k < all_peers(p, l).len() && (#[trigger] all_peers(p, l)[k]).uid
                    == l.devices[i].uid && all_peers(p, l)[k].name == l.devices[i].name && all_peers(
                    p,
                    l,
                )[k].platform == l.devices[i].platform && all_peers(p, l)[k].paired && !all_peers(
                    p,
                    l,
                )[k].online,
{
    broadcast use vstd::seq_lib::group_to_multiset_ensures;

    let named = ordered(p.by_uid, by_name());
    let seen = named.map_values(with_pairing(l));
    let f = |d: DeviceRowView| peer_of_device(d);
    let rest = l.devices.filter(not_seen(p.by_uid));
    let others = rest.map_values(f);
    let all = seen + others;
    let shown = all_peers(p, l);
    let lt = by_online_and_name();
    online_and_name_is_an_order();
    ordered_is_in_order(p.by_uid, by_name());
    ordered_is_in_order(all, lt);
    assert forall|i: int, j: int| 0 <= i < j < shown.len() && (#[trigger] shown[j]).online implies (
    #[trigger] shown[i]).online by {
        assert(!lt(shown[j], shown[i]));
    }
    assert forall|i: int, j: int|
        0 <= i < j < shown.len() && (#[trigger] shown[j]).online == (#[trigger] shown[i]).online
        implies !before(lowercase(shown[j].name), lowercase(shown[i].name)) by {
        assert(!lt(shown[j], shown[i]));
    }
    assert forall|x: PeerView| all.contains(x) implies shown.contains(x) by {
        let k = choose|k: int| 0 <= k < all.len() && all[k] == x;
        assert(all.to_multiset().count(all[k]) > 0);
        assert(shown.to_multiset().count(x) > 0);
    }
    assert forall|i: int| 0 <= i < p.by_uid.len() implies shown.contains(
        PeerView { paired: is_known(l, (#[trigger] p.by_uid[i]).uid), ..p.by_uid[i] },
    ) by {
        assert(p.by_uid.to_multiset().count(p.by_uid[i]) > 0);
        assert(named.to_multiset().count(p.by_uid[i]) > 0);
        assert(named.contains(p.by_uid[i]));
        let k = choose|k: int| 0 <= k < named.len() && named[k] == p.by_uid[i];
        let x = PeerView { paired: is_known(l, p.by_uid[i].uid), ..p.by_uid[i] };
        assert(seen[k] == x);
        assert(all[k] == x);
        assert(all.contains(x));
    }
    assert forall|i: int|
        0 <= i < l.devices.len() && p.get((#[trigger] l.devices[i]).uid) is None implies exists|k: int|
        0 <= k < all_peers(p, l).len() && (#[trigger] all_peers(p, l)[k]).uid == l.devices[i].uid
            && all_peers(p, l)[k].name == l.devices[i].name && all_peers(p, l)[k].platform
            == l.devices[i].platform && all_peers(p, l)[k].paired && !all_peers(p, l)[k].online by {
        let k = filtered_is_there(l.devices, not_seen(p.by_uid), i);
        let x = peer_of_device(l.devices[i]);
        assert(others[k] == x);
        assert(all[seen.len() + k] == x);
        assert(all.contains(x));
        assert(shown.contains(x));
        let n = choose|n: int| 0 <= n < shown.len() && shown[n] == x;
        assert(shown[n].uid == l.devices[i].uid);
    }
}

/// An address reaches along one link only where it is one of those that every device
/// gives itself: 169.254 of the older kind, and from fe80 through febf of the newer.
pub proof fn self_given_addresses_stay_on_the_link(ip: Ip)
    ensures
        match ip {
            Ip::V4(b) => stays_on_link(ip) <==> b[0] == 169 && b[1] == 254,
            Ip::V6(s) => stays_on_link(ip) <==> 0xfe80 <= s[0] <= 0xfebf,
        },
{
    if let Ip::V6(s) = ip {
        let x = s[0];
        assert(x & 0xffc0 == 0xfe80 <==> 0xfe80 <= x && x <= 0xfebf) by (bit_vector);
    }
}

/// A device that has no name yet takes the one it is given and keeps it; one that has one
/// keeps that.
pub proof fn a_name_is_kept(l: LibraryView, default: Seq<char>, other: Seq<char>)
    requires
        is_name(default),
        trimmed(default) == default,
    ensures
        stored_name(l) is Some ==> named(l, default) == (l, stored_name(l)->0),
        stored_name(l) is None ==> named(l, default).1 == default,
        named(named(l, default).0, other).1 == named(l, default).1,
{
    crate::db::stored_settings_are_read_back(l, "device_name"@, default, Seq::empty());
}

/// A paired device that is not in sight is shown as it was known, with when it was seen
/// last, and as one that cannot be reached anywhere.
pub proof fn a_device_out_of_sight_is_shown_as_known(d: DeviceRowView)
    ensures
        ({
            let p = peer_of_device(d);
            &&& p.uid == d.uid
            &&& p.name == d.name
            &&& p.platform == d.platform
            &&& p.addrs.len() == 0
            &&& !p.online
            &&& p.paired
            &&& d.last_seen is Some ==> p.last_seen == d.last_seen->0
            &&& d.last_seen is None ==> p.last_seen == 0
        }),
{
}

} // verus!
