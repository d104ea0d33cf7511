use sway::db::now_ms;
use sway::devices::store_device;
use sway::discovery::{
    asks_anew, host_name, is_link_local, note_results, on_announced, on_removed, platform_name,
    short_uid, usable, Address, Announcement, Ip, Peer, Peers, Seen,
};
use sway::library::Library;

fn seen(peers: &mut Peers, uid: &str, name: &str) -> Seen {
    peers.upsert(
        format!("{uid}._sway._tcp.local."),
        Peer {
            uid: uid.into(),
            name: name.into(),
            platform: "windows".into(),
            proto: "1".into(),
            addrs: vec!["192.168.0.5".into()],
            port: 1234,
            last_seen: now_ms(),
            paired: false,
            online: true,
        },
    )
}

fn db_with_device(uid: &str, name: &str) -> Library {
    let mut lib = Library::new();
    store_device(&mut lib, uid, name, "android", &[], 2);
    lib
}

#[test]
fn pairing_shows_up_without_a_new_mdns_announcement() {
    let mut peers = Peers::default();
    seen(&mut peers, "peer-1", "Phone");
    let empty = Library::new();
    assert!(!peers.merged_list(&empty)[0].paired);

    // The same devices are seen, but now it is paired.
    let paired = db_with_device("peer-1", "Phone");
    let list = peers.merged_list(&paired);
    assert_eq!(list.len(), 1);
    assert!(list[0].paired);
    assert!(list[0].online);
}

#[test]
fn paired_devices_stay_listed_while_offline() {
    let peers = Peers::default();
    let lib = db_with_device("saved", "Living Room PC");
    let list = peers.merged_list(&lib);
    assert_eq!(list.len(), 1);
    assert_eq!(list[0].name, "Living Room PC");
    assert!(list[0].paired);
    assert!(!list[0].online);
    assert!(list[0].addrs.is_empty());
}

#[test]
fn a_quiet_peer_stays_online() {
    let mut peers = Peers::default();
    seen(&mut peers, "peer-1", "Phone");
    peers.by_uid[0].last_seen = now_ms() - 60 * 60 * 1000;
    let list = peers.merged_list(&Library::new());
    assert_eq!(list.len(), 1);
    assert!(list[0].online);
}

#[test]
fn a_failed_connection_marks_the_peer_offline() {
    let mut peers = Peers::default();
    seen(&mut peers, "peer-1", "Phone");
    let lib = Library::new();
    assert!(peers.merged_list(&lib)[0].online);

    assert!(peers.mark_unreachable("peer-1"));
    assert!(!peers.merged_list(&lib)[0].online);
    // The second time is no news.
    assert!(!peers.mark_unreachable("peer-1"));

    // And it comes back once it answers again.
    assert!(peers.set_online("peer-1", true));
    assert!(peers.merged_list(&lib)[0].online);
}

#[test]
fn a_peer_that_appears_for_the_first_time_is_a_catch_up_trigger() {
    let mut peers = Peers::default();
    assert!(seen(&mut peers, "peer-1", "Phone").first_time);

    let again = seen(&mut peers, "peer-1", "Phone");
    assert!(!again.first_time);
    assert!(!again.changed, "an identical re-announcement doesn't re-render");

    // A new name shows, but it is the same device.
    let renamed = seen(&mut peers, "peer-1", "Guille's Phone");
    assert!(renamed.changed);
    assert!(!renamed.first_time);

    // It left and came back.
    assert!(peers.remove_by_fullname("peer-1._sway._tcp.local."));
    assert!(seen(&mut peers, "peer-1", "Phone").first_time);
}

#[test]
fn removed_peers_disappear() {
    let mut peers = Peers::default();
    seen(&mut peers, "peer-1", "Phone");
    assert!(peers.remove_by_fullname("peer-1._sway._tcp.local."));
    assert!(peers.list().is_empty());
}

#[test]
fn a_peer_that_stops_announcing_goes_grey_but_stays_probed() {
    let mut peers = Peers::default();
    seen(&mut peers, "peer-1", "Phone");

    assert!(peers.mark_gone_by_fullname("peer-1._sway._tcp.local."));
    let list = peers.list();
    assert_eq!(list.len(), 1, "still in the list");
    assert!(!list[0].online, "but grey");
    assert_eq!(
        peers.probe_targets().len(),
        1,
        "and above all: it's still being probed"
    );

    // It is found: it is there again without any announcement.
    assert!(peers.set_online("peer-1", true));

    // A second removal in a row is no news.
    assert!(peers.mark_gone_by_fullname("peer-1._sway._tcp.local."));
    assert!(!peers.mark_gone_by_fullname("peer-1._sway._tcp.local."));
}

#[test]
fn a_grey_peer_that_comes_back_is_a_catch_up_trigger() {
    let mut peers = Peers::default();
    seen(&mut peers, "peer-1", "Phone");
    peers.mark_gone_by_fullname("peer-1._sway._tcp.local.");

    let back = seen(&mut peers, "peer-1", "Phone");
    assert!(back.first_time, "was grey: could have been for hours");
    assert!(back.changed, "and the UI has to paint it green");

    let again = seen(&mut peers, "peer-1", "Phone");
    assert!(!again.first_time);
    assert!(!again.changed);
}

#[test]
fn online_peers_sort_first() {
    let mut peers = Peers::default();
    seen(&mut peers, "zeta", "Zeta");
    let lib = db_with_device("alfa", "Alfa");
    let names: Vec<String> = peers.merged_list(&lib).into_iter().map(|p| p.name).collect();
    assert_eq!(names, vec!["Zeta", "Alfa"]);
}

#[test]
fn devices_are_forgotten_and_added_by_hand() {
    let mut peers = Peers::default();
    peers.add_manual("srv", "Home", "server", "home.example", 7420);
    assert_eq!(
        peers.probe_targets(),
        vec![("srv".to_string(), "home.example".to_string(), 7420)]
    );
    assert!(!peers.list()[0].online);
    assert!(peers.forget("srv"));
    assert!(!peers.forget("srv"));
    assert_eq!(peers.uid_of("nothing"), None);
}

#[test]
fn link_local_addresses_come_last() {
    assert!(is_link_local(&Ip::V4([169, 254, 1, 2])));
    assert!(!is_link_local(&Ip::V4([192, 168, 1, 2])));
    let found = usable(&[
        at("fd00::1", Ip::V6([0xfd00, 0, 0, 0, 0, 0, 0, 1])),
        at("169.254.1.2", Ip::V4([169, 254, 1, 2])),
        at("192.168.1.2", Ip::V4([192, 168, 1, 2])),
    ]);
    assert_eq!(found, vec!["192.168.1.2", "fd00::1", "169.254.1.2"]);
    let mut home = at("127.0.0.1", Ip::V4([127, 0, 0, 1]));
    home.loopback = true;
    assert!(usable(&[home]).is_empty());
}

fn at(text: &str, ip: Ip) -> Address {
    Address { ip, loopback: false, text: text.to_string() }
}

fn announced(uid: &str) -> Announcement {
    Announcement {
        uid: uid.to_string(),
        name: "Phone".to_string(),
        platform: "android".to_string(),
        proto: "1".to_string(),
        port: 99,
    }
}

#[test]
fn announcements_come_and_go() {
    let mut peers = Peers::default();
    let addrs = [at("10.0.0.7", Ip::V4([10, 0, 0, 7]))];
    let name = "p._sway._tcp.local.";
    let s = on_announced(&mut peers, name, &announced("p"), &addrs, "me", 5);
    assert!(s.map(|s| s.first_time).unwrap_or(false));
    assert_eq!(peers.list()[0].addrs, vec!["10.0.0.7"]);
    assert!(on_announced(&mut peers, "x", &announced("me"), &addrs, "me", 5).is_none());
    assert!(on_announced(&mut peers, "x", &announced(""), &addrs, "me", 5).is_none());
    // A paired device goes grey, a stranger goes away.
    let lib = db_with_device("p", "Phone");
    assert!(on_removed(&mut peers, &lib, name));
    assert_eq!(peers.list().len(), 1);
    assert!(on_removed(&mut peers, &Library::new(), name));
    assert!(peers.list().is_empty());
}

#[test]
fn results_of_trying_are_noted() {
    let mut peers = Peers::default();
    seen(&mut peers, "a", "A");
    seen(&mut peers, "b", "B");
    peers.mark_unreachable("b");
    let results = vec![("a".to_string(), false), ("b".to_string(), true)];
    let (changed, back) = note_results(&mut peers, &results, 1000);
    assert!(changed);
    assert_eq!(back, vec!["b".to_string()]);
}

#[test]
fn names_on_the_network() {
    assert_eq!(short_uid("0123abcd-ffff-4000-8000-000000000000"), "0123abcd");
    assert_eq!(host_name("0123abcd-ffff"), "sway-0123abcd.local.");
    assert_eq!(platform_name("windows"), "windows");
    assert_eq!(platform_name("freebsd"), "linux");
    assert!(asks_anew(6));
    assert!(!asks_anew(5));
}
