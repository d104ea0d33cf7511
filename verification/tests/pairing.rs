use sway::db::{get_setting, set_setting};
use sway::devices::{private_key, AddressError, KeyError, MAX_SKEW_MS};
use sway::discovery::Peers;
use sway::library::Library;
use sway::pairing::{
    forget_device, hello, join_address, keep_address, known_state, library_counts, open_session,
    peer_addr, peer_name, platform_of, report_hello, restore_manual_peers, session_answered,
    split_addr, split_host_port, store_device, sync_error, unpair, Act, Ending, Enrolling, Failure,
    Known, LibraryNotice, Pairing, Partner, Refusal, Talk,
};
use sway::wire::Msg;

fn host_port(input: &str) -> (String, u16) {
    split_host_port(input, 7420)
}

#[test]
fn pasting_the_server_url_works() {
    assert_eq!(
        split_host_port("https://sway.example.com/", 7420),
        ("sway.example.com".into(), 7420)
    );
    assert_eq!(
        split_host_port("http://sway.example.com:9000/something?x=1", 7420),
        ("sway.example.com".into(), 9000)
    );
    assert_eq!(
        split_host_port("  sway.example.com  ", 7420),
        ("sway.example.com".into(), 7420)
    );
}

#[test]
fn the_path_is_no_part_of_the_host() {
    assert_eq!(host_port("https://home.com/a@b"), ("home.com".into(), 7420));
    assert_eq!(host_port("https://home.com?u=a@b"), ("home.com".into(), 7420));
    assert_eq!(host_port("home.com/?to=https://b"), ("home.com".into(), 7420));
    assert_eq!(host_port("https://me:pw@home.com:9/x@y#z"), ("home.com".into(), 9));
}

#[test]
fn the_written_port_wins_over_the_field() {
    assert_eq!(
        split_host_port("192.168.0.10:9999", 7420),
        ("192.168.0.10".into(), 9999)
    );
}

#[test]
fn an_ipv6_is_not_confused_with_a_port() {
    assert_eq!(split_host_port("fd00::1", 7420), ("fd00::1".into(), 7420));
    assert_eq!(
        split_host_port("[fd00::1]:9000", 7420),
        ("fd00::1".into(), 9000)
    );
    assert_eq!(split_host_port("[fd00::1]", 7420), ("fd00::1".into(), 7420));
}

#[test]
fn a_non_numeric_port_does_not_take_the_host_down_with_it() {
    assert_eq!(
        split_host_port("home.example:port", 7420),
        ("home.example".into(), 7420)
    );
}

fn addr(address: &str) -> Option<(String, u16)> {
    split_addr(address)
}

fn at(host: &str, port: u16) -> Option<(String, u16)> {
    Some((host.to_string(), port))
}

#[test]
fn the_stored_address_splits_into_host_and_port() {
    assert_eq!(addr("home.example:7420"), at("home.example", 7420));
    assert_eq!(addr("192.168.0.10:7420"), at("192.168.0.10", 7420));
    // The host goes in brackets because it has colons itself.
    assert_eq!(addr("[fd00::1]:7420"), at("fd00::1", 7420));
}

#[test]
fn an_address_without_a_port_does_not_invent_one() {
    assert_eq!(split_addr("home.example"), None);
    assert_eq!(split_addr("home.example:"), None);
    assert_eq!(split_addr("home.example:port"), None);
    assert_eq!(split_addr(""), None);
}

#[test]
fn credentials_and_fragments_are_no_part_of_the_host() {
    assert_eq!(host_port("sway://user:pw@home.example:81#top"), ("home.example".into(), 81));
    assert_eq!(host_port("home.example?x"), ("home.example".into(), 7420));
    assert_eq!(host_port("[fd00::1]x:9"), ("fd00::1".into(), 7420));
    assert_eq!(host_port("[fd00::1"), ("[fd00::1".into(), 7420));
    assert_eq!(host_port("home:70000"), ("home".into(), 7420));
    assert_eq!(host_port(""), ("".into(), 7420));
}

#[test]
fn an_address_is_read_back_as_it_was_stored() {
    let stored = join_address("fd00::1", 7420);
    assert_eq!(stored, "fd00::1:7420");
    assert_eq!(addr(&stored), at("fd00::1", 7420));
}

#[test]
fn a_device_is_known_by_its_key() {
    let mut lib = Library::new();
    assert_eq!(known_state(&lib, "a", &[1, 2]), Known::Unknown);
    store_device(&mut lib, "a", "A", "linux", &[1, 2], 10);
    assert_eq!(known_state(&lib, "a", &[1, 2]), Known::Trusted);
    assert_eq!(known_state(&lib, "a", &[1, 3]), Known::KeyMismatch);
    assert_eq!(known_state(&lib, "b", &[1, 2]), Known::Unknown);
    forget_device(&mut lib, "a");
    assert_eq!(known_state(&lib, "a", &[1, 2]), Known::Unknown);
    assert_eq!(lib.devices.len(), 0);
}

fn request(uid: &str) -> Msg {
    Msg::PairRequest {
        uid: uid.to_string(),
        name: "Phone".to_string(),
        platform: "android".to_string(),
        token: None,
    }
}

fn hello_from(uid: &str) -> Msg {
    Msg::Hello {
        uid: uid.to_string(),
        name: "Phone".to_string(),
        platform: "android".to_string(),
        tracks: 7,
        playlists: 2,
        clock_ms: 500,
    }
}

fn is_store(a: &Act) -> bool {
    matches!(a, Act::Store(_))
}

#[test]
fn a_called_device_pairs_once_both_accepted() {
    let lib = Library::new();
    let (talk, acts) = Talk::called().on_message(&lib, &[9], request("p"));
    assert!(matches!(&acts[..], [Act::Ask { incoming: true, .. }]));
    let (talk, acts) = talk.on_decision(true);
    assert!(matches!(&acts[..], [Act::Respond(true)]));
    let (talk, acts) = talk.on_message(&lib, &[9], Msg::PairAck { accepted: true });
    match &acts[..] {
        [Act::Store(p), Act::Show { ending: Ending::Paired, .. }, Act::PeersChanged, Act::SayHello] => {
            assert_eq!(p.uid, "p");
            assert_eq!(p.platform, "android");
        },
        other => panic!("unexpected {other:?}"),
    }
    let (talk, acts) = talk.on_message(&lib, &[9], hello_from("p"));
    assert!(matches!(&acts[..], [Act::Report { tracks: 7, .. }]));
    assert!(matches!(talk, Talk::Over));
}

#[test]
fn one_side_is_enough_to_refuse() {
    let lib = Library::new();
    let (talk, _) = Talk::called().on_message(&lib, &[9], request("p"));
    let (talk, acts) = talk.on_decision(false);
    assert!(!acts.iter().any(is_store));
    match &acts[..] {
        [Act::Respond(false), Act::Show { ending, .. }] => {
            assert_eq!(ending.error().as_deref(), Some("rejected on this device"));
        },
        other => panic!("unexpected {other:?}"),
    }
    assert!(matches!(talk, Talk::Over));

    let (talk, _) = Talk::called().on_message(&lib, &[9], request("p"));
    let (talk, _) = talk.on_decision(true);
    let (_, acts) = talk.on_message(&lib, &[9], Msg::PairAck { accepted: false });
    match &acts[..] {
        [Act::Show { ending, .. }] => {
            assert_eq!(ending.error().as_deref(), Some("rejected on the other device"));
        },
        other => panic!("unexpected {other:?}"),
    }
}

#[test]
fn another_key_is_turned_away() {
    let mut lib = Library::new();
    store_device(&mut lib, "p", "Phone", "android", &[1], 1);
    for first in [request("p"), hello_from("p")] {
        let (talk, acts) = Talk::called().on_message(&lib, &[2], first);
        match &acts[..] {
            [Act::Refuse(r), Act::WarnKey { .. }, Act::Fail(f)] => {
                assert_eq!(*r, Refusal::KeyDiffers);
                assert_eq!(
                    r.reason(),
                    "different key from the one you already had for this device"
                );
                assert_eq!(f.message(), "different key for p");
            },
            other => panic!("unexpected {other:?}"),
        }
        assert!(matches!(talk, Talk::Over));
    }
    let (_, acts) = Talk::called().on_message(&lib, &[2], Msg::Unpair { uid: "p".to_string() });
    match &acts[..] {
        [Act::Fail(f)] => {
            assert_eq!(f.message(), "unpair from a device that is not paired (p)");
        },
        other => panic!("unexpected {other:?}"),
    }
    assert_eq!(
        Ending::KeyChanged.error().as_deref(),
        Some("this device's key changed - unlink it and pair again if that was you")
    );
}

#[test]
fn a_stranger_is_told_nothing() {
    let lib = Library::new();
    let (_, acts) = Talk::called().on_message(&lib, &[2], hello_from("p"));
    assert!(matches!(&acts[..], [Act::SayNotPaired]));
    let (_, acts) = Talk::called().on_message(&lib, &[2], Msg::ManifestReq);
    match &acts[..] {
        [Act::Fail(f)] => assert_eq!(f.message(), "unexpected first message: ManifestReq"),
        other => panic!("unexpected {other:?}"),
    }
    let wrong = Msg::BlobStart { size: 3 };
    let f = Failure::ExpectedHello(wrong);
    assert_eq!(f.message(), "expected Hello, got BlobStart { size: 3 }");
    let f = Failure::ExpectedPairAck(Msg::PairResponse { accepted: true });
    assert_eq!(f.message(), "expected PairAck, got PairResponse { accepted: true }");
    let f = Failure::ExpectedPairResponse(Msg::Bye);
    assert_eq!(f.message(), "expected PairResponse, got Bye");
}

#[test]
fn a_trusted_caller_is_served() {
    let mut lib = Library::new();
    store_device(&mut lib, "p", "Phone", "android", &[1], 1);
    let (_, acts) = Talk::called().on_message(&lib, &[1], hello_from("p"));
    assert!(matches!(&acts[..], [Act::SayHello, Act::Report { .. }, Act::Serve(_)]));
    let (_, acts) = Talk::called().on_message(&lib, &[1], Msg::Unpair { uid: "p".to_string() });
    assert!(matches!(&acts[..], [Act::Forget(_), Act::PeersChanged]));
}

fn partner() -> Partner {
    Partner {
        uid: "p".to_string(),
        name: "Phone".to_string(),
        platform: "android".to_string(),
    }
}

#[test]
fn a_caller_pairs_once_both_accepted() {
    let lib = Library::new();
    let (talk, acts) = Talk::call(&lib, partner(), &[4]);
    assert!(matches!(&acts[..], [Act::RequestPairing, Act::Ask { incoming: false, .. }]));
    let (talk, acts) = talk.on_decision(true);
    assert!(acts.is_empty());
    let (_, acts) = talk.on_message(&lib, &[4], Msg::PairResponse { accepted: true });
    assert!(matches!(
        &acts[..],
        [Act::Acknowledge(true), Act::Store(_), Act::Show { .. }, Act::PeersChanged, Act::SayHello]
    ));

    let (talk, _) = Talk::call(&lib, partner(), &[4]);
    let (_, acts) = talk.on_decision(false);
    assert!(matches!(&acts[..], [Act::Refuse(Refusal::RejectedThere), Act::Show { .. }]));

    let (talk, _) = Talk::call(&lib, partner(), &[4]);
    let (talk, _) = talk.on_decision(true);
    let (_, acts) = talk.on_message(&lib, &[4], Msg::PairResponse { accepted: false });
    assert!(!acts.iter().any(is_store));

    let (talk, _) = Talk::call(&lib, partner(), &[4]);
    let (talk, _) = talk.on_decision(true);
    let (_, acts) =
        talk.on_message(&lib, &[4], Msg::Reject { reason: "no thanks".to_string() });
    match &acts[..] {
        [Act::Show { ending, .. }] => assert_eq!(ending.error().as_deref(), Some("no thanks")),
        other => panic!("unexpected {other:?}"),
    }
}

#[test]
fn a_device_that_forgot_us_is_forgotten() {
    let mut lib = Library::new();
    store_device(&mut lib, "p", "Phone", "android", &[1], 1);
    let (talk, acts) = Talk::call(&lib, partner(), &[1]);
    assert!(matches!(&acts[..], [Act::SayHello]));
    let (_, acts) = talk.on_message(&lib, &[1], Msg::NotPaired);
    match &acts[..] {
        [Act::Forget(uid), Act::PeersChanged, Act::Fail(f)] => {
            assert_eq!(uid, "p");
            assert_eq!(f.message(), "Phone no longer has you paired");
        },
        other => panic!("unexpected {other:?}"),
    }
    let (_, acts) = Talk::call(&lib, partner(), &[8]);
    match &acts[..] {
        [Act::WarnKey { .. }, Act::Fail(f)] => {
            assert_eq!(
                f.message(),
                "the key of Phone does not match the one you had stored"
            );
        },
        other => panic!("unexpected {other:?}"),
    }
}

#[test]
fn a_server_is_paired_by_its_token() {
    let mut lib = Library::new();
    let (state, acts) = Enrolling::begin();
    assert!(matches!(&acts[..], [Act::RequestPairing]));
    let (state, acts) = state.on_message(&lib, &[5], Msg::PairResponse { accepted: true });
    assert!(matches!(&acts[..], [Act::Acknowledge(true)]));
    let (_, acts) = state.on_message(&lib, &[5], hello_from("srv"));
    match &acts[..] {
        [Act::SayHello, Act::Store(p), Act::KeepAddress(q), Act::PeersChanged, Act::Ready(name)] => {
            assert_eq!(p.uid, "srv");
            assert_eq!(q.uid, "srv");
            assert_eq!(name, "Phone");
        },
        other => panic!("unexpected {other:?}"),
    }

    let (state, _) = Enrolling::begin();
    let (_, acts) = state.on_message(&lib, &[5], Msg::PairResponse { accepted: false });
    match &acts[..] {
        [Act::Fail(f)] => assert_eq!(f.message(), "the server rejected the token"),
        other => panic!("unexpected {other:?}"),
    }

    store_device(&mut lib, "srv", "Home", "server", &[6], 1);
    let (_, acts) = state_after_response(&lib).on_message(&lib, &[5], hello_from("srv"));
    assert!(matches!(&acts[..], [Act::WarnKey { .. }, Act::Fail(Failure::StoredKeyDiffers(_))]));
}

fn state_after_response(lib: &Library) -> Enrolling {
    Enrolling::begin().0.on_message(lib, &[5], Msg::PairResponse { accepted: true }).0
}

#[test]
fn a_session_needs_a_paired_device() {
    let mut lib = Library::new();
    let fail = |a: Act| match a {
        Act::Fail(f) => f.message(),
        other => panic!("unexpected {other:?}"),
    };
    assert_eq!(fail(open_session(&lib, "p", &[1])), "not paired yet");
    store_device(&mut lib, "p", "Phone", "android", &[1], 1);
    assert!(matches!(open_session(&lib, "p", &[1]), Act::SayHello));
    assert_eq!(fail(open_session(&lib, "p", &[2])), "the device key does not match");

    let uid = "p".to_string();
    assert!(matches!(&session_answered(&uid, hello_from("p"))[..], [Act::Ready(_)]));
    match &session_answered(&uid, Msg::NotPaired)[..] {
        [Act::Forget(_), Act::PeersChanged, Act::Fail(f)] => {
            assert_eq!(f.message(), "that device no longer has you paired");
        },
        other => panic!("unexpected {other:?}"),
    }
    assert!(matches!(
        &session_answered(&uid, Msg::Bye)[..],
        [Act::Fail(Failure::ExpectedHello(_))]
    ));
}

#[test]
fn one_run_at_a_time_with_each_device() {
    let mut p = Pairing::default();
    assert!(p.acquire("a"));
    assert!(!p.acquire("a"));
    assert!(p.acquire("b"));
    let all = vec!["a".to_string(), "c".to_string()];
    assert!(p.is_busy(&all));
    assert!(p.keeps_waiting(&all, 10, 20));
    assert!(!p.keeps_waiting(&all, 20, 20));
    p.release("a");
    assert!(!p.is_busy(&all));
    assert!(p.acquire("a"));

    p.ask("x");
    assert!(p.resolve("x"));
    assert!(!p.resolve("x"), "an answer counts once");
}

#[test]
fn the_library_is_told_of_only_so_often() {
    let mut n = LibraryNotice { last: 0 };
    assert!(n.is_due(false, 5000));
    assert!(!n.is_due(false, 6499));
    assert!(n.is_due(false, 6500));
    assert!(n.is_due(true, 6501));
    assert_eq!(n.last, 6501);
}

#[test]
fn a_lost_connection_is_shown_to_whoever_asked() {
    assert_eq!(sync_error("boom", false, true).as_deref(), Some("boom"));
    assert_eq!(sync_error("boom", true, true), None);
    assert_eq!(sync_error("boom", true, false).as_deref(), Some("connection lost"));
}

#[test]
fn servers_are_shown_again_after_a_restart() {
    let mut lib = Library::new();
    let mut peers = Peers::default();
    store_device(&mut lib, "srv", "Home", "server", &[1], 1);
    store_device(&mut lib, "pc", "PC", "linux", &[1], 1);
    keep_address(&mut lib, &mut peers, "srv", "Home", "server", "home.example", 7420, 50);
    assert_eq!(lib.devices[0].address.as_deref(), Some("home.example:7420"));

    let mut again = Peers::default();
    restore_manual_peers(&lib, &mut again, 60);
    assert_eq!(peer_addr(&again, "srv"), Ok(("home.example".to_string(), 7420)));
    assert_eq!(peer_addr(&again, "pc"), Err(AddressError::NotVisible));
    assert_eq!(peer_name(&again, "srv"), "Home");
    assert_eq!(peer_name(&again, "pc"), "pc");
    assert_eq!(platform_of(&again, "srv"), "server");
    assert_eq!(platform_of(&again, "pc"), "");

    // A server leaves the list too; where it was called is still told.
    let told = unpair(&mut lib, &mut again, "srv");
    assert_eq!(told, Some(("home.example".to_string(), 7420)));
    assert_eq!(known_state(&lib, "srv", &[1]), Known::Unknown);
    assert_eq!(peer_addr(&again, "srv"), Err(AddressError::NotVisible));
    assert_eq!(
        AddressError::NotVisible.message(),
        "that device is no longer visible on the network"
    );
    assert_eq!(AddressError::NoAddress.message(), "that device did not publish any address");
}

#[test]
fn devices_tell_of_themselves() {
    let mut lib = Library::new();
    assert_eq!(library_counts(&lib), (0, 0));
    match hello(&mut lib, "Studio", "0000-1111", "linux", 99) {
        Msg::Hello { uid, name, platform, tracks, playlists, clock_ms } => {
            assert_eq!(uid, "0000-1111");
            assert_eq!(name, "Studio");
            assert_eq!(platform, "linux");
            assert_eq!((tracks, playlists, clock_ms), (0, 0, 99));
        },
        other => panic!("unexpected {other:?}"),
    }
    store_device(&mut lib, "p", "Phone", "android", &[1], 1);
    let h = report_hello(&mut lib, "p", "New name", 3, 4, 1000, 400000);
    assert_eq!(h.clock_skew_ms, -399000);
    assert!(h.clock_is_off());
    assert_eq!(lib.devices[0].name, "New name");
    assert_eq!(lib.devices[0].last_seen, Some(400000));
    let h = report_hello(&mut lib, "p", "New name", 3, 4, 1000, 1000 + MAX_SKEW_MS);
    assert!(!h.clock_is_off());
}

#[test]
fn the_key_of_this_device_is_made_once() {
    let mut lib = Library::new();
    let key = private_key(&mut lib).unwrap();
    assert_eq!(key.len(), 32);
    assert_eq!(private_key(&mut lib).unwrap(), key);
    let text = get_setting(&lib, "noise_private_key").unwrap();
    assert_eq!(text.len(), 44);
    let zeros = format!("{}=", "A".repeat(43));
    set_setting(&mut lib, "noise_private_key", &zeros);
    assert_eq!(private_key(&mut lib).unwrap(), vec![0; 32]);
    for spoilt in ["", "AAAA", "not base64!"] {
        set_setting(&mut lib, "noise_private_key", spoilt);
        let e = private_key(&mut lib).unwrap_err();
        assert!(matches!(e, KeyError::Spoilt));
        assert_eq!(e.message(), "the stored key is spoilt");
    }
}
