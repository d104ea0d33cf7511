use sway::autosync::{
    enabled, note_change, peer_came_online, restore_pending, round, set_enabled, AutoSync, CatchUp,
    Round, Rounds, QUIET_PERIOD_MS,
};
use sway::db::{get_setting, now_ms, set_setting};
use sway::devices::store_device;
use sway::discovery::Peer;
use sway::library::Library;
use sway::power::{Conditions, Hold};
use sway::watch::Watchers;

#[test]
fn a_change_waits_for_the_quiet_period() {
    let mut a = AutoSync::default();
    assert!(!a.is_settled(), "no changes, nothing to do");

    assert!(a.note_change(), "the first one has to be recorded");
    assert!(!a.note_change(), "the second one is already recorded");
    assert!(!a.is_settled(), "just changed: has to wait");

    // The quiet period has passed.
    a.pending_since = now_ms() - QUIET_PERIOD_MS - 1;
    assert!(a.is_settled());
}

#[test]
fn a_new_change_restarts_the_wait() {
    let mut a = AutoSync::default();
    a.pending_since = now_ms() - QUIET_PERIOD_MS - 1;
    assert!(a.is_settled());
    a.note_change();
    assert!(!a.is_settled());
}

#[test]
fn checking_does_not_consume_the_pending_change() {
    let mut a = AutoSync::default();
    a.pending_since = now_ms() - QUIET_PERIOD_MS - 1;
    assert!(a.is_settled());
    assert!(a.is_settled(), "checking it twice doesn't clear it");
    assert_ne!(a.pending(), 0);
    assert!(a.clear(), "there was something to clear");
    assert!(!a.clear(), "and clearing again doesn't write again");
    assert!(!a.is_settled());
}

#[test]
fn settling_is_exact_to_the_millisecond() {
    let mut a = AutoSync::default();
    a.note_change_at(1000);
    assert!(!a.is_settled_at(1499));
    assert!(a.is_settled_at(1500));
    // A clock that went back never settles, and one far ahead does.
    assert!(!a.is_settled_at(-5));
    a.note_change_at(i64::MIN);
    assert!(a.is_settled_at(i64::MAX));
}

#[test]
fn a_pending_change_survives_a_restart() {
    let mut lib = Library::new();
    let mut a = AutoSync::default();
    note_change(&mut a, &mut lib, 10);
    assert_eq!(get_setting(&lib, "autosync_pending").as_deref(), Some("1"));

    let mut b = AutoSync::default();
    restore_pending(&mut b, &lib, 77);
    assert_eq!(b.pending(), 77);

    set_setting(&mut lib, "autosync_pending", "0");
    let mut c = AutoSync::default();
    restore_pending(&mut c, &lib, 77);
    assert_eq!(c.pending(), 0);
}

#[test]
fn it_is_on_until_switched_off() {
    let mut lib = Library::new();
    assert!(enabled(&lib));
    set_enabled(&mut lib, false);
    assert!(!enabled(&lib));
    set_enabled(&mut lib, true);
    assert!(enabled(&lib));
}

fn unknown() -> Conditions {
    Conditions::default()
}

#[test]
fn a_device_that_shows_up_is_caught_up_with() {
    let mut lib = Library::new();
    store_device(&mut lib, "pc", "PC", "windows", &[1], 5);
    store_device(&mut lib, "srv", "Home", "server", &[2], 5);
    let mut w = Watchers::default();
    assert_eq!(peer_came_online(&lib, &w, "pc", &unknown()), CatchUp::Now);
    assert_eq!(peer_came_online(&lib, &w, "srv", &unknown()), CatchUp::AfterLan);
    assert_eq!(peer_came_online(&lib, &w, "nobody", &unknown()), CatchUp::Nothing);

    let low = Conditions { metered: None, battery_pct: Some(5), charging: Some(false) };
    assert_eq!(peer_came_online(&lib, &w, "pc", &low), CatchUp::Held(Hold::Battery));

    w.threads.insert("srv".to_string());
    assert_eq!(peer_came_online(&lib, &w, "srv", &low), CatchUp::LeaveToWatcher);

    set_enabled(&mut lib, false);
    assert_eq!(peer_came_online(&lib, &w, "pc", &unknown()), CatchUp::Nothing);
}

fn peer(uid: &str, platform: &str, paired: bool, online: bool) -> Peer {
    Peer {
        uid: uid.to_string(),
        name: uid.to_string(),
        platform: platform.to_string(),
        proto: "1".to_string(),
        addrs: vec!["10.0.0.2".to_string()],
        port: 1,
        last_seen: 0,
        paired,
        online,
    }
}

#[test]
fn a_round_sends_to_the_local_network_and_then_to_the_servers() {
    let mut lib = Library::new();
    let mut rounds = Rounds { since_periodic: 0, next_try: 0 };
    let mut a = AutoSync::default();
    let w = Watchers::default();
    let peers = vec![
        peer("srv", "server", true, true),
        peer("pc", "windows", true, true),
        peer("off", "linux", true, false),
        peer("stranger", "linux", false, true),
    ];

    // Nothing is due.
    let r = round(&mut rounds, &mut a, &mut lib, &peers, &w, &unknown(), 1000, 1000);
    assert!(matches!(r, Round::Idle));

    note_change(&mut a, &mut lib, 100);
    let r = round(&mut rounds, &mut a, &mut lib, &peers, &w, &unknown(), 1000, 1000);
    match r {
        Round::Sync { lan, servers, sent_changes } => {
            assert_eq!(lan, vec!["pc".to_string()]);
            assert_eq!(servers, vec!["srv".to_string()]);
            assert!(sent_changes);
        },
        other => panic!("unexpected {other:?}"),
    }
    assert_eq!(a.pending(), 0);
    assert_eq!(get_setting(&lib, "autosync_pending").as_deref(), Some("0"));
}

#[test]
fn a_change_nobody_could_get_goes_on_waiting() {
    let mut lib = Library::new();
    let mut rounds = Rounds { since_periodic: 0, next_try: 0 };
    let mut a = AutoSync::default();
    let w = Watchers::default();
    note_change(&mut a, &mut lib, 100);
    let r = round(&mut rounds, &mut a, &mut lib, &[], &w, &unknown(), 1000, 1000);
    assert!(matches!(r, Round::Alone { due_change: true }));
    assert_eq!(a.pending(), 100);
    assert_eq!(rounds.next_try, 16000);
    // Until then it is not tried again.
    let r = round(&mut rounds, &mut a, &mut lib, &[], &w, &unknown(), 15999, 15999);
    assert!(matches!(r, Round::Idle));
    let r = round(&mut rounds, &mut a, &mut lib, &[], &w, &unknown(), 16000, 16000);
    assert!(matches!(r, Round::Alone { due_change: true }));
}

#[test]
fn a_change_that_is_held_up_goes_on_waiting() {
    let mut lib = Library::new();
    let mut rounds = Rounds { since_periodic: 0, next_try: 0 };
    let mut a = AutoSync::default();
    let w = Watchers::default();
    note_change(&mut a, &mut lib, 100);
    let peers = vec![peer("srv", "server", true, true), peer("pc", "windows", true, true)];
    let empty = Conditions { metered: None, battery_pct: Some(5), charging: Some(false) };
    let r = round(&mut rounds, &mut a, &mut lib, &peers, &w, &empty, 1000, 1000);
    assert!(matches!(r, Round::Held));
    assert_eq!(a.pending(), 100);
    assert_eq!(rounds.next_try, 16000);
    assert_eq!(get_setting(&lib, "autosync_pending").as_deref(), Some("1"));
    // Once it is plugged in, it goes.
    let plugged = Conditions { charging: Some(true), ..empty };
    let r = round(&mut rounds, &mut a, &mut lib, &peers, &w, &plugged, 16000, 16000);
    assert!(matches!(r, Round::Sync { sent_changes: true, .. }));
    assert_eq!(a.pending(), 0);
}

#[test]
fn the_periodic_round_leaves_watched_servers_alone() {
    let mut lib = Library::new();
    let mut rounds = Rounds { since_periodic: 0, next_try: 0 };
    let mut a = AutoSync::default();
    let mut w = Watchers::default();
    w.start_live("srv");
    let peers = vec![peer("srv", "server", true, true), peer("pc", "windows", true, true)];
    let r = round(&mut rounds, &mut a, &mut lib, &peers, &w, &unknown(), 600000, 1);
    match r {
        Round::Sync { lan, servers, sent_changes } => {
            assert_eq!(lan, vec!["pc".to_string()]);
            assert!(servers.is_empty());
            assert!(!sent_changes);
        },
        other => panic!("unexpected {other:?}"),
    }
    assert_eq!(rounds.since_periodic, 600000);

    // A paid network holds back the servers only.
    let paid = Conditions { metered: Some(true), battery_pct: None, charging: None };
    w.end_live("srv");
    let r = round(&mut rounds, &mut a, &mut lib, &peers, &w, &paid, 1200000, 1);
    match r {
        Round::Sync { lan, servers, .. } => {
            assert_eq!(lan, vec!["pc".to_string()]);
            assert!(servers.is_empty());
        },
        other => panic!("unexpected {other:?}"),
    }

    set_enabled(&mut lib, false);
    let r = round(&mut rounds, &mut a, &mut lib, &peers, &w, &paid, 1800000, 1);
    assert!(matches!(r, Round::Off));
}
