use sway::autosync::set_enabled;
use sway::devices::store_device;
use sway::library::Library;
use sway::power::Conditions;
use sway::watch::{
    on_answer, on_hold, servers_to_watch, still_paired, After, Backoff, Next, Outcome, Step,
    Watcher, Watchers, FULL_CHECK_MS, HOLD_RETRY_MS, RETRY_AFTER_DROP_MS, RETRY_MAX_MS,
    RETRY_MIN_MS, TOO_QUICK_LIMIT, UNSUPPORTED_RETRY_MS,
};
use sway::wire::{Mark, Msg};

#[test]
fn un_server_apagado_nunca_se_da_por_perdido() {
    let mut b = Backoff::new();
    for _ in 0..20 {
        let d = b.unreachable();
        assert!(d <= RETRY_MAX_MS);
    }
    assert_eq!(b.wait, RETRY_MAX_MS, "la espera tiene techo");
    assert_eq!(b.quick_failures, 0, "no puede acumular nada");
}

#[test]
fn una_conexion_que_vivio_no_hace_crecer_la_espera() {
    let mut b = Backoff::new();
    b.unreachable();
    b.unreachable();
    assert!(b.wait > RETRY_MIN_MS);

    assert_eq!(
        b.dropped(45 * 1000),
        Next::Retry(RETRY_AFTER_DROP_MS),
        "una conexión que venía andando se reintenta enseguida"
    );
    assert_eq!(b.wait, RETRY_MIN_MS, "una conexión sana resetea la espera");
}

#[test]
fn caerse_en_el_acto_varias_veces_es_dejar_de_insistir() {
    let mut b = Backoff::new();
    let instante = 20;
    for _ in 0..TOO_QUICK_LIMIT - 1 {
        assert!(matches!(b.dropped(instante), Next::Retry(_)));
    }
    assert_eq!(b.dropped(instante), Next::StandDown);
}

#[test]
fn una_caida_instantanea_suelta_no_acumula() {
    let mut b = Backoff::new();
    b.dropped(20);
    b.dropped(45 * 1000);
    assert_eq!(b.quick_failures, 0);
    let instante = 20;
    for _ in 0..TOO_QUICK_LIMIT - 1 {
        assert!(matches!(b.dropped(instante), Next::Retry(_)));
    }
    assert_eq!(b.dropped(instante), Next::StandDown);
}

#[test]
fn sin_timbre_la_espera_se_cumple() {
    let mut w = Watchers::default();
    assert!(!w.nap_is_over("srv", 100, 120));
    assert!(w.nap_is_over("srv", 120, 120));
}

#[test]
fn el_timbre_corta_la_espera() {
    let mut w = Watchers::default();
    assert!(!w.nap_is_over("srv", 29, 10 * 1000));
    w.wake("srv");
    assert!(w.nap_is_over("srv", 30, 10 * 1000), "durmió el plazo entero");
}

#[test]
fn un_timbre_anterior_a_la_espera_no_se_pierde() {
    let mut w = Watchers::default();
    w.wake("srv");
    assert!(w.nap_is_over("srv", 0, 10 * 1000));
    // Y vale una sola vez.
    assert!(!w.nap_is_over("srv", 0, 10 * 1000));
}

#[test]
fn el_timbre_es_para_uno_solo() {
    let mut w = Watchers::default();
    w.wake("otro");
    assert!(!w.nap_is_over("srv", 100, 120));
    assert!(w.take_ring("otro"));
}

#[test]
fn un_aviso_deja_todo_como_al_principio() {
    let mut b = Backoff::new();
    b.unreachable();
    b.dropped(20);
    b.news();
    assert_eq!(b.wait, RETRY_MIN_MS);
    assert_eq!(b.quick_failures, 0);
}

#[test]
fn the_wait_doubles_up_to_its_bound() {
    let mut b = Backoff::new();
    let waits: Vec<u64> = (0..7).map(|_| b.unreachable()).collect();
    assert_eq!(waits, vec![15000, 30000, 60000, 120000, 240000, 300000, 300000]);
}

#[test]
fn answers_move_the_mark_on() {
    let mut since = None;
    assert_eq!(on_answer(Msg::Ping { mark: Mark { revision: 4 } }, &mut since).unwrap(), None);
    assert_eq!(since, Some(Mark { revision: 4 }));
    assert_eq!(
        on_answer(Msg::Changed { mark: Mark { revision: 9 } }, &mut since).unwrap(),
        Some(Outcome::Changed)
    );
    assert_eq!(since, Some(Mark { revision: 9 }));
    let no = Msg::Reject { reason: "what?".to_string() };
    assert_eq!(on_answer(no, &mut since).unwrap(), Some(Outcome::Unsupported));
    let e = on_answer(Msg::Unpair { uid: "p".to_string() }, &mut since).unwrap_err();
    assert_eq!(e.message(), "unexpected answer to Watch: Unpair { uid: \"p\" }");
    assert_eq!(since, Some(Mark { revision: 9 }));
}

#[test]
fn a_watcher_goes_through_its_steps() {
    let mut w = Watcher::new(None, 0);
    assert_eq!(w.next(false, false, 1), Step::Stop);
    assert_eq!(w.next(true, true, 1), Step::Nap(HOLD_RETRY_MS));
    assert_eq!(w.next(true, false, 1), Step::Listen { catch_up_first: true });
    w.caught_up(5);

    let mark = Some(Mark { revision: 3 });
    assert_eq!(
        w.after(Outcome::Failed, mark, 5000),
        After { remember: true, catch_up: false, nap: RETRY_AFTER_DROP_MS }
    );
    assert_eq!(w.next(true, false, 6), Step::Listen { catch_up_first: false });
    assert_eq!(
        w.after(Outcome::Changed, mark, 5000),
        After { remember: false, catch_up: true, nap: 0 }
    );
    // After a long while everything is compared whatever was said.
    assert_eq!(w.next(true, false, 5 + FULL_CHECK_MS), Step::Listen { catch_up_first: true });
    assert_eq!(
        w.after(Outcome::Unsupported, None, 1),
        After { remember: true, catch_up: false, nap: UNSUPPORTED_RETRY_MS }
    );
    assert_eq!(w.after(Outcome::Unreachable, None, 0).nap, RETRY_MIN_MS);
    for _ in 0..TOO_QUICK_LIMIT - 1 {
        w.after(Outcome::Failed, mark, 10);
    }
    let last = w.after(Outcome::Failed, mark, 10);
    assert_eq!(last.nap, UNSUPPORTED_RETRY_MS);
    assert_eq!(w.since, None);
}

#[test]
fn every_server_gets_one_watcher() {
    let mut lib = Library::new();
    store_device(&mut lib, "a", "A", "server", &[1], 1);
    store_device(&mut lib, "b", "B", "windows", &[1], 1);
    store_device(&mut lib, "c", "C", "server", &[1], 1);
    let mut w = Watchers::default();
    assert_eq!(servers_to_watch(&lib, &mut w), vec!["a".to_string(), "c".to_string()]);
    assert!(w.is_watched("a"));
    assert!(!w.is_watched("b"));
    assert!(servers_to_watch(&lib, &mut w).is_empty());
    w.end_watcher("a");
    assert_eq!(servers_to_watch(&lib, &mut w), vec!["a".to_string()]);
    assert!(still_paired(&lib, "b"));
    assert!(!still_paired(&lib, "z"));
    w.start_live("a");
    assert!(w.is_live("a"));
    w.end_live("a");
    assert!(!w.is_live("a"));
}

#[test]
fn watching_waits_for_a_reason() {
    let mut lib = Library::new();
    let paid = Conditions { metered: Some(true), battery_pct: None, charging: None };
    assert_eq!(on_hold(&lib, &Conditions::default()), None);
    assert_eq!(on_hold(&lib, &paid).as_deref(), Some("the network is metered"));
    set_enabled(&mut lib, false);
    assert_eq!(on_hold(&lib, &paid).as_deref(), Some("automatic sync is off"));
}
