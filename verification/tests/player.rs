use sway::player::{
    output_devices, Boundary, Cue, Engine, Player, Reading, Reopened, Started, BUSY_TICK_MS,
    IDLE_TICK_MS,
};

fn cue(id: i64, duration_ms: u64, lead_ms: u64, audio_end_ms: u64) -> Cue {
    Cue { id, path: format!("/{id}.flac"), duration_ms, lead_ms, audio_end_ms }
}

fn playing(pos_ms: u64, len: usize) -> Option<Reading> {
    Some(Reading { pos_ms, len, empty: false, paused: false })
}

fn engine() -> (Engine, Player) {
    (Engine::new(true, true, None, 0), Player::new())
}

#[test]
fn the_queued_track_takes_over_when_the_first_is_gone() {
    let (mut e, mut shown) = engine();
    shown.play(1);
    e.chosen();
    e.start(cue(1, 700, 0, 300), &mut shown, Started::Playing);
    e.set_next(Some(cue(2, 300, 25, 300)));
    assert_eq!(e.tick_ms(), IDLE_TICK_MS);
    assert_eq!(e.at_boundary(&mut shown, playing(0, 1)), Boundary::Preload);
    e.preloaded(true);
    assert_eq!(e.tick_ms(), BUSY_TICK_MS);

    assert_eq!(e.at_boundary(&mut shown, playing(100, 2)), Boundary::Nothing);
    assert_eq!(e.at_boundary(&mut shown, playing(150, 1)), Boundary::HandOver { skip: false });
    assert_eq!(shown.state().track_id, Some(2));
    assert_eq!(shown.pos_ms, 25);
    assert_eq!(e.cur.as_ref().map(|c| c.id), Some(2));
    assert!(e.queued.is_none());
    assert_eq!(e.at_boundary(&mut shown, playing(0, 1)), Boundary::Nothing);
}

#[test]
fn the_position_is_enough_to_take_over() {
    let (mut e, mut shown) = engine();
    e.start(cue(1, 2000, 0, 300), &mut shown, Started::Playing);
    e.set_next(Some(cue(2, 300, 0, 0)));
    e.preloaded(true);
    // Both sources are still there.
    assert_eq!(e.at_boundary(&mut shown, playing(239, 2)), Boundary::Nothing);
    assert_eq!(e.at_boundary(&mut shown, playing(240, 2)), Boundary::HandOver { skip: true });
    assert_eq!(shown.track_id, 2);
}

#[test]
fn a_track_is_cut_at_both_ends() {
    let c = cue(1, 1000, 100, 500);
    assert_eq!(c.audible_end_ms(), 500);
    assert_eq!(c.audible_len_ms(), 400);
    assert_eq!(c.span(0), (100, Some(400)));
    assert_eq!(c.span(250), (250, Some(250)));
    assert_eq!(c.span(900), (900, Some(0)));
    let whole = cue(2, 300, 0, 0);
    assert_eq!(whole.audible_end_ms(), 300);
    assert_eq!(whole.span(0), (0, None));
}

#[test]
fn one_track_fades_into_the_next() {
    let (mut e, mut shown) = engine();
    e.configure(Some(4000), true);
    e.start(cue(1, 60000, 0, 0), &mut shown, Started::Playing);
    e.set_next(Some(cue(2, 1000, 500, 0)));
    assert_eq!(e.at_boundary(&mut shown, playing(55999, 1)), Boundary::Nothing);
    assert_eq!(e.at_boundary(&mut shown, playing(56000, 1)), Boundary::Crossfade);
    e.crossfaded(&mut shown, Started::Playing);
    assert!(e.fading_in && e.fading_out);
    assert_eq!(shown.track_id, 2);
    assert_eq!(e.pos_offset_ms, 500);
    e.faded_in();
    e.faded_out();
    assert!(!e.fading_in && !e.fading_out);

    // One whose length is not known cannot be faded.
    e.start(cue(3, 0, 0, 0), &mut shown, Started::Playing);
    e.set_next(Some(cue(4, 1000, 0, 0)));
    assert_eq!(e.at_boundary(&mut shown, playing(1, 1)), Boundary::Nothing);
}

#[test]
fn a_track_that_cannot_be_read_is_not_tried_again() {
    let (mut e, mut shown) = engine();
    e.start(cue(1, 1000, 0, 0), &mut shown, Started::Playing);
    e.set_next(Some(cue(2, 1000, 0, 0)));
    e.preloaded(false);
    assert!(e.next.is_none() && e.queued.is_none());
    e.set_next(Some(cue(2, 1000, 0, 0)));
    e.crossfaded(&mut shown, Started::Unreadable);
    assert!(e.next.is_none());
    e.start(cue(9, 1, 0, 0), &mut shown, Started::Unreadable);
    assert_eq!(shown.state().track_id, None);
    assert!(!shown.state().playing);
}

#[test]
fn a_finished_track_stays_finished() {
    let (mut e, mut shown) = engine();
    e.start(cue(1, 1000, 0, 900), &mut shown, Started::Playing);
    let r = playing(850, 1);
    let pos = e.position_ms(r);
    let end = e.is_past_end(pos);
    assert!(end);
    assert_eq!(e.at_boundary(&mut shown, r), Boundary::Nothing);
    e.finish(&mut shown, pos, end, r);
    assert!(e.ended);
    assert_eq!(shown.pos_ms, 1000);
    assert!(!shown.playing);
    // Handing over a next track now does not start it.
    e.set_next(Some(cue(2, 1000, 0, 0)));
    assert_eq!(e.at_boundary(&mut shown, r), Boundary::Nothing);
    e.finish(&mut shown, pos, end, r);
    assert_eq!(shown.pos_ms, 1000);
    e.resume(&mut shown);
    assert_eq!(e.at_boundary(&mut shown, r), Boundary::Preload);
}

#[test]
fn seeking_undoes_a_transition() {
    let (mut e, mut shown) = engine();
    e.start(cue(1, 1000, 80, 900), &mut shown, Started::Playing);
    assert!(e.before_seek().is_none());
    e.set_next(Some(cue(2, 1000, 0, 0)));
    e.preloaded(true);
    let back = e.before_seek();
    assert_eq!(back.as_ref().map(|c| c.id), Some(1));
    assert!(e.queued.is_none());
    assert_eq!(e.pos_offset_ms, 80);
    e.seeked(&mut shown, 42, true);
    assert_eq!(e.pos_offset_ms, 0);
    assert_eq!(shown.position_secs(), 42);
    e.stop(&mut shown, true);
    assert!(e.cur.is_none());
    assert_eq!(shown.state().track_id, None);
}

#[test]
fn the_output_is_followed_unless_one_was_chosen() {
    let (mut e, mut shown) = engine();
    assert!(!e.device_check_is_due(999));
    assert!(e.device_check_is_due(1000));
    assert!(!e.device_check_is_due(1001));
    let phones = Some("Phones".to_string());
    assert!(e.output_moved(&phones));
    assert!(!e.output_moved(&None));
    e.start(cue(1, 9000, 200, 0), &mut shown, Started::Playing);
    shown.pos_ms = 3000;
    e.reopened(&shown, Reopened::Playing, phones.clone());
    assert_eq!(e.pos_offset_ms, 3000);
    assert!(!e.output_moved(&phones));
    assert!(e.set_device(phones.clone()));
    assert!(!e.set_device(phones));
    assert!(!e.device_check_is_due(90000));
    e.reopened(&shown, Reopened::NoOutput, None);
    assert!(!e.out && !e.sink);
    e.start(cue(2, 1, 0, 0), &mut shown, Started::Playing);
    assert_eq!(e.cur.as_ref().map(|c| c.id), Some(1));
    e.opened(true, None);
    e.start(cue(2, 1, 0, 0), &mut shown, Started::NoSink);
    assert!(!e.sink);
}

#[test]
fn outputs_are_listed_once_and_in_order() {
    let found = vec!["b".to_string(), "a".to_string(), "b".to_string(), "B".to_string()];
    assert_eq!(output_devices(found), vec!["B", "a", "b"]);
    assert!(output_devices(Vec::new()).is_empty());
}

#[test]
fn what_is_shown_follows_the_commands() {
    let mut p = Player::new();
    p.play(5);
    assert_eq!(p.state().track_id, Some(5));
    p.pause();
    assert!(!p.state().playing);
    p.resume();
    assert!(p.state().playing);
    p.pos_ms = 61999;
    assert_eq!(p.position_secs(), 61);
    p.stop();
    assert_eq!((p.state().track_id, p.state().pos_ms), (None, 0));
}
