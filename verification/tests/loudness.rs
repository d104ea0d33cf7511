use sway::loudness::{
    edges_or_none, scan_edges, trim_edges, usable, Analyzer, Edges, Progress, MAX_TRIM_MS,
};

const RATE: u32 = 44_100;

fn frames(ms: u64) -> usize {
    (RATE as u64 * ms / 1000) as usize
}

fn between_silences(lead_ms: u64, loud_ms: u64, trail_ms: u64) -> Vec<bool> {
    let mut v = vec![false; frames(lead_ms)];
    v.extend(vec![true; frames(loud_ms)]);
    v.extend(vec![false; frames(trail_ms)]);
    v
}

fn scan(loud: &[bool], chunk: usize) -> Edges {
    let mut e = Edges::default();
    for c in loud.chunks(chunk) {
        scan_edges(&mut e, c);
    }
    e
}

#[test]
fn silence_at_both_ends_is_found() {
    let e = scan(&between_silences(500, 2000, 800), 8192);
    assert_eq!(e.frames, 145530);
    assert_eq!(e.first_loud, Some(22050));
    assert_eq!(e.last_loud, 110249);
    assert_eq!(trim_edges(&e, RATE), (500, 2500));
}

#[test]
fn what_is_loud_throughout_is_not_cut() {
    let e = scan(&between_silences(0, 2000, 0), 8192);
    assert_eq!(trim_edges(&e, RATE), (0, 2000));
}

#[test]
fn what_is_silent_throughout_is_not_cut() {
    let e = scan(&between_silences(2000, 0, 0), 8192);
    assert_eq!(e.first_loud, None);
    assert_eq!(trim_edges(&e, RATE), (0, 2000));
}

#[test]
fn no_more_is_cut_than_the_limit() {
    let e = scan(&between_silences(20_000, 1000, 15_000), 8192);
    assert_eq!(trim_edges(&e, RATE), (MAX_TRIM_MS, 36_000 - MAX_TRIM_MS));
}

#[test]
fn the_chunks_do_not_matter() {
    let loud = between_silences(10, 20, 30);
    assert_eq!(scan(&loud, 1), scan(&loud, 100_000));
}

#[test]
fn partial_frames_are_dropped() {
    assert_eq!(usable(11, 2), 10);
    assert_eq!(usable(1, 2), 0);
    assert_eq!(usable(9, 3), 9);
}

#[test]
fn one_sweep_at_a_time() {
    let mut a = Analyzer::default();
    assert!(a.sweep());
    assert!(!a.sweep());
    a.done();
    assert!(a.sweep());
    assert_eq!(edges_or_none(None), (0, 0));
    assert_eq!(edges_or_none(Some((3, 9))), (3, 9));
    assert_eq!(Progress { pending: 0 }.pending, 0);
}
