use sway::rank::{between, initial_ranks, rank_at};

#[test]
fn there_is_always_room_between_two_ranks() {
    let mut low = between(None, None);
    let high = between(Some(&low), None);
    for _ in 0..200 {
        let mid = between(Some(&low), Some(&high));
        assert!(low < mid && mid < high, "{low} {mid} {high}");
        low = mid;
    }
    let mut first = between(None, Some(&low));
    for _ in 0..50 {
        let before = between(None, Some(&first));
        assert!(before < first);
        first = before;
    }
}

#[test]
fn ranks_in_a_row_ascend() {
    let r = initial_ranks(500);
    assert_eq!(r.len(), 500);
    assert!(r.windows(2).all(|w| w[0] < w[1]));
    assert!(initial_ranks(0).is_empty());
}

#[test]
fn a_place_among_siblings_has_a_rank() {
    let s = initial_ranks(3);
    assert!(rank_at(&s, 0) < s[0]);
    let one = rank_at(&s, 1);
    assert!(s[0] < one && one < s[1]);
    assert!(rank_at(&s, 3) > s[2]);
}
