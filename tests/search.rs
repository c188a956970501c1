use teff::search::{
    denominator, discard_branch, discard_tile, discard_tile_parallel, draw_tile, is_valid_pair, search_fits,
    Ratio,
};
use teff::tile::{count_head_and_triad, parse_tile_set, TileSet};

fn hand(text: &str) -> TileSet {
    parse_tile_set(text).unwrap()
}

fn rest_of(h: &TileSet) -> TileSet {
    let mut w = TileSet::new();
    for i in 0..34 {
        *w.tile_mut(i) = 4 - h.tile(i);
    }
    w
}

#[test]
fn denominator_values() {
    assert_eq!(denominator(0, 5), 1);
    assert_eq!(denominator(1, 10), 10);
    assert_eq!(denominator(2, 10), 90);
}

#[test]
fn depth_zero_scores_tiles_outside_melds() {
    let mut h = hand("123m 456p 789s 234m 5z 1p");
    let mut w = rest_of(&h);
    let (best, discards) = discard_tile(&mut h, &mut w, 0);
    let size = h.count() as u64;
    let weight = count_head_and_triad(&mut h, true) as u64;
    assert_eq!(best, Ratio { num: size - weight, den: 1 });
    assert_eq!(best.num, 2);
    assert!(discards.is_empty());
}

#[test]
fn complete_hand_scores_zero() {
    let mut h = hand("123m 456p 789s 234m 55z");
    let mut w = rest_of(&h);
    let (best, discards) = discard_tile(&mut h, &mut w, 1);
    assert_eq!(best.num, 0);
    assert!(discards.is_empty());
}

#[test]
fn draw_tile_exact_mean() {
    let mut h = hand("1m");
    let mut w = hand("1m 9p");
    // drawing 1m completes the pair (0 left over), drawing 9p leaves 2
    assert_eq!(draw_tile(&mut h, &mut w, 0), Ratio { num: 2, den: 2 });
    assert_eq!(h, hand("1m"));
    assert_eq!(w, hand("1m 9p"));
}

#[test]
fn depth_one_scores_each_discard() {
    let mut h = hand("1m 5z");
    let mut w = hand("1m 9p");
    let (best, discards) = discard_tile(&mut h, &mut w, 1);
    // den = 2; discarding 5z keeps 1m: a mean of 1 left over after the draw
    assert_eq!(best, Ratio { num: 2, den: 2 });
    assert_eq!(discards, vec![(0, Ratio { num: 4, den: 2 }), (31, Ratio { num: 2, den: 2 })]);
}

#[test]
fn waiting_shape_is_kept() {
    let mut h = hand("123m 456p 789s 55z 34m 9p");
    let mut w = rest_of(&h);
    let before = (h, w);
    let (best, discards) = discard_tile(&mut h, &mut w, 1);
    assert_eq!((h, w), before);
    let (tile, score) = discards.iter().min_by_key(|(_, s)| s.num).unwrap();
    assert_eq!(*tile, 17);
    assert_eq!(*score, best);
    assert!(discards.iter().filter(|(t, _)| *t != 17).all(|(_, s)| s.num > best.num));
}

#[test]
fn parallel_search_matches_sequential() {
    let mut h = hand("123m 456p 789s 55z 34m 9p");
    let mut w = rest_of(&h);
    let a = discard_tile(&mut h, &mut w, 1);
    let b = discard_tile_parallel(&mut h, &mut w, 1);
    assert_eq!(a, b);
    let mut h = hand("1m 5z");
    let mut w = hand("1m 9p");
    assert_eq!(discard_tile(&mut h, &mut w, 1), discard_tile_parallel(&mut h, &mut w, 1));
}

#[test]
fn search_limits() {
    let h = hand("123m 456p 789s 55z 34m 9p");
    let w = rest_of(&h);
    assert!(is_valid_pair(&h, &w));
    assert!(search_fits(&h, &w, 3));
    assert!(!search_fits(&h, &w, 10));
    let mut too_many = w;
    *too_many.tile_mut(0) += 1;
    assert!(!is_valid_pair(&h, &too_many));
    assert!(!search_fits(&h, &too_many, 1));
    let small = hand("1m 9p");
    assert!(search_fits(&hand("1m"), &small, 2));
    assert!(!search_fits(&hand("1m"), &small, 3));
}

#[test]
fn one_branch_on_copies() {
    let h = hand("1m 5z");
    let w = hand("1m 9p");
    assert_eq!(discard_branch(&h, &w, 31, 1), Some((31, Ratio { num: 2, den: 2 })));
    assert_eq!(discard_branch(&h, &w, 5, 1), None);
}

#[test]
fn deeper_search_matches_in_parallel() {
    let mut h = hand("1m 5z");
    let mut w = hand("1m 9p 2s");
    let a = discard_tile(&mut h, &mut w, 2);
    let b = discard_tile_parallel(&mut h, &mut w, 2);
    assert_eq!(a, b);
    assert_eq!(a.0.den, 3 * 2);
    assert!(a.1.iter().all(|(_, s)| s.num >= a.0.num));
}
