use rand::rngs::StdRng;
use rand::SeedableRng;
use teff::playout::{discard_budget, draw_budget, playout_discards, playout_sum, wall_completes_hand};
use teff::tile::{parse_tile_set, TileSet};
use teff::uct::{discard_tile, playout, DiscardNode, DiscardStats, DrawNode};

fn hand(text: &str) -> TileSet {
    parse_tile_set(text).unwrap()
}

fn rest_of(h: &TileSet) -> TileSet {
    let mut w = TileSet::new();
    for i in 0..34 {
        *w.tile_mut(i) = 4 - h.tile(i);
    }
    w
}

/// The upper confidence bound policy over tried discards: lowest mean turns
/// minus the exploration bonus, ties to the lowest kind.
fn ucb(count: usize, n_tiles: usize, stats: &DiscardStats) -> usize {
    let t = f64::sqrt(2.0) * n_tiles as f64 * f64::sqrt(f64::ln(count.saturating_sub(n_tiles) as f64));
    let mut best = 0;
    let mut min_score = f64::INFINITY;
    for (j, (_, c, v)) in stats.iter().enumerate() {
        let score = *v as f64 / *c as f64 - t / f64::sqrt(*c as f64);
        if score < min_score {
            best = j;
            min_score = score;
        }
    }
    best
}

#[test]
fn rollout_counts_draws_from_the_back() {
    let mut h = hand("1m");
    let mut w = vec![0usize, 17];
    assert_eq!(playout(&mut h, &mut w, 2), 1);
    assert_eq!(h, hand("11m 9p"));
    assert_eq!(w, vec![0, 17]);
    let mut h = hand("1m");
    let mut w = vec![17usize, 0];
    assert_eq!(playout(&mut h, &mut w, 2), 0);
    assert_eq!(h, hand("11m"));
    let mut h = hand("1m");
    let mut w = vec![17usize, 18];
    assert_eq!(playout(&mut h, &mut w, 2), 2);
}

#[test]
fn playout_mean_matches_exact_expectation() {
    // one of the two orders completes at once (0 further draws), the other after one
    let h = hand("1m");
    let w = hand("1m 9p");
    let mut rng = StdRng::seed_from_u64(7);
    let n = 20000;
    let sum = playout_sum(&h, &w, n, &mut rng);
    let mean = sum as f64 / n as f64;
    assert!((mean - 0.5).abs() < 0.03, "mean {}", mean);
    // a wait on 2m alone, among four wall tiles: its draw index is uniform over 0..4
    let h = hand("34m 55z");
    let w = hand("2m 9p 1s 1z");
    let mut rng = StdRng::seed_from_u64(11);
    let sum = playout_sum(&h, &w, n, &mut rng);
    let mean = sum as f64 / n as f64;
    assert!((mean - 1.5).abs() < 0.05, "mean {}", mean);
}

#[test]
fn uct_root_visits_add_up() {
    let h = hand("123m 456p 789s 55z 34m 9p");
    let w = rest_of(&h);
    let mut rng = StdRng::seed_from_u64(1);
    let n = 300;
    let discards = discard_tile(&h, &w, n, &mut rng, &ucb);
    let visits: usize = discards.iter().map(|d| d.1).sum();
    assert_eq!(visits, n - h.count());
    assert!(discards.windows(2).all(|p| p[0].0 < p[1].0));
    assert!(discards.iter().all(|d| h.tile(d.0) > 0 && d.1 >= 1));
}

#[test]
fn uct_few_samples_are_rollouts() {
    let h = hand("123m 456p 789s 55z 34m 9p");
    let w = rest_of(&h);
    let mut rng = StdRng::seed_from_u64(2);
    assert!(discard_tile(&h, &w, 10, &mut rng, &ucb).is_empty());
}

#[test]
fn uct_complete_hand_has_no_discards() {
    let h = hand("123m 456p 789s 234m 55z");
    let w = rest_of(&h);
    let mut rng = StdRng::seed_from_u64(3);
    assert!(discard_tile(&h, &w, 50, &mut rng, &ucb).is_empty());
}

#[test]
fn uct_keeps_the_waiting_shape() {
    let h = hand("123m 456p 789s 55z 34m 9p");
    let w = rest_of(&h);
    let mut rng = StdRng::seed_from_u64(5);
    let discards = discard_tile(&h, &w, 3000, &mut rng, &ucb);
    let best = discards.iter().max_by_key(|d| d.1).unwrap();
    assert_eq!(best.0, 17);
}

#[test]
fn nodes_count_visits() {
    let mut root = DiscardNode::new();
    let mut h = hand("1m 9p");
    let mut wall = vec![0usize, 0];
    // a hand of two tiles visited fewer than two times rolls out: the last
    // wall tile (1m) completes the pair at once
    assert_eq!(root.sample(&mut h, &mut wall, &ucb), 1);
    assert_eq!((root.count, root.value, root.solved), (1, 1, false));
    let mut draw = DrawNode::new();
    let mut h = hand("1m");
    let mut wall = vec![0usize];
    assert_eq!(draw.sample(&mut h, &mut wall, &ucb), 0);
    assert_eq!(draw.count, 1);
    assert!(wall.is_empty());
}

#[test]
fn no_samples_no_work() {
    let h = hand("123m 456p 789s 55z 34m 9p");
    let w = rest_of(&h);
    let mut rng = StdRng::seed_from_u64(9);
    // a budget of 0 runs one episode, a rollout for a hand of 14 tiles
    assert!(discard_tile(&h, &w, 0, &mut rng, &ucb).is_empty());
    assert!(playout_sum(&hand("1m"), &hand("1m 9p"), 0, &mut rng) <= 1);
    assert_eq!(playout_sum(&hand("1m"), &hand("1m"), 0, &mut rng), 0);
}

#[test]
fn wall_that_cannot_complete_the_hand() {
    assert!(!wall_completes_hand(&hand("1m"), &hand("9p 1s")));
    assert!(wall_completes_hand(&hand("1m"), &hand("9p 1m")));
    assert!(wall_completes_hand(&hand("34m 55z"), &hand("2m 9p")));
    assert!(!wall_completes_hand(&hand("34m 55z"), &hand("1m 9p")));
}

#[test]
fn uct_tries_every_discard_first() {
    let h = hand("123m 456p 789s 55z 34m 9p");
    let w = rest_of(&h);
    let present = (0..34).filter(|&i| h.tile(i) > 0).count();
    assert_eq!(present, 12);
    let mut rng = StdRng::seed_from_u64(6);
    let n = h.count() + present;
    let discards = discard_tile(&h, &w, n, &mut rng, &|_: usize, _: usize, _: &DiscardStats| 0);
    assert_eq!(discards.len(), present);
    assert!(discards.iter().all(|d| d.1 == 1 && d.2 <= w.count()));
}

#[test]
fn sample_budgets_split_evenly_with_at_least_one() {
    assert_eq!(discard_budget(100, 12), 8);
    assert_eq!(discard_budget(5, 12), 1);
    assert_eq!(discard_budget(0, 3), 1);
    assert_eq!(draw_budget(1000, 120, 3), 24);
    assert_eq!(draw_budget(10, 120, 3), 3);
}

#[test]
fn playout_ranking_at_depth_zero() {
    // discarding 9p keeps the pair wait on 1m (the only other wall tile is 9p);
    // discarding 1m leaves 9p waiting on the 9p in the wall
    let h = hand("1m 9p");
    let w = hand("1m 9p 5z");
    let mut rng = StdRng::seed_from_u64(8);
    let r = playout_discards(&h, &w, 3000, &mut rng);
    assert_eq!(r.iter().map(|e| e.0).collect::<Vec<_>>(), vec![0, 17]);
    // each discard gets 1500 samples; the wait is uniform over three positions
    for (_, sum) in r {
        let mean = sum as f64 / 1500.0;
        assert!((mean - 1.0).abs() < 0.1, "mean {}", mean);
    }
}
