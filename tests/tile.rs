use teff::tile::{
    count_head_and_triad, count_triad_honor, count_triad_simple, format_tile, format_tile_set,
    parse_tile_set, TileSet,
};

fn hand(text: &str) -> TileSet {
    parse_tile_set(text).unwrap()
}

#[test]
fn new_tile_set_is_empty() {
    let t = TileSet::new();
    assert_eq!(t.count(), 0);
    assert_eq!(t.len(), 34);
    assert!(t.iter().iter().all(|c| *c == 0));
}

#[test]
fn accessors_address_the_same_counters() {
    let mut t = TileSet::new();
    *t.tile_mut(3) = 2;
    *t.simple_mut(1, 4) += 3;
    *t.honor_mut(6) = 1;
    assert_eq!(t.tile(3), 2);
    assert_eq!(t.simple(0, 3), 2);
    assert_eq!(t.tile(13), 3);
    assert_eq!(t.simple(1, 4), 3);
    assert_eq!(t.tile(33), 1);
    assert_eq!(t.honor(6), 1);
    assert_eq!(t.count(), 6);
    assert_eq!(t.iter()[13], 3);
}

#[test]
fn format_tile_names_each_group() {
    assert_eq!(format_tile(0), "1m");
    assert_eq!(format_tile(13), "5p");
    assert_eq!(format_tile(26), "9s");
    assert_eq!(format_tile(27), "1z");
    assert_eq!(format_tile(33), "7z");
}

#[test]
fn parse_then_format() {
    let h = hand("123m 456p 789s 11z");
    assert_eq!(h.count(), 11);
    assert_eq!(h.tile(0), 1);
    assert_eq!(h.tile(27), 2);
    assert_eq!(format_tile_set(&h), "123m 456p 789s 11z ");
    assert_eq!(format_tile_set(&hand("55z\t9s\n")), "9s 55z ");
    assert_eq!(format_tile_set(&TileSet::new()), "");
}

#[test]
fn parse_rejects_bad_text() {
    assert!(parse_tile_set("12x").is_none());
    assert!(parse_tile_set("8z").is_none());
    assert!(parse_tile_set("123").is_none());
    assert!(parse_tile_set("11111m").is_none());
    assert!(parse_tile_set("").is_some());
}

#[test]
fn four_runs_and_a_pair_are_complete() {
    let mut h = hand("123m 456p 789s 234m 55z");
    assert_eq!(h.count(), 14);
    assert_eq!(count_head_and_triad(&mut h, false), 14);
    assert_eq!(count_head_and_triad(&mut h, true), 14);
    let mut h = hand("123m 345m 567m 789m 99m");
    assert_eq!(count_head_and_triad(&mut h, false), 14);
}

#[test]
fn headless_never_lowers_the_weight() {
    // with a pair required, 22m or 33m breaks the two runs of m
    let mut h = hand("123m 456p 789s 234m");
    assert_eq!(count_head_and_triad(&mut h, true), 12);
    assert_eq!(count_head_and_triad(&mut h, false), 8);
    let mut h = hand("1289m 11p 5z");
    assert_eq!(count_head_and_triad(&mut h, true), 2);
    assert_eq!(count_head_and_triad(&mut h, false), 2);
}

#[test]
fn decomposition_leaves_the_hand_unchanged() {
    let mut h = hand("111123m 445566p 77z");
    let before = h;
    count_head_and_triad(&mut h, true);
    assert_eq!(h, before);
    count_triad_simple(&mut h, 0, 0);
    assert_eq!(h, before);
}

#[test]
fn decomposition_depends_on_counts_only() {
    let mut a = hand("321m 654p 11z 987s");
    let mut b = hand("11z 123m 456p 789s");
    assert_eq!(a, b);
    assert_eq!(count_head_and_triad(&mut a, false), count_head_and_triad(&mut b, false));
    assert_eq!(count_head_and_triad(&mut a, false), 11);
}

#[test]
fn suit_and_honor_triads() {
    let mut h = hand("111123m");
    assert_eq!(count_triad_simple(&mut h, 0, 0), 6);
    assert_eq!(count_triad_simple(&mut h, 0, 1), 0);
    let mut h = hand("112233m");
    assert_eq!(count_triad_simple(&mut h, 0, 0), 6);
    assert_eq!(count_triad_simple(&mut h, 1, 0), 0);
    let h = hand("111222z 33z 7777z");
    assert_eq!(count_triad_honor(&h), 9);
}

#[test]
fn best_pair_choice() {
    // the pair must come from 1m for the runs to stay whole
    let mut h = hand("11123m");
    assert_eq!(count_head_and_triad(&mut h, false), 5);
    let mut h = hand("123456789m 11z 5p");
    assert_eq!(count_head_and_triad(&mut h, false), 11);
    assert_eq!(count_head_and_triad(&mut h, true), 11);
}

#[test]
fn reordered_digits_parse_alike() {
    assert_eq!(parse_tile_set("11z 3124m 9p"), parse_tile_set("11z 1234m 9p"));
    assert!(parse_tile_set("978z").is_none() && parse_tile_set("789z").is_none());
}
