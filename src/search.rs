//! Bounded exhaustive expectation search over discards and draws.
//!
//! Scores are exact: every score of one search level shares the denominator
//! `denom(depth, wall size)`, so a score is returned as a numerator over it.
use crate::tile::{
    count_head_and_triad, decomposition, lemma_decomposition_bounds, lemma_total_append,
    lemma_total_nonneg, lemma_total_update, lemma_view_len, total, TileSet,
};
use rayon::iter::{IntoParallelIterator, ParallelIterator};
use vstd::prelude::*;

verus! {

broadcast use lemma_view_len;

/// An exact non-negative rational `num / den`.
#[derive(Clone, Copy, Debug, PartialEq, Eq)]
pub struct Ratio {
    pub num: u64,
    pub den: u64,
}

/// Common denominator of the scores of a search of `depth` levels that starts
/// from a wall of `w` tiles: each level averages over the `w` tiles that may be
/// drawn.
pub open spec fn denom(depth: nat, w: int) -> int
    decreases depth,
{
    if depth == 0 {
        1
    } else {
        w * denom((depth - 1) as nat, w - 1)
    }
}

pub proof fn lemma_denom_pos(depth: nat, w: int)
    requires
        w >= depth,
    ensures
        denom(depth, w) >= 1,
    decreases depth,
{
    if depth > 0 {
        lemma_denom_pos((depth - 1) as nat, w - 1);
        let d1 = denom((depth - 1) as nat, w - 1);
        assert(w * d1 >= 1) by (nonlinear_arith)
            requires
                w >= 1,
                d1 >= 1,
        ;
    }
}

/// Hand and wall have one counter per kind and together at most four copies of each.
pub open spec fn valid_pair(h: Seq<u8>, w: Seq<u8>) -> bool {
    &&& h.len() == 34
    &&& w.len() == 34
    &&& forall|k: int| 0 <= k < 34 ==> h[k] + w[k] <= 4
}

/// A hand whose score is its number of tiles outside melds: it is complete,
/// or no search depth is left.
pub open spec fn settled(h: Seq<u8>, depth: nat) -> bool {
    decomposition(h, true) == total(h) || depth == 0
}

pub open spec fn min(a: int, b: int) -> int {
    if a <= b {
        a
    } else {
        b
    }
}

pub open spec fn remove_one(s: Seq<u8>, k: int) -> Seq<u8> {
    s.update(k, (s[k] - 1) as u8)
}

pub open spec fn add_one(s: Seq<u8>, k: int) -> Seq<u8> {
    s.update(k, (s[k] + 1) as u8)
}

/// Numerator of the best (lowest) expected number of tiles outside melds
/// reachable in `depth` more discard-and-draw turns, over `denom(depth, total(w))`.
pub open spec fn discard_value(h: Seq<u8>, w: Seq<u8>, depth: nat) -> int
    decreases depth, 2int, 0int,
{
    if settled(h, depth) {
        (total(h) - decomposition(h, true)) * denom(depth, total(w))
    } else {
        best_branch_below(h, w, depth, 34)
    }
}

/// Smallest branch value over the kinds below `k` present in the hand
/// (`u64::MAX` if there are none).
pub open spec fn best_branch_below(h: Seq<u8>, w: Seq<u8>, depth: nat, k: int) -> int
    decreases depth, 1int, k,
{
    if k <= 0 {
        u64::MAX as int
    } else {
        min(
            best_branch_below(h, w, depth, k - 1),
            if k - 1 < h.len() && h[k - 1] > 0 {
                branch_value(h, w, depth, k - 1)
            } else {
                u64::MAX as int
            },
        )
    }
}

/// Numerator over `denom(depth, total(w))` of the score of discarding one tile
/// of kind `k`: the mean over the next draw of the score one level deeper.
pub open spec fn branch_value(h: Seq<u8>, w: Seq<u8>, depth: nat, k: int) -> int
    decreases depth, 0int, 0int,
{
    if depth == 0 {
        0
    } else {
        draw_sum(remove_one(h, k), w, (depth - 1) as nat, 34)
    }
}

/// Sum over the kinds `k` below `j` of `w[k]` times the value, one level
/// deeper, of drawing a tile of kind `k`.
pub open spec fn draw_sum(h: Seq<u8>, w: Seq<u8>, depth: nat, j: int) -> int
    decreases depth, 3int, j,
{
    if j <= 0 {
        0
    } else {
        draw_sum(h, w, depth, j - 1) + if j - 1 < w.len() && w[j - 1] > 0 {
            w[j - 1] * discard_value(add_one(h, j - 1), remove_one(w, j - 1), depth)
        } else {
            0
        }
    }
}

/// The scored discards of the kinds below `k` present in the hand, by kind.
pub open spec fn candidates_below(h: Seq<u8>, w: Seq<u8>, depth: nat, k: int) -> Seq<(usize, Ratio)>
    decreases k,
{
    if k <= 0 {
        Seq::empty()
    } else if k - 1 < h.len() && h[k - 1] > 0 {
        candidates_below(h, w, depth, k - 1).push(
            ((k - 1) as usize, Ratio {
                num: branch_value(h, w, depth, k - 1) as u64,
                den: denom(depth, total(w)) as u64,
            }),
        )
    } else {
        candidates_below(h, w, depth, k - 1)
    }
}

/// The scored discards that a search of `depth` levels returns.
pub open spec fn candidates(h: Seq<u8>, w: Seq<u8>, depth: nat) -> Seq<(usize, Ratio)> {
    if settled(h, depth) {
        Seq::empty()
    } else {
        candidates_below(h, w, depth, 34)
    }
}

proof fn lemma_step_totals(h: Seq<u8>, w: Seq<u8>, k: int)
    requires
        valid_pair(h, w),
        0 <= k < 34,
    ensures
        h[k] > 0 ==> total(remove_one(h, k)) == total(h) - 1,
        h[k] > 0 ==> valid_pair(remove_one(h, k), w),
        w[k] > 0 ==> total(add_one(h, k)) == total(h) + 1,
        w[k] > 0 ==> total(remove_one(w, k)) == total(w) - 1,
        w[k] > 0 ==> valid_pair(add_one(h, k), remove_one(w, k)),
{
    if h[k] > 0 {
        lemma_total_update(h, k, (h[k] - 1) as u8);
    }
    if w[k] > 0 {
        lemma_total_update(h, k, (h[k] + 1) as u8);
        lemma_total_update(w, k, (w[k] - 1) as u8);
    }
}

/// Every score lies between 0 and the number of tiles plus the depth.
pub proof fn lemma_discard_value_bounds(h: Seq<u8>, w: Seq<u8>, depth: nat)
    requires
        valid_pair(h, w),
        total(w) >= depth,
    ensures
        0 <= discard_value(h, w, depth) <= (total(h) + depth) * denom(depth, total(w)),
    decreases depth, 2int, 0int,
{
    lemma_denom_pos(depth, total(w));
    lemma_total_nonneg(h);
    let d = denom(depth, total(w));
    let n = total(h);
    if settled(h, depth) {
        lemma_decomposition_bounds(h, true);
        let c = decomposition(h, true);
        assert(0 <= (n - c) * d <= (n + depth) * d) by (nonlinear_arith)
            requires
                0 <= c <= n,
                d >= 1,
                depth >= 0,
        ;
    } else {
        lemma_decomposition_bounds(h, true);
        assert(h.subrange(0, 34) =~= h);
        lemma_best_branch_below_bounds(h, w, depth, 34);
    }
}

proof fn lemma_best_branch_below_bounds(h: Seq<u8>, w: Seq<u8>, depth: nat, k: int)
    requires
        valid_pair(h, w),
        total(w) >= depth,
        depth >= 1,
        0 <= k <= 34,
    ensures
        0 <= best_branch_below(h, w, depth, k) <= u64::MAX,
        total(h.subrange(0, k)) > 0 ==> best_branch_below(h, w, depth, k) <= (total(h) + depth)
            * denom(depth, total(w)),
    decreases depth, 1int, k,
{
    if k > 0 {
        lemma_best_branch_below_bounds(h, w, depth, k - 1);
        assert(h.subrange(0, k).drop_last() =~= h.subrange(0, k - 1));
        if h[k - 1] > 0 {
            lemma_branch_value_bounds(h, w, depth, k - 1);
        }
    } else {
        assert(h.subrange(0, 0).len() == 0);
    }
}

proof fn lemma_branch_value_bounds(h: Seq<u8>, w: Seq<u8>, depth: nat, k: int)
    requires
        valid_pair(h, w),
        total(w) >= depth,
        depth >= 1,
        0 <= k < 34,
        h[k] > 0,
    ensures
        0 <= branch_value(h, w, depth, k) <= (total(h) + depth) * denom(depth, total(w)),
    decreases depth, 0int, 0int,
{
    let d1 = (depth - 1) as nat;
    let ww = total(w);
    let h1 = remove_one(h, k);
    lemma_step_totals(h, w, k);
    lemma_total_nonneg(h1);
    lemma_draw_sum_bounds(h1, w, d1, 34);
    assert(w.subrange(0, 34) =~= w);
    lemma_denom_pos(d1, ww - 1);
    let dd = denom(d1, ww - 1);
    let sum = draw_sum(h1, w, d1, 34);
    let n = total(h);
    assert(0 <= sum <= (n + depth) * (ww * dd)) by (nonlinear_arith)
        requires
            0 <= sum <= ww * (((n - 1) + 1 + d1) * dd),
            depth == d1 + 1,
            ww >= 1,
            dd >= 1,
            n >= 1,
    ;
}

proof fn lemma_draw_sum_bounds(h: Seq<u8>, w: Seq<u8>, depth: nat, j: int)
    requires
        valid_pair(h, w),
        total(w) >= depth + 1,
        0 <= j <= 34,
    ensures
        0 <= draw_sum(h, w, depth, j) <= total(w.subrange(0, j)) * ((total(h) + 1 + depth) * denom(
            depth,
            total(w) - 1,
        )),
    decreases depth, 3int, j,
{
    let x = (total(h) + 1 + depth) * denom(depth, total(w) - 1);
    lemma_denom_pos(depth, total(w) - 1);
    lemma_total_nonneg(h);
    assert(x >= 0) by (nonlinear_arith)
        requires
            x == (total(h) + 1 + depth) * denom(depth, total(w) - 1),
            total(h) >= 0,
            denom(depth, total(w) - 1) >= 1,
    ;
    if j > 0 {
        lemma_draw_sum_bounds(h, w, depth, j - 1);
        assert(w.subrange(0, j).drop_last() =~= w.subrange(0, j - 1));
        let t0 = total(w.subrange(0, j - 1));
        let prev = draw_sum(h, w, depth, j - 1);
        if w[j - 1] > 0 {
            lemma_step_totals(h, w, j - 1);
            lemma_discard_value_bounds(add_one(h, j - 1), remove_one(w, j - 1), depth);
            let v = discard_value(add_one(h, j - 1), remove_one(w, j - 1), depth);
            let c = w[j - 1] as int;
            assert(0 <= prev + c * v <= (t0 + c) * x) by (nonlinear_arith)
                requires
                    0 <= prev <= t0 * x,
                    0 <= v <= x,
                    c >= 0,
            ;
        } else {
            assert(0 <= prev <= (t0 + w[j - 1]) * x) by (nonlinear_arith)
                requires
                    0 <= prev <= t0 * x,
                    w[j - 1] == 0,
            ;
        }
    }
}

proof fn lemma_prefix_total(s: Seq<u8>, j: int)
    requires
        0 <= j <= s.len(),
    ensures
        0 <= total(s.subrange(0, j)) <= total(s),
{
    assert(s =~= s.subrange(0, j) + s.subrange(j, s.len() as int));
    lemma_total_append(s.subrange(0, j), s.subrange(j, s.len() as int));
    lemma_total_nonneg(s.subrange(0, j));
    lemma_total_nonneg(s.subrange(j, s.len() as int));
}

/// `denom(depth, wall_size)`.
pub fn denominator(depth: usize, wall_size: usize) -> (r: u64)
    requires
        wall_size >= depth,
        denom(depth as nat, wall_size as int) <= u64::MAX,
    ensures
        r == denom(depth as nat, wall_size as int),
    decreases depth,
{
    if depth == 0 {
        1
    } else {
        proof {
            lemma_denom_pos((depth - 1) as nat, wall_size - 1);
            let d1 = denom((depth - 1) as nat, wall_size - 1);
            assert(d1 <= wall_size * d1) by (nonlinear_arith)
                requires
                    d1 >= 1,
                    wall_size >= 1,
            ;
        }
        let d1 = denominator(depth - 1, wall_size - 1);
        assert(denom(depth as nat, wall_size as int) == wall_size * d1);
        assert(wall_size <= wall_size * d1) by (nonlinear_arith)
            requires
                d1 >= 1,
                wall_size >= 1,
        ;
        (wall_size as u64) * d1
    }
}

/// Expected score, `depth` levels deeper, of drawing one tile from `wall`:
/// `num / den` with `den == total(wall) * denom(depth, total(wall) - 1)`.
/// Hand and wall are used as scratch space and restored.
pub fn draw_tile(hand: &mut TileSet, wall: &mut TileSet, depth: usize) -> (r: Ratio)
    requires
        valid_pair(old(hand)@, old(wall)@),
        total(old(wall)@) >= depth + 1,
        (total(old(hand)@) + depth + 2) * denom((depth + 1) as nat, total(old(wall)@)) <= u64::MAX,
    ensures
        r.num == draw_sum(old(hand)@, old(wall)@, depth as nat, 34),
        r.den == total(old(wall)@) * denom(depth as nat, total(old(wall)@) - 1),
        final(hand)@ == old(hand)@,
        final(wall)@ == old(wall)@,
    decreases depth, 2int,
{
    let ghost h0 = hand@;
    let ghost w0 = wall@;
    let ghost n = total(h0);
    let ghost x = (n + 1 + depth) * denom(depth as nat, total(w0) - 1);
    let w_size = wall.count();
    proof {
        lemma_total_nonneg(h0);
        lemma_denom_pos(depth as nat, w_size - 1);
        let dd = denom(depth as nat, w_size - 1);
        assert(x >= 0) by (nonlinear_arith)
            requires
                x == (n + 1 + depth) * dd,
                dd >= 1,
                n >= 0,
        ;
        assert(w_size * x <= (n + depth + 2) * (w_size * dd)) by (nonlinear_arith)
            requires
                x == (n + 1 + depth) * dd,
                dd >= 1,
                w_size >= 1,
                n >= 0,
        ;
        assert(w_size * dd <= w_size * x) by (nonlinear_arith)
            requires
                x == (n + 1 + depth) * dd,
                dd >= 1,
                w_size >= 1,
                n >= 0,
        ;
        assert(dd <= w_size * dd) by (nonlinear_arith)
            requires
                dd >= 1,
                w_size >= 1,
        ;
        assert(x <= w_size * x) by (nonlinear_arith)
            requires
                x >= 0,
                w_size >= 1,
        ;
    }
    let mut sum: u64 = 0;
    let mut i: usize = 0;
    while i < 34
        invariant
            i <= 34,
            h0 == old(hand)@,
            w0 == old(wall)@,
            hand@ == h0,
            wall@ == w0,
            valid_pair(h0, w0),
            w_size == total(w0),
            w_size >= depth + 1,
            n == total(h0),
            x == (n + 1 + depth) * denom(depth as nat, total(w0) - 1),
            w_size * x <= u64::MAX,
            0 <= x <= w_size * x,
            sum == draw_sum(h0, w0, depth as nat, i as int),
        decreases 34 - i,
    {
        proof {
            lemma_draw_sum_bounds(h0, w0, depth as nat, i + 1);
            lemma_prefix_total(w0, i + 1);
            let t = total(w0.subrange(0, i + 1));
            assert(t * x <= w_size * x) by (nonlinear_arith)
                requires
                    0 <= t <= w_size,
                    x >= 0,
            ;
        }
        if wall.tile(i) > 0 {
            *wall.tile_mut(i) -= 1;
            *hand.tile_mut(i) += 1;
            proof {
                lemma_step_totals(h0, w0, i as int);
                assert(hand@ =~= add_one(h0, i as int));
                assert(wall@ =~= remove_one(w0, i as int));
                let dd = denom(depth as nat, w_size - 1);
                assert((n + 1 + depth) * dd <= w_size * x);
            }
            let (score, _) = discard_tile(hand, wall, depth);
            *hand.tile_mut(i) -= 1;
            *wall.tile_mut(i) += 1;
            assert(hand@ =~= h0);
            assert(wall@ =~= w0);
            sum += wall.tile(i) as u64 * score.num;
        }
        i = i + 1;
    }
    let den = (w_size as u64) * denominator(depth, w_size - 1);
    Ratio { num: sum, den }
}

/// Exhaustive search of `depth` discard-and-draw turns. Returns the best
/// (lowest) expected number of tiles outside melds and the score of each kind
/// present in the hand, by kind; a complete hand, or depth 0, gives its
/// number of tiles outside melds and no candidates. Every score has the
/// denominator `denom(depth, total(wall))`. Hand and wall are used as scratch
/// space and restored.
pub fn discard_tile(hand: &mut TileSet, wall: &mut TileSet, depth: usize) -> (r: (Ratio, Vec<(usize, Ratio)>))
    requires
        valid_pair(old(hand)@, old(wall)@),
        total(old(wall)@) >= depth,
        (total(old(hand)@) + depth) * denom(depth as nat, total(old(wall)@)) <= u64::MAX,
    ensures
        r.0.num == discard_value(old(hand)@, old(wall)@, depth as nat),
        r.0.den == denom(depth as nat, total(old(wall)@)),
        r.1@ == candidates(old(hand)@, old(wall)@, depth as nat),
        final(hand)@ == old(hand)@,
        final(wall)@ == old(wall)@,
    decreases depth, 1int,
{
    let ghost h0 = hand@;
    let ghost w0 = wall@;
    let n_tiles = hand.count();
    let count = count_head_and_triad(hand, true);
    let w_size = wall.count();
    proof {
        lemma_decomposition_bounds(h0, true);
        lemma_denom_pos(depth as nat, w_size as int);
        let dd = denom(depth as nat, w_size as int);
        if n_tiles + depth >= 1 {
            assert(dd <= (n_tiles + depth) * dd) by (nonlinear_arith)
                requires
                    dd >= 1,
                    n_tiles + depth >= 1,
            ;
        }
        assert((n_tiles - count) * dd <= (n_tiles + depth) * dd) by (nonlinear_arith)
            requires
                dd >= 1,
                0 <= count <= n_tiles,
        ;
    }
    let den = denominator(depth, w_size);
    if count == n_tiles || depth == 0 {
        return (Ratio { num: ((n_tiles - count) as u64) * den, den }, Vec::new());
    }
    proof {
        assert(total(h0) > 0);
    }
    let mut best_score: u64 = u64::MAX;
    let mut discards: Vec<(usize, Ratio)> = Vec::new();
    let mut i: usize = 0;
    while i < 34
        invariant
            i <= 34,
            depth >= 1,
            h0 == old(hand)@,
            w0 == old(wall)@,
            hand@ == h0,
            wall@ == w0,
            valid_pair(h0, w0),
            w_size == total(w0),
            w_size >= depth,
            n_tiles == total(h0),
            den == denom(depth as nat, total(w0)),
            (n_tiles + depth) * den <= u64::MAX,
            best_score == best_branch_below(h0, w0, depth as nat, i as int),
            discards@ == candidates_below(h0, w0, depth as nat, i as int),
        decreases 34 - i,
    {
        if hand.tile(i) > 0 {
            *hand.tile_mut(i) -= 1;
            proof {
                lemma_step_totals(h0, w0, i as int);
                assert(hand@ =~= remove_one(h0, i as int));
                lemma_branch_value_bounds(h0, w0, depth as nat, i as int);
            }
            let d = draw_tile(hand, wall, depth - 1);
            let score = d.num;
            *hand.tile_mut(i) += 1;
            assert(hand@ =~= h0);
            discards.push((i, Ratio { num: score, den }));
            if score < best_score {
                best_score = score;
            }
        }
        i = i + 1;
    }
    (Ratio { num: best_score, den }, discards)
}

/// Lowest numerator among scored discards (`u64::MAX` if there are none).
pub open spec fn min_num(c: Seq<(usize, Ratio)>) -> int
    decreases c.len(),
{
    if c.len() == 0 {
        u64::MAX as int
    } else {
        min(min_num(c.drop_last()), c.last().1.num as int)
    }
}

proof fn lemma_best_is_min_candidate(h: Seq<u8>, w: Seq<u8>, depth: nat, k: int)
    requires
        valid_pair(h, w),
        total(w) >= depth,
        depth >= 1,
        0 <= k <= 34,
        (total(h) + depth) * denom(depth, total(w)) <= u64::MAX,
    ensures
        best_branch_below(h, w, depth, k) == min_num(candidates_below(h, w, depth, k)),
    decreases k,
{
    if k > 0 {
        lemma_best_is_min_candidate(h, w, depth, k - 1);
        if h[k - 1] > 0 {
            lemma_branch_value_bounds(h, w, depth, k - 1);
            lemma_best_branch_below_bounds(h, w, depth, k);
            let c = candidates_below(h, w, depth, k);
            assert(c.drop_last() == candidates_below(h, w, depth, k - 1));
        }
    }
}

/// Score of discarding one tile of kind `i`, on copies of hand and wall;
/// `None` where the hand holds no tile of that kind.
pub fn discard_branch(hand: &TileSet, wall: &TileSet, i: usize, depth: usize) -> (r: Option<(usize, Ratio)>)
    requires
        i < 34,
        depth >= 1,
        valid_pair(hand@, wall@),
        total(wall@) >= depth,
        (total(hand@) + depth) * denom(depth as nat, total(wall@)) <= u64::MAX,
    ensures
        hand@[i as int] == 0 ==> r is None,
        hand@[i as int] > 0 ==> r == Some(
            (i, Ratio {
                num: branch_value(hand@, wall@, depth as nat, i as int) as u64,
                den: denom(depth as nat, total(wall@)) as u64,
            }),
        ),
{
    if hand.tile(i) == 0 {
        return None;
    }
    let mut h = hand.clone();
    let mut w = wall.clone();
    let w_size = w.count();
    proof {
        lemma_total_nonneg(hand@);
        lemma_step_totals(hand@, wall@, i as int);
        lemma_branch_value_bounds(hand@, wall@, depth as nat, i as int);
        lemma_denom_pos(depth as nat, w_size as int);
        let dd = denom(depth as nat, w_size as int);
        assert(dd <= (total(hand@) + depth) * dd) by (nonlinear_arith)
            requires
                dd >= 1,
                total(hand@) + depth >= 1,
        ;
    }
    let den = denominator(depth, w_size);
    *h.tile_mut(i) -= 1;
    assert(h@ =~= remove_one(hand@, i as int));
    let d = draw_tile(&mut h, &mut w, depth - 1);
    Some((i, Ratio { num: d.num, den }))
}

/// Relies on rayon: `into_par_iter` over `0..34`, `filter_map` and `collect`
/// into a `Vec` keep the order of the range, and each worker runs
/// `discard_branch` on its own copies of hand and wall.
#[verifier::external_body]
fn par_discard_branches(hand: &TileSet, wall: &TileSet, depth: usize) -> (r: Vec<(usize, Ratio)>)
    requires
        depth >= 1,
        valid_pair(hand@, wall@),
        total(wall@) >= depth,
        (total(hand@) + depth) * denom(depth as nat, total(wall@)) <= u64::MAX,
    ensures
        r@ == candidates_below(hand@, wall@, depth as nat, 34),
{
    (0..34usize).into_par_iter().filter_map(|i| discard_branch(hand, wall, i, depth)).collect()
}

/// `discard_tile` with the discard branches scored concurrently. Returns
/// exactly what `discard_tile` returns.
pub fn discard_tile_parallel(hand: &mut TileSet, wall: &mut TileSet, depth: usize) -> (r: (Ratio, Vec<(usize, Ratio)>))
    requires
        valid_pair(old(hand)@, old(wall)@),
        total(old(wall)@) >= depth,
        (total(old(hand)@) + depth) * denom(depth as nat, total(old(wall)@)) <= u64::MAX,
    ensures
        r.0.num == discard_value(old(hand)@, old(wall)@, depth as nat),
        r.0.den == denom(depth as nat, total(old(wall)@)),
        r.1@ == candidates(old(hand)@, old(wall)@, depth as nat),
        final(hand)@ == old(hand)@,
        final(wall)@ == old(wall)@,
{
    let ghost h0 = hand@;
    let ghost w0 = wall@;
    let n_tiles = hand.count();
    let count = count_head_and_triad(hand, true);
    let w_size = wall.count();
    proof {
        lemma_decomposition_bounds(h0, true);
        lemma_denom_pos(depth as nat, w_size as int);
        let dd = denom(depth as nat, w_size as int);
        if n_tiles + depth >= 1 {
            assert(dd <= (n_tiles + depth) * dd) by (nonlinear_arith)
                requires
                    dd >= 1,
                    n_tiles + depth >= 1,
            ;
        }
        assert((n_tiles - count) * dd <= (n_tiles + depth) * dd) by (nonlinear_arith)
            requires
                dd >= 1,
                0 <= count <= n_tiles,
        ;
    }
    let den = denominator(depth, w_size);
    if count == n_tiles || depth == 0 {
        return (Ratio { num: ((n_tiles - count) as u64) * den, den }, Vec::new());
    }
    let discards = par_discard_branches(hand, wall, depth);
    proof {
        lemma_best_is_min_candidate(h0, w0, depth as nat, 34);
    }
    let mut best_score: u64 = u64::MAX;
    let mut j: usize = 0;
    while j < discards.len()
        invariant
            j <= discards@.len(),
            best_score == min_num(discards@.subrange(0, j as int)),
        decreases discards@.len() - j,
    {
        assert(discards@.subrange(0, j + 1).drop_last() =~= discards@.subrange(0, j as int));
        if discards[j].1.num < best_score {
            best_score = discards[j].1.num;
        }
        j = j + 1;
    }
    assert(discards@.subrange(0, discards@.len() as int) =~= discards@);
    (Ratio { num: best_score, den }, discards)
}

/// At depth 0 the best score is the number of tiles outside melds, over a
/// denominator of 1.
pub proof fn lemma_depth_zero_score(h: Seq<u8>, w: Seq<u8>)
    ensures
        discard_value(h, w, 0) == total(h) - decomposition(h, true),
        denom(0, total(w)) == 1,
        candidates(h, w, 0) == Seq::<(usize, Ratio)>::empty(),
{
}

/// Whether hand and wall together hold at most four copies of each kind.
pub fn is_valid_pair(hand: &TileSet, wall: &TileSet) -> (r: bool)
    ensures
        r == valid_pair(hand@, wall@),
{
    let mut i: usize = 0;
    while i < 34
        invariant
            i <= 34,
            forall|k: int| 0 <= k < i ==> hand@[k] + wall@[k] <= 4,
        decreases 34 - i,
    {
        if hand.tile(i) as u16 + wall.tile(i) as u16 > 4 {
            return false;
        }
        i = i + 1;
    }
    true
}

/// `denom(depth, wall_size)` where it fits in 64 bits, else `None`.
fn checked_denominator(depth: usize, wall_size: usize) -> (r: Option<u64>)
    requires
        wall_size >= depth,
    ensures
        denom(depth as nat, wall_size as int) <= u64::MAX ==> r == Some(denom(depth as nat, wall_size as int) as u64),
        denom(depth as nat, wall_size as int) > u64::MAX ==> r is None,
    decreases depth,
{
    if depth == 0 {
        return Some(1);
    }
    proof {
        lemma_denom_pos((depth - 1) as nat, wall_size - 1);
        let d1 = denom((depth - 1) as nat, wall_size - 1);
        assert(d1 <= wall_size * d1) by (nonlinear_arith)
            requires
                d1 >= 1,
                wall_size >= 1,
        ;
        assert(denom(depth as nat, wall_size as int) == wall_size * d1);
    }
    match checked_denominator(depth - 1, wall_size - 1) {
        None => None,
        Some(d1) => {
            if wall_size as u128 > u64::MAX as u128 {
                proof {
                    assert(wall_size <= wall_size * d1) by (nonlinear_arith)
                        requires
                            d1 >= 1,
                    ;
                }
                None
            } else {
                (wall_size as u64).checked_mul(d1)
            }
        },
    }
}

/// Whether `discard_tile` and `discard_tile_parallel` accept hand, wall and
/// depth: a valid pair, at least `depth` tiles in the wall, and scores that
/// fit in 64 bits.
pub fn search_fits(hand: &TileSet, wall: &TileSet, depth: usize) -> (r: bool)
    ensures
        r == (valid_pair(hand@, wall@) && total(wall@) >= depth && (total(hand@) + depth) * denom(
            depth as nat,
            total(wall@),
        ) <= u64::MAX),
{
    if !is_valid_pair(hand, wall) {
        return false;
    }
    let w_size = wall.count();
    if w_size < depth {
        return false;
    }
    let n_tiles = hand.count();
    proof {
        lemma_denom_pos(depth as nat, w_size as int);
        lemma_total_nonneg(hand@);
        lemma_total_nonneg(wall@);
    }
    match checked_denominator(depth, w_size) {
        None => {
            proof {
                let dd = denom(depth as nat, w_size as int);
                if n_tiles + depth >= 1 {
                    assert(dd <= (n_tiles + depth) * dd) by (nonlinear_arith)
                        requires
                            dd >= 1,
                            n_tiles + depth >= 1,
                    ;
                } else {
                    assert(depth == 0);
                }
            }
            false
        },
        Some(den) => {
            if n_tiles as u128 + depth as u128 > u64::MAX as u128 {
                proof {
                    let dd = denom(depth as nat, w_size as int);
                    assert(n_tiles + depth <= (n_tiles + depth) * dd) by (nonlinear_arith)
                        requires
                            dd >= 1,
                            n_tiles + depth >= 0,
                    ;
                }
                return false;
            }
            let m = (n_tiles as u64 + depth as u64).checked_mul(den);
            m.is_some()
        },
    }
}

} // verus!
