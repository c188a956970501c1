//! Monte-Carlo playouts: how many draws a hand one tile short of complete
//! needs, along random orders of the wall.
use crate::search::{remove_one, valid_pair};
use crate::tile::{
    count_head_and_triad, decomposition, lemma_decomposition_bounds, lemma_total_append,
    lemma_total_nonneg, lemma_view_len, total, TileSet,
};
use crate::uct::{
    budget, complete, drawn, lemma_total_at_most_four, playout, rollout_from, shuffle, tiles_below,
    wall_tiles,
};
use rand::rngs::StdRng;
use vstd::prelude::*;

verus! {

broadcast use lemma_view_len;

/// The hand with every tile of the wall drawn into it.
pub open spec fn with_wall(h: Seq<u8>, w: Seq<u8>) -> Seq<u8> {
    Seq::new(34, |k: int| (h[k] + w[k]) as u8)
}

/// Drawing the whole wall completes the hand, which is one tile short of
/// complete: otherwise no order of the wall completes it.
pub open spec fn wall_completes(h: Seq<u8>, w: Seq<u8>) -> bool {
    complete(with_wall(h, w), total(h) + 1)
}

/// Whether drawing the whole wall completes the hand (see `wall_completes`).
pub fn wall_completes_hand(hand: &TileSet, wall: &TileSet) -> (r: bool)
    requires
        valid_pair(hand@, wall@),
    ensures
        r == wall_completes(hand@, wall@),
{
    let mut all = TileSet::new();
    let mut k: usize = 0;
    while k < 34
        invariant
            k <= 34,
            valid_pair(hand@, wall@),
            forall|j: int| 0 <= j < k ==> all@[j] == hand@[j] + wall@[j],
        decreases 34 - k,
    {
        *all.tile_mut(k) = hand.tile(k) + wall.tile(k);
        k = k + 1;
    }
    assert(all@ =~= with_wall(hand@, wall@));
    proof {
        lemma_total_nonneg(hand@);
    }
    count_head_and_triad(&mut all, false) >= hand.count() + 1
}

/// Number of entries of `s` equal to `x`.
pub open spec fn count_in(s: Seq<usize>, x: int) -> int
    decreases s.len(),
{
    if s.len() == 0 {
        0
    } else {
        count_in(s.drop_last(), x) + if s.last() == x {
            1int
        } else {
            0
        }
    }
}

proof fn lemma_count_in_multiset(s: Seq<usize>, x: usize)
    ensures
        count_in(s, x as int) == s.to_multiset().count(x),
    decreases s.len(),
{
    broadcast use vstd::seq_lib::group_to_multiset_ensures;
    if s.len() > 0 {
        lemma_count_in_multiset(s.drop_last(), x);
        assert(s =~= s.drop_last().push(s.last()));
    }
}

proof fn lemma_count_in_append(a: Seq<usize>, b: Seq<usize>, x: int)
    ensures
        count_in(a + b, x) == count_in(a, x) + count_in(b, x),
    decreases b.len(),
{
    if b.len() > 0 {
        assert((a + b).drop_last() =~= a + b.drop_last());
        lemma_count_in_append(a, b.drop_last(), x);
    } else {
        assert(a + b =~= a);
    }
}

proof fn lemma_count_in_same(n: nat, v: usize, x: int)
    ensures
        count_in(Seq::new(n, |j: int| v), x) == if v == x { n as int } else { 0 },
    decreases n,
{
    if n > 0 {
        assert(Seq::new(n, |j: int| v).drop_last() =~= Seq::new((n - 1) as nat, |j: int| v));
        lemma_count_in_same((n - 1) as nat, v, x);
    }
}

proof fn lemma_count_in_nonneg(s: Seq<usize>, x: int)
    ensures
        0 <= count_in(s, x) <= s.len(),
    decreases s.len(),
{
    if s.len() > 0 {
        lemma_count_in_nonneg(s.drop_last(), x);
    }
}

proof fn lemma_tiles_count(w: Seq<u8>, k: int, x: int)
    requires
        w.len() == 34,
        0 <= k <= w.len(),
        0 <= x,
    ensures
        count_in(tiles_below(w, k), x) == if x < k { w[x] as int } else { 0 },
    decreases k,
{
    if k > 0 {
        assert(tiles_below(w, k) == tiles_below(w, k - 1) + Seq::new(w[k - 1] as nat, |j: int| (k - 1) as usize));
        lemma_tiles_count(w, k - 1, x);
        lemma_count_in_append(tiles_below(w, k - 1), Seq::new(w[k - 1] as nat, |j: int| (k - 1) as usize), x);
        lemma_count_in_same(w[k - 1] as nat, (k - 1) as usize, x);
    }
}

/// After drawing the last `m` tiles of `o`, each kind has gained as many
/// tiles as it has among them.
proof fn lemma_drawn_counts(h: Seq<u8>, o: Seq<usize>, m: int)
    requires
        h.len() == 34,
        0 <= m <= o.len(),
        forall|j: int| 0 <= j < o.len() ==> o[j] < 34,
        forall|k: int| 0 <= k < 34 ==> h[k] + o.len() <= 255,
    ensures
        drawn(h, o, m).len() == 34,
        forall|k: int|
            0 <= k < 34 ==> #[trigger] drawn(h, o, m)[k] == h[k] + count_in(
                o.subrange(o.len() - m, o.len() as int),
                k,
            ),
    decreases m,
{
    let len = o.len() as int;
    if m == 0 {
        assert forall|k: int| 0 <= k < 34 implies #[trigger] drawn(h, o, m)[k] == h[k] + count_in(
            o.subrange(len - m, len),
            k,
        ) by {
            assert(o.subrange(len, len).len() == 0);
        }
    } else {
        lemma_drawn_counts(h, o, m - 1);
        let t = o[len - m];
        let s0 = o.subrange(len - m + 1, len);
        let s1 = o.subrange(len - m, len);
        assert(s1 =~= seq![t] + s0);
        assert forall|k: int| 0 <= k < 34 implies #[trigger] drawn(h, o, m)[k] == h[k] + count_in(s1, k) by {
            lemma_count_in_append(seq![t], s0, k);
            assert(seq![t].drop_last() =~= Seq::<usize>::empty());
            assert(count_in(Seq::<usize>::empty(), k) == 0);
            assert(seq![t].last() == t);
            assert(count_in(seq![t], k) == count_in(seq![t].drop_last(), k) + if t == k { 1int } else { 0 });
            lemma_count_in_nonneg(s0, k);
            assert(drawn(h, o, m - 1)[k] == h[k] + count_in(s0, k));
            assert(drawn(h, o, m - 1)[t as int] == h[t as int] + count_in(s0, t as int));
            lemma_count_in_nonneg(s0, t as int);
        }
    }
}

/// A wall order that drawn whole completes the hand ends its rollout inside
/// the wall.
proof fn lemma_rollout_inside(h: Seq<u8>, w: Seq<u8>, o: Seq<usize>)
    requires
        valid_pair(h, w),
        wall_completes(h, w),
        o.to_multiset() == tiles_below(w, 34).to_multiset(),
        forall|j: int| 0 <= j < o.len() ==> o[j] < 34,
        o.len() == total(w),
        total(w) <= 136,
    ensures
        o.len() >= 1,
        complete(drawn(h, o, o.len() as int), total(h) + 1),
{
    lemma_drawn_counts(h, o, o.len() as int);
    assert(o.subrange(0, o.len() as int) =~= o);
    assert forall|k: int| 0 <= k < 34 implies #[trigger] drawn(h, o, o.len() as int)[k] == with_wall(h, w)[k] by {
        lemma_count_in_multiset(o, k as usize);
        lemma_count_in_multiset(tiles_below(w, 34), k as usize);
        lemma_tiles_count(w, 34, k);
    }
    assert(drawn(h, o, o.len() as int) =~= with_wall(h, w));
    lemma_decomposition_bounds(with_wall(h, w), false);
    assert(total(with_wall(h, w)) <= total(h) + total(w)) by {
        lemma_total_sum(h, w, 34);
        assert(h.subrange(0, 34) =~= h);
        assert(w.subrange(0, 34) =~= w);
        assert(with_wall(h, w).subrange(0, 34) =~= with_wall(h, w));
    }
}

proof fn lemma_total_sum(h: Seq<u8>, w: Seq<u8>, k: int)
    requires
        valid_pair(h, w),
        0 <= k <= 34,
    ensures
        total(with_wall(h, w).subrange(0, k)) == total(h.subrange(0, k)) + total(w.subrange(0, k)),
    decreases k,
{
    if k > 0 {
        lemma_total_sum(h, w, k - 1);
        assert(with_wall(h, w).subrange(0, k).drop_last() =~= with_wall(h, w).subrange(0, k - 1));
        assert(h.subrange(0, k).drop_last() =~= h.subrange(0, k - 1));
        assert(w.subrange(0, k).drop_last() =~= w.subrange(0, k - 1));
    }
}

/// Sum over `orders` of the index of the draw, from the back of each order,
/// that first completes `h` to `n` tiles (an order's length if none does).
pub open spec fn rollout_total(h: Seq<u8>, orders: Seq<Seq<usize>>, n: int) -> int
    decreases orders.len(),
{
    if orders.len() == 0 {
        0
    } else {
        rollout_total(h, orders.drop_last(), n) + rollout_from(h, orders.last(), n, 0)
    }
}

/// `r` is a playout sum for hand `h` and wall `w` over `budget(n_samples)`
/// wall orders: each order a permutation of the wall's tiles, each ending its
/// rollout inside the wall, and `r` the sum of their completing draws.
pub open spec fn playout_result(h: Seq<u8>, w: Seq<u8>, n_samples: usize, r: usize) -> bool {
    exists|orders: Seq<Seq<usize>>|
        {
            &&& orders.len() == budget(n_samples)
            &&& forall|e: int|
                0 <= e < budget(n_samples) ==> (#[trigger] orders[e]).to_multiset() == tiles_below(
                    w,
                    34,
                ).to_multiset()
            &&& forall|e: int|
                0 <= e < budget(n_samples) ==> rollout_from(h, #[trigger] orders[e], total(h) + 1, 0)
                    < total(w)
            &&& r == rollout_total(h, orders, total(h) + 1)
        }
}

/// Sum, over `n_samples` (at least one) independent uniformly random orders
/// of the tiles of `wall`, of the number of draws after the first that the
/// hand (one tile short of complete) takes to complete; an order that never
/// completes it, because even the whole wall does not, counts the wall's
/// size. The mean is the sum over `budget(n_samples)`.
pub fn playout_sum(hand: &TileSet, wall: &TileSet, n_samples: usize, rng: &mut StdRng) -> (r: usize)
    requires
        valid_pair(hand@, wall@),
        wall_completes(hand@, wall@),
        budget(n_samples) * total(wall@) <= usize::MAX,
    ensures
        r <= budget(n_samples) * (total(wall@) - 1),
        playout_result(hand@, wall@, n_samples, r),
{
    proof {
        lemma_total_at_most_four(wall@);
        lemma_total_nonneg(hand@);
    }
    let n_samples = if n_samples == 0 {
        1
    } else {
        n_samples
    };
    let n_tiles = hand.count() + 1;
    let mut acc: Vec<usize> = Vec::new();
    let mut sum: usize = 0;
    let mut e: usize = 0;
    let ghost mut orders: Seq<Seq<usize>> = Seq::empty();
    while e < n_samples
        invariant
            e <= n_samples,
            valid_pair(hand@, wall@),
            wall_completes(hand@, wall@),
            total(wall@) <= 136,
            n_samples * total(wall@) <= usize::MAX,
            n_tiles == total(hand@) + 1,
            sum <= e * (total(wall@) - 1),
            orders.len() == e,
            forall|f: int|
                0 <= f < e ==> (#[trigger] orders[f]).to_multiset() == tiles_below(wall@, 34).to_multiset(),
            forall|f: int|
                0 <= f < e ==> rollout_from(hand@, #[trigger] orders[f], total(hand@) + 1, 0) < total(wall@),
            sum == rollout_total(hand@, orders, total(hand@) + 1),
        decreases n_samples - e,
    {
        wall_tiles(wall, &mut acc);
        shuffle(&mut acc, rng);
        proof {
            broadcast use vstd::seq_lib::group_to_multiset_ensures;
            assert forall|j: int| 0 <= j < acc@.len() implies acc@[j] < 34 by {
                assert(acc@.to_multiset().count(acc@[j]) > 0);
            }
        }
        proof {
            lemma_rollout_inside(hand@, wall@, acc@);
        }
        let mut h = *hand;
        let i = playout(&mut h, &mut acc, n_tiles);
        proof {
            let w = total(wall@);
            assert(complete(drawn(hand@, acc@, (acc@.len() - 1) + 1), total(hand@) + 1));
            assert(i < w);
            assert(sum + i <= (e + 1) * (w - 1)) by (nonlinear_arith)
                requires
                    sum <= e * (w - 1),
                    i <= w - 1,
            ;
            assert((e + 1) * (w - 1) <= n_samples * w) by (nonlinear_arith)
                requires
                    e + 1 <= n_samples,
                    w >= 1,
            ;
            let prev = orders;
            orders = orders.push(acc@);
            assert(orders.drop_last() == prev);
        }
        sum = sum + i;
        e = e + 1;
    }
    sum
}

/// Samples that each discard receives out of `n_samples` shared among
/// `n_kinds` kinds: an equal share, at least one.
pub fn discard_budget(n_samples: usize, n_kinds: usize) -> (r: usize)
    requires
        n_kinds > 0,
    ensures
        r == if n_samples / n_kinds >= 1 { n_samples / n_kinds } else { 1 },
{
    let share = n_samples / n_kinds;
    if share >= 1 {
        share
    } else {
        1
    }
}

/// Samples that drawing a kind with `copies` copies receives out of
/// `n_samples` shared among the `wall_size` tiles of the wall: an equal share
/// per tile, at least one, for each copy.
pub fn draw_budget(n_samples: usize, wall_size: usize, copies: usize) -> (r: usize)
    requires
        wall_size > 0,
        copies <= wall_size,
    ensures
        r == copies * (if n_samples / wall_size >= 1 { n_samples / wall_size } else { 1 }),
{
    let share = if n_samples / wall_size >= 1 {
        n_samples / wall_size
    } else {
        1
    };
    proof {
        assert(wall_size * (n_samples / wall_size) <= n_samples) by (nonlinear_arith)
            requires
                wall_size > 0,
        ;
        assert(copies * share <= wall_size * share) by (nonlinear_arith)
            requires
                copies <= wall_size,
                share >= 1,
        ;
    }
    copies * share
}

/// Number of kinds below `j` present in the hand.
pub open spec fn kinds_below(h: Seq<u8>, j: int) -> int
    decreases j,
{
    if j <= 0 {
        0
    } else {
        kinds_below(h, j - 1) + if h[j - 1] > 0 {
            1int
        } else {
            0
        }
    }
}

proof fn lemma_kinds_below_bounds(h: Seq<u8>, j: int)
    requires
        0 <= j,
    ensures
        0 <= kinds_below(h, j) <= j,
    decreases j,
{
    if j > 0 {
        lemma_kinds_below_bounds(h, j - 1);
    }
}

/// The playout ranking at depth 0: for each kind present in the hand, by
/// kind, the kind and the playout sum of the hand without one tile of it,
/// each discard receiving `discard_budget(n_samples, kinds)` samples.
pub fn playout_discards(hand: &TileSet, wall: &TileSet, n_samples: usize, rng: &mut StdRng) -> (r: Vec<(usize, usize)>)
    requires
        valid_pair(hand@, wall@),
        forall|k: int| 0 <= k < 34 && hand@[k] > 0 ==> wall_completes(remove_one(hand@, k), wall@),
        budget(n_samples) * total(wall@) <= usize::MAX,
    ensures
        forall|j: int|
            0 <= j < r@.len() ==> {
                &&& r@[j].0 < 34
                &&& hand@[r@[j].0 as int] > 0
                &&& playout_result(
                    remove_one(hand@, r@[j].0 as int),
                    wall@,
                    (if n_samples / kinds_below(hand@, 34) as usize >= 1 {
                        n_samples / kinds_below(hand@, 34) as usize
                    } else {
                        1
                    }),
                    r@[j].1,
                )
            },
        forall|i: int, j: int| 0 <= i < j < r@.len() ==> r@[i].0 < r@[j].0,
        forall|k: int| 0 <= k < 34 && hand@[k] > 0 ==> exists|j: int| 0 <= j < r@.len() && (#[trigger] r@[j]).0 == k,
{
    let mut n_kinds: usize = 0;
    let mut i: usize = 0;
    while i < 34
        invariant
            i <= 34,
            n_kinds == kinds_below(hand@, i as int),
            n_kinds <= i,
        decreases 34 - i,
    {
        proof {
            lemma_kinds_below_bounds(hand@, i as int);
        }
        if hand.tile(i) > 0 {
            n_kinds = n_kinds + 1;
        }
        i = i + 1;
    }
    let mut out: Vec<(usize, usize)> = Vec::new();
    if n_kinds == 0 {
        proof {
            assert forall|k: int| 0 <= k < 34 implies hand@[k] == 0 by {
                lemma_no_kinds(hand@, 34, k);
            }
        }
        return out;
    }
    let share = discard_budget(n_samples, n_kinds);
    proof {
        lemma_total_nonneg(wall@);
        assert(budget(share) <= budget(n_samples)) by {
            assert(n_samples / n_kinds <= n_samples) by (nonlinear_arith)
                requires
                    n_kinds >= 1,
            ;
        }
        assert(budget(share) * total(wall@) <= budget(n_samples) * total(wall@)) by (nonlinear_arith)
            requires
                budget(share) <= budget(n_samples),
                total(wall@) >= 0,
        ;
        lemma_total_nonneg(wall@);
    }
    let mut k: usize = 0;
    while k < 34
        invariant
            k <= 34,
            valid_pair(hand@, wall@),
            forall|m: int| 0 <= m < 34 && hand@[m] > 0 ==> wall_completes(remove_one(hand@, m), wall@),
            budget(share) * total(wall@) <= usize::MAX,
            n_kinds == kinds_below(hand@, 34),
            share == (if n_samples / n_kinds >= 1 { n_samples / n_kinds } else { 1 }),
            forall|j: int|
                0 <= j < out@.len() ==> {
                    &&& out@[j].0 < k
                    &&& hand@[out@[j].0 as int] > 0
                    &&& playout_result(remove_one(hand@, out@[j].0 as int), wall@, share, out@[j].1)
                },
            forall|a: int, b: int| 0 <= a < b < out@.len() ==> out@[a].0 < out@[b].0,
            forall|m: int| 0 <= m < k && hand@[m] > 0 ==> exists|j: int| 0 <= j < out@.len() && (#[trigger] out@[j]).0 == m,
        decreases 34 - k,
    {
        if hand.tile(k) > 0 {
            let mut h = *hand;
            *h.tile_mut(k) -= 1;
            assert(h@ =~= remove_one(hand@, k as int));
            assert(valid_pair(h@, wall@));
            let sum = playout_sum(&h, wall, share, rng);
            let ghost before = out@;
            out.push((k, sum));
            assert(out@.drop_last() == before);
            assert(out@[before.len() as int].0 == k);
            assert forall|m: int| 0 <= m < k + 1 && hand@[m] > 0 implies exists|j: int|
                0 <= j < out@.len() && (#[trigger] out@[j]).0 == m by {
                if m < k {
                    let j = choose|j: int| 0 <= j < before.len() && (#[trigger] before[j]).0 == m;
                    assert(out@[j] == before[j]);
                } else {
                    assert(out@[before.len() as int].0 == m);
                }
            }
        }
        k = k + 1;
    }
    out
}

proof fn lemma_no_kinds(h: Seq<u8>, j: int, k: int)
    requires
        0 <= k < j,
        kinds_below(h, j) == 0,
    ensures
        h[k] == 0,
    decreases j,
{
    lemma_kinds_below_bounds(h, j - 1);
    if k < j - 1 {
        lemma_no_kinds(h, j - 1, k);
    }
}

} // verus!
