//! Meld selections: the decomposition weight is the largest weight of a
//! selection of non-overlapping triads and at most one pair that a hand holds.
use crate::runs::{is_run_start, lemma_best_pair_at_least};
use crate::tile::{
    best_pair_below, can_run, can_triplet, decomposition, headless_weight, honor_triads, honors,
    lemma_headless_weight_bounds, lemma_suit_triads_bounds, lemma_take_total, lemma_total_append, lemma_total_nonneg,
    lemma_total_update, max, pair_gain, suit, suit_triads, take_run, take_triplet, total,
};
use vstd::prelude::*;

verus! {

/// Copies of kind `k` that a selection uses: one for each run that starts at
/// `k`, or one or two ranks below it in the same suit, three for each
/// triplet, two for the pair.
pub open spec fn usage(runs: Seq<u8>, triplets: Seq<u8>, pair: Option<int>, k: int) -> int {
    runs[k] + (if k % 9 >= 1 {
        runs[k - 1] as int
    } else {
        0
    }) + (if k % 9 >= 2 {
        runs[k - 2] as int
    } else {
        0
    }) + 3 * triplets[k] + (if pair == Some(k) {
        2int
    } else {
        0
    })
}

/// A selection of runs (counted by their lowest kind), triplets (by kind) and
/// at most one pair that the hand `h` holds.
pub open spec fn fits(h: Seq<u8>, runs: Seq<u8>, triplets: Seq<u8>, pair: Option<int>) -> bool {
    &&& h.len() == 34
    &&& runs.len() == 34
    &&& triplets.len() == 34
    &&& forall|k: int| 0 <= k < 34 && !is_run_start(k) ==> runs[k] == 0
    &&& pair matches Some(p) ==> 0 <= p < 34
    &&& forall|k: int| 0 <= k < 34 ==> usage(runs, triplets, pair, k) <= h[k]
}

/// Weight of a selection: 3 per triad, 2 for the pair.
pub open spec fn selection_weight(runs: Seq<u8>, triplets: Seq<u8>, pair: Option<int>) -> int {
    3 * (total(runs) + total(triplets)) + if pair is Some {
        2int
    } else {
        0
    }
}

/// Runs `rc` and triplets `tc` (by rank) fit in the suit `s`.
pub open spec fn suit_fits(s: Seq<u8>, rc: Seq<u8>, tc: Seq<u8>) -> bool {
    &&& s.len() == 9
    &&& rc.len() == 9
    &&& tc.len() == 9
    &&& forall|i: int| 7 <= i < 9 ==> rc[i] == 0
    &&& forall|j: int|
        0 <= j < 9 ==> s[j] >= rc[j] + (if j >= 1 {
            rc[j - 1] as int
        } else {
            0
        }) + (if j >= 2 {
            rc[j - 2] as int
        } else {
            0
        }) + 3 * tc[j]
}

proof fn lemma_total_zero(s: Seq<u8>)
    requires
        forall|i: int| 0 <= i < s.len() ==> s[i] == 0,
    ensures
        total(s) == 0,
    decreases s.len(),
{
    if s.len() > 0 {
        lemma_total_zero(s.drop_last());
    }
}

/// A suit's triad weight from rank `i0` on is at least the weight of any
/// runs and triplets that fit in it and start at `i0` or later.
proof fn lemma_suit_bound(s: Seq<u8>, rc: Seq<u8>, tc: Seq<u8>, i0: int)
    requires
        suit_fits(s, rc, tc),
        0 <= i0 <= 9,
        forall|i: int| 0 <= i < i0 ==> rc[i] == 0 && tc[i] == 0,
    ensures
        suit_triads(s, i0) >= 3 * (total(rc) + total(tc)),
    decreases total(rc) + total(tc), 9 - i0,
{
    lemma_total_nonneg(rc);
    lemma_total_nonneg(tc);
    lemma_take_total(s, i0);
    if i0 >= 9 {
        lemma_total_zero(rc);
        lemma_total_zero(tc);
    } else if rc[i0] > 0 {
        assert(can_run(s, i0)) by {
            assert(s[i0] >= rc[i0]);
            assert(s[i0 + 1] >= rc[i0 + 1] + rc[i0]);
            assert(s[i0 + 2] >= rc[i0 + 2] + rc[i0 + 1] + rc[i0]);
        }
        let rc1 = rc.update(i0, (rc[i0] - 1) as u8);
        lemma_total_update(rc, i0, (rc[i0] - 1) as u8);
        lemma_total_nonneg(rc1);
        let s1 = take_run(s, i0);
        assert(suit_fits(s1, rc1, tc));
        lemma_suit_bound(s1, rc1, tc, i0);
    } else if tc[i0] > 0 {
        assert(can_triplet(s, i0));
        let tc1 = tc.update(i0, (tc[i0] - 1) as u8);
        lemma_total_update(tc, i0, (tc[i0] - 1) as u8);
        lemma_total_nonneg(tc1);
        let s1 = take_triplet(s, i0);
        assert(suit_fits(s1, rc, tc1));
        lemma_suit_bound(s1, rc, tc1, i0);
    } else {
        lemma_suit_bound(s, rc, tc, i0 + 1);
    }
}

/// Runs and triplets from rank `i0` on that fit in the suit and weigh exactly
/// the suit's triad weight.
proof fn lemma_suit_attained(s: Seq<u8>, i0: int) -> (r: (Seq<u8>, Seq<u8>))
    requires
        s.len() == 9,
        0 <= i0 <= 9,
    ensures
        suit_fits(s, r.0, r.1),
        forall|i: int| 0 <= i < i0 ==> r.0[i] == 0 && r.1[i] == 0,
        3 * (total(r.0) + total(r.1)) == suit_triads(s, i0),
    decreases total(s), 9 - i0,
{
    lemma_take_total(s, i0);
    if i0 >= 9 {
        let z = Seq::new(9, |i: int| 0u8);
        lemma_total_zero(z);
        (z, z)
    } else {
        let skip = suit_triads(s, i0 + 1);
        let run = if can_run(s, i0) {
            suit_triads(take_run(s, i0), i0) + 3
        } else {
            0
        };
        let triplet = if can_triplet(s, i0) {
            suit_triads(take_triplet(s, i0), i0) + 3
        } else {
            0
        };
        let best = suit_triads(s, i0);
        assert(best == max(max(skip, run), triplet));
        lemma_suit_triads_bounds(s, i0 + 1);
        if can_run(s, i0) && best == run {
            let (rc, tc) = lemma_suit_attained(take_run(s, i0), i0);
            let rc1 = rc.update(i0, (rc[i0] + 1) as u8);
            lemma_total_update(rc, i0, (rc[i0] + 1) as u8);
            assert(suit_fits(s, rc1, tc));
            (rc1, tc)
        } else if can_triplet(s, i0) && best == triplet {
            let (rc, tc) = lemma_suit_attained(take_triplet(s, i0), i0);
            let tc1 = tc.update(i0, (tc[i0] + 1) as u8);
            lemma_total_update(tc, i0, (tc[i0] + 1) as u8);
            assert(suit_fits(s, rc, tc1));
            (rc, tc1)
        } else {
            lemma_suit_attained(s, i0 + 1)
        }
    }
}

/// Honor triplets `tc` that fit in the honors `s` weigh at most their triad weight.
proof fn lemma_honor_bound(s: Seq<u8>, tc: Seq<u8>)
    requires
        s.len() == tc.len(),
        forall|j: int| 0 <= j < s.len() ==> 3 * tc[j] <= s[j],
    ensures
        honor_triads(s) >= 3 * total(tc),
    decreases s.len(),
{
    if s.len() > 0 {
        lemma_honor_bound(s.drop_last(), tc.drop_last());
    }
}

/// Honor triplets, as many of each kind as it has copies, weigh exactly the
/// honors' triad weight.
proof fn lemma_honor_attained(s: Seq<u8>)
    ensures
        3 * total(Seq::new(s.len(), |j: int| (s[j] / 3) as u8)) == honor_triads(s),
    decreases s.len(),
{
    if s.len() > 0 {
        lemma_honor_attained(s.drop_last());
        assert(Seq::new(s.len(), |j: int| (s[j] / 3) as u8).drop_last() =~= Seq::new(
            s.drop_last().len(),
            |j: int| (s.drop_last()[j] / 3) as u8,
        ));
    }
}

/// The hand with the selection's pair taken out.
pub open spec fn without_pair(h: Seq<u8>, pair: Option<int>) -> Seq<u8> {
    match pair {
        Some(p) => h.update(p, (h[p] - 2) as u8),
        None => h,
    }
}

proof fn lemma_groups_fit(h: Seq<u8>, runs: Seq<u8>, triplets: Seq<u8>, pair: Option<int>)
    requires
        fits(h, runs, triplets, pair),
    ensures
        forall|t: int|
            0 <= t < 3 ==> suit_fits(
                #[trigger] suit(without_pair(h, pair), t),
                runs.subrange(9 * t, 9 * t + 9),
                triplets.subrange(9 * t, 9 * t + 9),
            ),
        forall|j: int|
            0 <= j < 7 ==> 3 * triplets.subrange(27, 34)[j] <= #[trigger] honors(without_pair(h, pair))[j],
        forall|j: int| 0 <= j < 7 ==> #[trigger] runs.subrange(27, 34)[j] == 0,
{
    let h1 = without_pair(h, pair);
    assert forall|t: int|
        0 <= t < 3 implies suit_fits(
        #[trigger] suit(h1, t),
        runs.subrange(9 * t, 9 * t + 9),
        triplets.subrange(9 * t, 9 * t + 9),
    ) by {
        let s = suit(h1, t);
        let rc = runs.subrange(9 * t, 9 * t + 9);
        let tc = triplets.subrange(9 * t, 9 * t + 9);
        assert forall|i: int| 7 <= i < 9 implies rc[i] == 0 by {
            assert(!is_run_start(9 * t + i));
        }
        assert forall|j: int|
            0 <= j < 9 implies s[j] >= rc[j] + (if j >= 1 {
            rc[j - 1] as int
        } else {
            0
        }) + (if j >= 2 {
            rc[j - 2] as int
        } else {
            0
        }) + 3 * tc[j] by {
            let k = 9 * t + j;
            assert(k % 9 == j);
            assert(usage(runs, triplets, pair, k) <= h[k]);
        }
    }
    assert forall|j: int| 0 <= j < 7 implies 3 * triplets.subrange(27, 34)[j] <= #[trigger] honors(h1)[j] by {
        assert(usage(runs, triplets, pair, 27 + j) <= h[27 + j]);
        assert(!is_run_start(27 + j));
        if j >= 1 {
            assert(!is_run_start(26 + j));
        }
        if j >= 2 {
            assert(!is_run_start(25 + j));
        }
    }
    assert forall|j: int| 0 <= j < 7 implies #[trigger] runs.subrange(27, 34)[j] == 0 by {
        assert(!is_run_start(27 + j));
    }
}

proof fn lemma_total_groups(s: Seq<u8>)
    requires
        s.len() == 34,
    ensures
        total(s) == total(s.subrange(0, 9)) + total(s.subrange(9, 18)) + total(s.subrange(18, 27)) + total(
            s.subrange(27, 34),
        ),
{
    assert(s =~= s.subrange(0, 9) + s.subrange(9, 18) + s.subrange(18, 27) + s.subrange(27, 34));
    lemma_total_append(s.subrange(0, 9), s.subrange(9, 18));
    lemma_total_append(s.subrange(0, 9) + s.subrange(9, 18), s.subrange(18, 27));
    lemma_total_append(s.subrange(0, 9) + s.subrange(9, 18) + s.subrange(18, 27), s.subrange(27, 34));
}

/// Every selection of triads and at most one pair that the hand holds weighs
/// at most the hand's decomposition weight; a selection without a pair counts
/// where `allow_headless` holds.
pub proof fn lemma_decomposition_is_upper_bound(
    h: Seq<u8>,
    runs: Seq<u8>,
    triplets: Seq<u8>,
    pair: Option<int>,
    allow_headless: bool,
)
    requires
        fits(h, runs, triplets, pair),
        pair is Some || allow_headless,
    ensures
        selection_weight(runs, triplets, pair) <= decomposition(h, allow_headless),
{
    let h1 = without_pair(h, pair);
    lemma_groups_fit(h, runs, triplets, pair);
    assert forall|t: int|
        0 <= t < 3 implies suit_triads(#[trigger] suit(h1, t), 0) >= 3 * (total(
        runs.subrange(9 * t, 9 * t + 9),
    ) + total(triplets.subrange(9 * t, 9 * t + 9))) by {
        lemma_suit_bound(suit(h1, t), runs.subrange(9 * t, 9 * t + 9), triplets.subrange(9 * t, 9 * t + 9), 0);
    }
    assert(suit(h1, 0) == suit(h1, 0));
    assert(suit(h1, 1) == suit(h1, 1));
    assert(suit(h1, 2) == suit(h1, 2));
    lemma_honor_bound(honors(h1), triplets.subrange(27, 34));
    lemma_total_zero(runs.subrange(27, 34));
    lemma_total_groups(runs);
    lemma_total_groups(triplets);
    lemma_headless_weight_bounds(h);
    match pair {
        Some(p) => {
            assert(usage(runs, triplets, pair, p) <= h[p]);
            assert(h[p] >= 2);
            assert(pair_gain(h, p) == headless_weight(h1) + 2);
            lemma_best_pair_at_least(h, p, 34);
        },
        None => {},
    }
}

/// Triads without a pair that the hand holds and that weigh exactly its
/// headless weight.
proof fn lemma_headless_attained(h: Seq<u8>) -> (r: (Seq<u8>, Seq<u8>))
    requires
        h.len() == 34,
    ensures
        fits(h, r.0, r.1, None),
        3 * (total(r.0) + total(r.1)) == headless_weight(h),
{
    let (r0, t0) = lemma_suit_attained(suit(h, 0), 0);
    let (r1, t1) = lemma_suit_attained(suit(h, 1), 0);
    let (r2, t2) = lemma_suit_attained(suit(h, 2), 0);
    let hs = honors(h);
    let th = Seq::new(hs.len(), |j: int| (hs[j] / 3) as u8);
    lemma_honor_attained(hs);
    let z = Seq::new(7, |j: int| 0u8);
    lemma_total_zero(z);
    let rc = r0 + r1 + r2 + z;
    let tc = t0 + t1 + t2 + th;
    assert(rc.subrange(0, 9) =~= r0 && rc.subrange(9, 18) =~= r1 && rc.subrange(18, 27) =~= r2
        && rc.subrange(27, 34) =~= z);
    assert(tc.subrange(0, 9) =~= t0 && tc.subrange(9, 18) =~= t1 && tc.subrange(18, 27) =~= t2
        && tc.subrange(27, 34) =~= th);
    lemma_total_groups(rc);
    lemma_total_groups(tc);
    assert forall|k: int| 0 <= k < 34 && !is_run_start(k) implies rc[k] == 0 by {
        if k < 9 {
            assert(rc[k] == r0[k]);
        } else if k < 18 {
            assert(rc[k] == r1[k - 9]);
        } else if k < 27 {
            assert(rc[k] == r2[k - 18]);
        }
    }
    assert forall|k: int| 0 <= k < 34 implies usage(rc, tc, None, k) <= h[k] by {
        let j = k % 9;
        if k < 9 {
            assert(suit(h, 0)[j] == h[k]);
            assert(rc[k] == r0[j] && tc[k] == t0[j]);
            if j >= 1 {
                assert(rc[k - 1] == r0[j - 1]);
            }
            if j >= 2 {
                assert(rc[k - 2] == r0[j - 2]);
            }
        } else if k < 18 {
            assert(suit(h, 1)[j] == h[k]);
            assert(rc[k] == r1[j] && tc[k] == t1[j]);
            if j >= 1 {
                assert(rc[k - 1] == r1[j - 1]);
            }
            if j >= 2 {
                assert(rc[k - 2] == r1[j - 2]);
            }
        } else if k < 27 {
            assert(suit(h, 2)[j] == h[k]);
            assert(rc[k] == r2[j] && tc[k] == t2[j]);
            if j >= 1 {
                assert(rc[k - 1] == r2[j - 1]);
            }
            if j >= 2 {
                assert(rc[k - 2] == r2[j - 2]);
            }
        } else {
            assert(hs[k - 27] == h[k]);
            assert(rc[k] == 0 && tc[k] == th[k - 27]);
            if j >= 1 {
                assert(rc[k - 1] == 0);
            }
            if j >= 2 {
                assert(rc[k - 2] == 0);
            }
        }
    }
    (rc, tc)
}

/// A kind whose pair gives the best pair gain below `k`, where any pair does.
proof fn lemma_best_pair_witness(h: Seq<u8>, k: int) -> (p: int)
    requires
        0 <= k <= h.len(),
    ensures
        best_pair_below(h, k) >= 0,
        best_pair_below(h, k) > 0 ==> 0 <= p < k && h[p] >= 2 && pair_gain(h, p) == best_pair_below(h, k),
    decreases k,
{
    if k == 0 {
        0
    } else {
        let p0 = lemma_best_pair_witness(h, k - 1);
        if h[k - 1] >= 2 {
            lemma_headless_weight_bounds(h.update(k - 1, (h[k - 1] - 2) as u8));
        }
        if h[k - 1] >= 2 && pair_gain(h, k - 1) >= best_pair_below(h, k - 1) {
            k - 1
        } else {
            p0
        }
    }
}

/// The decomposition weight is the weight of a selection that the hand holds:
/// with a pair, or without one where `allow_headless` holds; where neither is
/// possible, the weight is 0.
pub proof fn lemma_decomposition_is_attained(h: Seq<u8>, allow_headless: bool) -> (r: (
    Seq<u8>,
    Seq<u8>,
    Option<int>,
))
    requires
        h.len() == 34,
    ensures
        fits(h, r.0, r.1, r.2),
        r.2 is Some || allow_headless ==> selection_weight(r.0, r.1, r.2) == decomposition(
            h,
            allow_headless,
        ),
        r.2 is None && !allow_headless ==> decomposition(h, allow_headless) == 0,
{
    lemma_headless_weight_bounds(h);
    let pb = best_pair_below(h, 34);
    let p = lemma_best_pair_witness(h, 34);
    if allow_headless && headless_weight(h) >= pb {
        let (rc, tc) = lemma_headless_attained(h);
        (rc, tc, None)
    } else if pb == 0 {
        let z = Seq::new(34, |k: int| 0u8);
        lemma_total_zero(z);
        assert forall|k: int| 0 <= k < 34 implies usage(z, z, None, k) <= h[k] by {}
        (z, z, None)
    } else {
        let h1 = h.update(p, (h[p] - 2) as u8);
        let (rc, tc) = lemma_headless_attained(h1);
        assert forall|k: int| 0 <= k < 34 implies usage(rc, tc, Some(p), k) <= h[k] by {
            assert(usage(rc, tc, None, k) <= h1[k]);
        }
        (rc, tc, Some(p))
    }
}

} // verus!
