//! Hands made of runs and a pair are complete.
use crate::tile::{
    best_pair_below, can_run, decomposition, headless_weight, honor_triads, honors,
    lemma_decomposition_bounds, lemma_honor_triads_bounds, lemma_suit_triads_bounds,
    lemma_total_nonneg, lemma_total_update, max, pair_gain, suit, suit_triads, take_run, total,
};
use vstd::prelude::*;

verus! {

/// The lowest kind of a run: a suit rank from 1 to 7.
pub open spec fn is_run_start(k: int) -> bool {
    0 <= k < 27 && k % 9 <= 6
}

/// Number of the runs `runs` (each given by its lowest kind) that hold kind `k`.
pub open spec fn run_cover(runs: Seq<int>, k: int) -> int
    decreases runs.len(),
{
    if runs.len() == 0 {
        0
    } else {
        run_cover(runs.drop_last(), k) + if runs.last() <= k <= runs.last() + 2 {
            1int
        } else {
            0int
        }
    }
}

/// Number of the runs `runs` that start at kind `k`.
pub open spec fn runs_at(runs: Seq<int>, k: int) -> int
    decreases runs.len(),
{
    if runs.len() == 0 {
        0
    } else {
        runs_at(runs.drop_last(), k) + if runs.last() == k {
            1int
        } else {
            0int
        }
    }
}

/// The hand made of the runs `runs` and, where `p` is a kind, a pair of kind `p`.
pub open spec fn runs_and_pair(runs: Seq<int>, p: int) -> Seq<u8> {
    Seq::new(
        34,
        |k: int|
            (run_cover(runs, k) + if k == p {
                2int
            } else {
                0
            }) as u8,
    )
}

/// Run starts of suit `t`, by rank.
pub open spec fn suit_starts(runs: Seq<int>, t: int) -> Seq<u8> {
    Seq::new(
        9,
        |i: int|
            if i <= 6 {
                runs_at(runs, 9 * t + i) as u8
            } else {
                0u8
            },
    )
}

proof fn lemma_run_counts(runs: Seq<int>)
    requires
        forall|j: int| 0 <= j < runs.len() ==> is_run_start(runs[j]),
    ensures
        forall|k: int| 0 <= #[trigger] run_cover(runs, k) <= runs.len(),
        forall|k: int| 0 <= #[trigger] runs_at(runs, k) <= runs.len(),
        forall|t: int, j: int|
            0 <= t < 3 && 0 <= j < 9 ==> #[trigger] run_cover(runs, 9 * t + j) == runs_at(runs, 9 * t + j)
                + (if j >= 1 {
                runs_at(runs, 9 * t + j - 1)
            } else {
                0
            }) + (if j >= 2 {
                runs_at(runs, 9 * t + j - 2)
            } else {
                0
            }),
        forall|t: int, j: int| 0 <= t < 3 && 7 <= j < 9 ==> #[trigger] runs_at(runs, 9 * t + j) == 0,
    decreases runs.len(),
{
    if runs.len() > 0 {
        let d = runs.drop_last();
        lemma_run_counts(d);
        let r = runs.last();
        assert(is_run_start(r));
        assert forall|k: int| 0 <= #[trigger] run_cover(runs, k) <= runs.len() by {
            assert(0 <= run_cover(d, k) <= d.len());
        }
        assert forall|k: int| 0 <= #[trigger] runs_at(runs, k) <= runs.len() by {
            assert(0 <= runs_at(d, k) <= d.len());
        }
        assert forall|t: int, j: int| 0 <= t < 3 && 0 <= j < 9 implies #[trigger] run_cover(
            runs,
            9 * t + j,
        ) == runs_at(runs, 9 * t + j) + (if j >= 1 {
            runs_at(runs, 9 * t + j - 1)
        } else {
            0
        }) + (if j >= 2 {
            runs_at(runs, 9 * t + j - 2)
        } else {
            0
        }) by {
            let k = 9 * t + j;
            assert(run_cover(d, k) == runs_at(d, k) + (if j >= 1 {
                runs_at(d, k - 1)
            } else {
                0
            }) + (if j >= 2 {
                runs_at(d, k - 2)
            } else {
                0
            }));
            if j == 0 {
                assert(r != k - 1 && r != k - 2);
            } else if j == 1 {
                assert(r != k - 2);
            }
        }
        assert forall|t: int, j: int| 0 <= t < 3 && 7 <= j < 9 implies #[trigger] runs_at(runs, 9 * t + j) == 0 by {
            assert(runs_at(d, 9 * t + j) == 0);
            assert(r != 9 * t + j);
        }
    }
}

/// The run starts of the three suits add up to the number of runs.
proof fn lemma_suit_starts_total(runs: Seq<int>)
    requires
        forall|j: int| 0 <= j < runs.len() ==> is_run_start(runs[j]),
        runs.len() <= 255,
    ensures
        total(suit_starts(runs, 0)) + total(suit_starts(runs, 1)) + total(suit_starts(runs, 2)) == runs.len(),
    decreases runs.len(),
{
    lemma_run_counts(runs);
    if runs.len() == 0 {
        assert forall|t: int| 0 <= t < 3 implies total(#[trigger] suit_starts(runs, t)) == 0 by {
            lemma_total_zero(suit_starts(runs, t));
        }
    } else {
        let d = runs.drop_last();
        let r = runs.last();
        lemma_run_counts(d);
        lemma_suit_starts_total(d);
        let t = r / 9;
        let i = r % 9;
        assert(is_run_start(r));
        assert(suit_starts(runs, t) =~= suit_starts(d, t).update(i, (suit_starts(d, t)[i] + 1) as u8));
        lemma_total_update(suit_starts(d, t), i, (suit_starts(d, t)[i] + 1) as u8);
        assert forall|u: int| 0 <= u < 3 && u != t implies #[trigger] suit_starts(runs, u) == suit_starts(d, u) by {
            assert(suit_starts(runs, u) =~= suit_starts(d, u));
        }
    }
}

proof fn lemma_total_zero(s: Seq<u8>)
    requires
        forall|i: int| 0 <= i < s.len() ==> s[i] == 0,
    ensures
        total(s) == 0,
    decreases s.len(),
{
    if s.len() > 0 {
        lemma_total_zero(s.drop_last());
    }
}

/// A suit holding the runs counted by `rc` (runs starting at each rank, none
/// below `i0`) has a triad weight of at least three per run.
proof fn lemma_runs_lower_bound(s: Seq<u8>, rc: Seq<u8>, i0: int)
    requires
        s.len() == 9,
        rc.len() == 9,
        0 <= i0 <= 9,
        forall|i: int| 0 <= i < 9 && (i < i0 || i > 6) ==> rc[i] == 0,
        forall|j: int|
            0 <= j < 9 ==> s[j] >= rc[j] + (if j >= 1 {
                rc[j - 1]
            } else {
                0
            }) + (if j >= 2 {
                rc[j - 2]
            } else {
                0
            }),
    ensures
        suit_triads(s, i0) >= 3 * total(rc),
    decreases total(rc), 9 - i0,
{
    lemma_suit_triads_bounds(s, i0);
    lemma_total_nonneg(rc);
    if i0 >= 9 {
        lemma_total_zero(rc);
    } else if rc[i0] == 0 {
        lemma_runs_lower_bound(s, rc, i0 + 1);
    } else {
        assert(can_run(s, i0)) by {
            assert(s[i0] >= rc[i0]);
            assert(s[i0 + 1] >= rc[i0 + 1] + rc[i0]);
            assert(s[i0 + 2] >= rc[i0 + 2] + rc[i0 + 1] + rc[i0]);
        }
        let rc1 = rc.update(i0, (rc[i0] - 1) as u8);
        lemma_total_update(rc, i0, (rc[i0] - 1) as u8);
        lemma_total_nonneg(rc1);
        let s1 = take_run(s, i0);
        assert forall|j: int|
            0 <= j < 9 implies s1[j] >= rc1[j] + (if j >= 1 {
                rc1[j - 1]
            } else {
                0
            }) + (if j >= 2 {
                rc1[j - 2]
            } else {
                0
            }) by {}
        lemma_runs_lower_bound(s1, rc1, i0);
    }
}

pub(crate) proof fn lemma_best_pair_at_least(h: Seq<u8>, p: int, k: int)
    requires
        0 <= p < k,
    ensures
        best_pair_below(h, k) >= pair_gain(h, p),
    decreases k,
{
    if p < k - 1 {
        lemma_best_pair_at_least(h, p, k - 1);
    }
}

/// Four runs and a pair make a complete hand: its decomposition weight is its
/// size, 14.
pub proof fn lemma_four_runs_and_pair_complete(runs: Seq<int>, p: int, allow_headless: bool)
    requires
        runs.len() == 4,
        forall|j: int| 0 <= j < runs.len() ==> is_run_start(runs[j]),
        0 <= p < 34,
    ensures
        total(runs_and_pair(runs, p)) == 14,
        decomposition(runs_and_pair(runs, p), allow_headless) == 14,
{
    let h = runs_and_pair(runs, p);
    let ro = runs_and_pair(runs, -1);
    lemma_run_counts(runs);
    lemma_suit_starts_total(runs);
    assert forall|t: int| 0 <= t < 3 implies suit_triads(#[trigger] suit(ro, t), 0) >= 3 * total(
        suit_starts(runs, t),
    ) by {
        let s = suit(ro, t);
        let rc = suit_starts(runs, t);
        assert forall|j: int|
            0 <= j < 9 implies s[j] >= rc[j] + (if j >= 1 {
                rc[j - 1]
            } else {
                0
            }) + (if j >= 2 {
                rc[j - 2]
            } else {
                0
            }) by {
            assert(run_cover(runs, 9 * t + j) == runs_at(runs, 9 * t + j) + (if j >= 1 {
                runs_at(runs, 9 * t + j - 1)
            } else {
                0
            }) + (if j >= 2 {
                runs_at(runs, 9 * t + j - 2)
            } else {
                0
            }));
        }
        lemma_runs_lower_bound(s, rc, 0);
    }
    lemma_honor_triads_bounds(honors(ro));
    assert(h.update(p, (h[p] - 2) as u8) =~= ro);
    assert(pair_gain(h, p) >= 14);
    lemma_best_pair_at_least(h, p, 34);
    lemma_total_runs_and_pair(runs, p);
    lemma_decomposition_bounds(h, allow_headless);
}

proof fn lemma_total_runs_and_pair(runs: Seq<int>, p: int)
    requires
        runs.len() <= 4,
        forall|j: int| 0 <= j < runs.len() ==> is_run_start(runs[j]),
        0 <= p < 34,
    ensures
        total(runs_and_pair(runs, p)) == 3 * runs.len() + 2,
    decreases runs.len(),
{
    lemma_run_counts(runs);
    if runs.len() == 0 {
        let h = runs_and_pair(runs, p);
        let z = Seq::new(34, |k: int| 0u8);
        lemma_total_zero(z);
        assert(h =~= z.update(p, 2u8));
        lemma_total_update(z, p, 2u8);
    } else {
        let d = runs.drop_last();
        let r = runs.last();
        lemma_run_counts(d);
        lemma_total_runs_and_pair(d, p);
        let h0 = runs_and_pair(d, p);
        let h1 = h0.update(r, (h0[r] + 1) as u8);
        let h2 = h1.update(r + 1, (h1[r + 1] + 1) as u8);
        let h3 = h2.update(r + 2, (h2[r + 2] + 1) as u8);
        assert(is_run_start(r));
        assert(runs_and_pair(runs, p) =~= h3);
        lemma_total_update(h0, r, (h0[r] + 1) as u8);
        lemma_total_update(h1, r + 1, (h1[r + 1] + 1) as u8);
        lemma_total_update(h2, r + 2, (h2[r + 2] + 1) as u8);
    }
}

} // verus!
