use vstd::prelude::*;

verus! {

/// A multiset of tiles, held as one counter per tile kind.
#[derive(Clone, Copy, Debug, PartialEq, Eq)]
pub struct TileSet {
    tiles: [u8; 34],
}

impl View for TileSet {
    type V = Seq<u8>;

    closed spec fn view(&self) -> Seq<u8> {
        self.tiles@
    }
}

impl TileSet {
    /// The empty multiset.
    pub fn new() -> (r: Self)
        ensures
            r@ == Seq::new(34, |i: int| 0u8),
    {
        let r = TileSet { tiles: [0u8; 34] };
        assert(r@ =~= Seq::new(34, |i: int| 0u8));
        r
    }

    pub fn tile(&self, i: usize) -> (r: u8)
        requires
            i < 34,
        ensures
            r == self@[i as int],
    {
        self.tiles[i]
    }

    pub fn tile_mut(&mut self, i: usize) -> (r: &mut u8)
        requires
            i < 34,
        ensures
            *r == old(self)@[i as int],
            final(self)@ == old(self)@.update(i as int, *final(r)),
    {
        &mut self.tiles[i]
    }

    pub fn simple(&self, t: usize, i: usize) -> (r: u8)
        requires
            t < 3,
            i < 9,
        ensures
            r == self@[9 * t + i],
    {
        self.tiles[9 * t + i]
    }

    pub fn simple_mut(&mut self, t: usize, i: usize) -> (r: &mut u8)
        requires
            t < 3,
            i < 9,
        ensures
            *r == old(self)@[9 * t + i],
            final(self)@ == old(self)@.update(9 * t + i, *final(r)),
    {
        &mut self.tiles[9 * t + i]
    }

    pub fn honor(&self, i: usize) -> (r: u8)
        requires
            i < 7,
        ensures
            r == self@[27 + i],
    {
        self.tiles[27 + i]
    }

    pub fn honor_mut(&mut self, i: usize) -> (r: &mut u8)
        requires
            i < 7,
        ensures
            *r == old(self)@[27 + i],
            final(self)@ == old(self)@.update(27 + i, *final(r)),
    {
        &mut self.tiles[27 + i]
    }

    /// Number of tiles in the multiset.
    pub fn count(&self) -> (r: usize)
        ensures
            r == total(self@),
    {
        let mut sum: usize = 0;
        let mut i: usize = 0;
        while i < 34
            invariant
                i <= 34,
                self@.len() == 34,
                sum == total(self@.subrange(0, i as int)),
                sum <= 255 * i,
            decreases 34 - i,
        {
            assert(self@.subrange(0, i + 1).drop_last() =~= self@.subrange(0, i as int));
            sum = sum + self.tiles[i] as usize;
            i = i + 1;
        }
        assert(self@.subrange(0, 34) =~= self@);
        sum
    }

    /// Number of tile kinds, that is of counters.
    pub fn len(&self) -> (r: usize)
        ensures
            r == 34,
            r == self@.len(),
    {
        self.tiles.len()
    }

    /// The counters, indexed by tile kind.
    pub fn iter(&self) -> (r: &[u8])
        ensures
            r@ == self@,
    {
        self.tiles.as_slice()
    }
}

/// Every tile set has one counter per tile kind.
pub broadcast proof fn lemma_view_len(s: TileSet)
    ensures
        #[trigger] s@.len() == 34,
{
}

/// Sum of the counters of `s`.
pub open spec fn total(s: Seq<u8>) -> int
    decreases s.len(),
{
    if s.len() == 0 {
        0
    } else {
        total(s.drop_last()) + s.last()
    }
}

pub proof fn lemma_total_nonneg(s: Seq<u8>)
    ensures
        0 <= total(s) <= 255 * s.len(),
    decreases s.len(),
{
    if s.len() > 0 {
        lemma_total_nonneg(s.drop_last());
    }
}

pub proof fn lemma_total_update(s: Seq<u8>, k: int, v: u8)
    requires
        0 <= k < s.len(),
    ensures
        total(s.update(k, v)) == total(s) - s[k] + v,
    decreases s.len(),
{
    if k < s.len() - 1 {
        assert(s.update(k, v).drop_last() =~= s.drop_last().update(k, v));
        lemma_total_update(s.drop_last(), k, v);
    } else {
        assert(s.update(k, v).drop_last() =~= s.drop_last());
    }
}

pub proof fn lemma_total_append(a: Seq<u8>, b: Seq<u8>)
    ensures
        total(a + b) == total(a) + total(b),
    decreases b.len(),
{
    if b.len() > 0 {
        assert((a + b).drop_last() =~= a + b.drop_last());
        lemma_total_append(a, b.drop_last());
    } else {
        assert(a + b =~= a);
    }
}

/// Weight of a triad: a triplet or a run of three consecutive ranks.
pub const WEIGHT_TRIAD: usize = 3;

/// Weight of the pair ("head").
pub const WEIGHT_PAIR: usize = 2;

/// The nine counters of suit `t`.
pub open spec fn suit(h: Seq<u8>, t: int) -> Seq<u8> {
    h.subrange(9 * t, 9 * t + 9)
}

/// The seven honor counters.
pub open spec fn honors(h: Seq<u8>) -> Seq<u8> {
    h.subrange(27, 34)
}

pub open spec fn can_run(s: Seq<u8>, i: int) -> bool {
    0 <= i && i + 2 < s.len() && s[i] > 0 && s[i + 1] > 0 && s[i + 2] > 0
}

pub open spec fn take_run(s: Seq<u8>, i: int) -> Seq<u8> {
    s.update(i, (s[i] - 1) as u8).update(i + 1, (s[i + 1] - 1) as u8).update(
        i + 2,
        (s[i + 2] - 1) as u8,
    )
}

pub open spec fn can_triplet(s: Seq<u8>, i: int) -> bool {
    0 <= i < s.len() && s[i] >= 3
}

pub open spec fn take_triplet(s: Seq<u8>, i: int) -> Seq<u8> {
    s.update(i, (s[i] - 3) as u8)
}

pub open spec fn max(a: int, b: int) -> int {
    if a >= b {
        a
    } else {
        b
    }
}

#[via_fn]
proof fn suit_triads_decreases(s: Seq<u8>, i: int) {
    lemma_take_total(s, i);
}

/// Taking a run or a triplet removes three tiles.
pub proof fn lemma_take_total(s: Seq<u8>, i: int)
    ensures
        can_run(s, i) ==> total(take_run(s, i)) == total(s) - 3,
        can_triplet(s, i) ==> total(take_triplet(s, i)) == total(s) - 3,
        total(s) >= 0,
        total(take_run(s, i)) >= 0,
        total(take_triplet(s, i)) >= 0,
{
    lemma_total_nonneg(s);
    lemma_total_nonneg(take_run(s, i));
    lemma_total_nonneg(take_triplet(s, i));
    if 0 <= i < s.len() {
        if can_run(s, i) {
            lemma_total_update(s, i, (s[i] - 1) as u8);
            let s1 = s.update(i, (s[i] - 1) as u8);
            lemma_total_update(s1, i + 1, (s[i + 1] - 1) as u8);
            let s2 = s1.update(i + 1, (s[i + 1] - 1) as u8);
            lemma_total_update(s2, i + 2, (s[i + 2] - 1) as u8);
            lemma_total_nonneg(take_run(s, i));
        }
        if can_triplet(s, i) {
            lemma_total_update(s, i, (s[i] - 3) as u8);
            lemma_total_nonneg(take_triplet(s, i));
        }
    }
}

/// Best triad weight within one suit `s` over melds that start at position `i`
/// or later: at each position either skip it, or take a run or a triplet that
/// starts there and continue from the same position.
pub open spec fn suit_triads(s: Seq<u8>, i: int) -> int
    decreases total(s), s.len() - i,
    via suit_triads_decreases
{
    if 0 <= i < s.len() {
        let skip = suit_triads(s, i + 1);
        let run = if can_run(s, i) {
            suit_triads(take_run(s, i), i) + 3
        } else {
            0
        };
        let triplet = if can_triplet(s, i) {
            suit_triads(take_triplet(s, i), i) + 3
        } else {
            0
        };
        max(max(skip, run), triplet)
    } else {
        0
    }
}

/// What taking a run at `i` is worth, or 0 where no run starts there.
pub open spec fn run_gain(s: Seq<u8>, i: int) -> int {
    if can_run(s, i) {
        suit_triads(take_run(s, i), i) + 3
    } else {
        0
    }
}

/// What taking a triplet at `i` is worth, or 0 where fewer than three are there.
pub open spec fn triplet_gain(s: Seq<u8>, i: int) -> int {
    if can_triplet(s, i) {
        suit_triads(take_triplet(s, i), i) + 3
    } else {
        0
    }
}

/// Largest run gain over positions `i0 <= j < i` (0 if none).
pub open spec fn best_run_below(s: Seq<u8>, i0: int, i: int) -> int
    decreases i - i0,
{
    if i <= i0 {
        0
    } else {
        max(best_run_below(s, i0, i - 1), run_gain(s, i - 1))
    }
}

/// Largest triplet gain over positions `i0 <= j < i` (0 if none).
pub open spec fn best_triplet_below(s: Seq<u8>, i0: int, i: int) -> int
    decreases i - i0,
{
    if i <= i0 {
        0
    } else {
        max(best_triplet_below(s, i0, i - 1), triplet_gain(s, i - 1))
    }
}

proof fn lemma_best_below_front(s: Seq<u8>, i0: int, i: int)
    requires
        i0 < i,
    ensures
        best_run_below(s, i0, i) == max(run_gain(s, i0), best_run_below(s, i0 + 1, i)),
        best_triplet_below(s, i0, i) == max(triplet_gain(s, i0), best_triplet_below(s, i0 + 1, i)),
    decreases i - i0,
{
    if i > i0 + 1 {
        lemma_best_below_front(s, i0, i - 1);
        assert(best_run_below(s, i0 + 1, i) == max(best_run_below(s, i0 + 1, i - 1), run_gain(s, i - 1)));
        assert(best_triplet_below(s, i0 + 1, i) == max(best_triplet_below(s, i0 + 1, i - 1), triplet_gain(s, i - 1)));
    } else {
        assert(best_run_below(s, i0, i0 + 1) == max(best_run_below(s, i0, i0), run_gain(s, i0)));
        assert(best_triplet_below(s, i0, i0 + 1) == max(best_triplet_below(s, i0, i0), triplet_gain(s, i0)));
    }
}

/// The suit's best triad weight is the larger of the best single choices of a
/// first run and of a first triplet.
proof fn lemma_suit_triads_by_position(s: Seq<u8>, i0: int)
    requires
        0 <= i0 <= s.len(),
    ensures
        suit_triads(s, i0) == max(best_run_below(s, i0, s.len() as int), best_triplet_below(s, i0, s.len() as int)),
    decreases s.len() - i0,
{
    if i0 < s.len() {
        lemma_suit_triads_by_position(s, i0 + 1);
        lemma_best_below_front(s, i0, s.len() as int);
    }
}

pub proof fn lemma_suit_triads_bounds(s: Seq<u8>, i: int)
    ensures
        0 <= suit_triads(s, i) <= total(s),
    decreases total(s), s.len() - i,
{
    lemma_total_nonneg(s);
    if 0 <= i < s.len() {
        lemma_take_total(s, i);
        lemma_suit_triads_bounds(s, i + 1);
        if can_run(s, i) {
            lemma_suit_triads_bounds(take_run(s, i), i);
        }
        if can_triplet(s, i) {
            lemma_suit_triads_bounds(take_triplet(s, i), i);
        }
    }
}

/// Honors form no runs: each honor kind gives one triad per three copies.
pub open spec fn honor_triads(s: Seq<u8>) -> int
    decreases s.len(),
{
    if s.len() == 0 {
        0
    } else {
        honor_triads(s.drop_last()) + 3 * (s.last() / 3)
    }
}

pub proof fn lemma_honor_triads_bounds(s: Seq<u8>)
    ensures
        0 <= honor_triads(s) <= total(s),
    decreases s.len(),
{
    if s.len() > 0 {
        lemma_honor_triads_bounds(s.drop_last());
    }
}

proof fn lemma_best_below_nonneg(s: Seq<u8>, i0: int, i: int)
    ensures
        best_run_below(s, i0, i) >= 0,
        best_triplet_below(s, i0, i) >= 0,
    decreases i - i0,
{
    if i > i0 {
        lemma_best_below_nonneg(s, i0, i - 1);
    }
}

/// Best triad weight of suit `t` of `hand` over melds starting at rank index
/// `i0` or later. The hand is used as scratch space and restored.
pub fn count_triad_simple(hand: &mut TileSet, t: usize, i0: usize) -> (r: usize)
    requires
        t < 3,
        i0 <= 9,
    ensures
        r == suit_triads(suit(old(hand)@, t as int), i0 as int),
        final(hand)@ == old(hand)@,
    decreases total(suit(old(hand)@, t as int)),
{
    broadcast use lemma_view_len;
    let ghost h0 = hand@;
    let ghost s0 = suit(h0, t as int);
    proof {
        lemma_suit_triads_by_position(s0, i0 as int);
        lemma_best_below_nonneg(s0, i0 as int, 7);
        lemma_total_nonneg(s0);
    }
    let mut n_total: usize = 0;
    let mut i: usize = i0;
    while i < 7
        invariant
            t < 3,
            i0 <= i,
            i <= 7 || i == i0,
            h0 == old(hand)@,
            s0 == suit(h0, t as int),
            hand@ == h0,
            n_total == best_run_below(s0, i0 as int, i as int),
            n_total <= total(s0),
        decreases 7 - i,
    {
        if hand.simple(t, i + 0) > 0 && hand.simple(t, i + 1) > 0 && hand.simple(t, i + 2) > 0 {
            *hand.simple_mut(t, i + 0) -= 1;
            *hand.simple_mut(t, i + 1) -= 1;
            *hand.simple_mut(t, i + 2) -= 1;
            proof {
                assert(suit(hand@, t as int) =~= take_run(s0, i as int));
                lemma_take_total(s0, i as int);
                lemma_suit_triads_bounds(take_run(s0, i as int), i as int);
                lemma_total_nonneg(take_run(s0, i as int));
            }
            let c = count_triad_simple(hand, t, i) + WEIGHT_TRIAD;
            if c > n_total {
                n_total = c;
            }
            *hand.simple_mut(t, i + 0) += 1;
            *hand.simple_mut(t, i + 1) += 1;
            *hand.simple_mut(t, i + 2) += 1;
            assert(hand@ =~= h0);
        }
        i = i + 1;
    }
    proof {
        if i0 <= 7 {
            assert(best_run_below(s0, i0 as int, 8) == max(best_run_below(s0, i0 as int, 7), run_gain(s0, 7)));
            assert(best_run_below(s0, i0 as int, 9) == max(best_run_below(s0, i0 as int, 8), run_gain(s0, 8)));
        } else if i0 == 8 {
            assert(best_run_below(s0, i0 as int, 9) == max(best_run_below(s0, i0 as int, 8), run_gain(s0, 8)));
        }
    }
    let ghost runs: int = n_total as int;
    let mut i: usize = i0;
    while i < 9
        invariant
            t < 3,
            i0 <= i <= 9,
            h0 == old(hand)@,
            s0 == suit(h0, t as int),
            hand@ == h0,
            runs == best_run_below(s0, i0 as int, 9),
            n_total == max(runs, best_triplet_below(s0, i0 as int, i as int)),
            n_total <= total(s0),
        decreases 9 - i,
    {
        if hand.simple(t, i) >= 3 {
            *hand.simple_mut(t, i) -= 3;
            proof {
                assert(suit(hand@, t as int) =~= take_triplet(s0, i as int));
                lemma_take_total(s0, i as int);
                lemma_suit_triads_bounds(take_triplet(s0, i as int), i as int);
                lemma_total_nonneg(take_triplet(s0, i as int));
            }
            let c = count_triad_simple(hand, t, i) + WEIGHT_TRIAD;
            if c > n_total {
                n_total = c;
            }
            *hand.simple_mut(t, i) += 3;
            assert(hand@ =~= h0);
        }
        i = i + 1;
    }
    n_total
}

/// Best triad weight of the honors of `hand`: three per three copies of a kind.
pub fn count_triad_honor(hand: &TileSet) -> (r: usize)
    ensures
        r == honor_triads(honors(hand@)),
{
    broadcast use lemma_view_len;
    let ghost hs = honors(hand@);
    let mut n_total: usize = 0;
    let mut i: usize = 0;
    while i < 7
        invariant
            i <= 7,
            hs == honors(hand@),
            hand@.len() == 34,
            n_total == honor_triads(hs.subrange(0, i as int)),
            n_total <= 255 * i,
        decreases 7 - i,
    {
        assert(hs.subrange(0, i + 1).drop_last() =~= hs.subrange(0, i as int));
        n_total += WEIGHT_TRIAD * (hand.honor(i) as usize / 3);
        i = i + 1;
    }
    assert(hs.subrange(0, 7) =~= hs);
    n_total
}

/// Weight of the best triads of every suit and of the honors, with no pair.
pub open spec fn headless_weight(h: Seq<u8>) -> int {
    suit_triads(suit(h, 0), 0) + suit_triads(suit(h, 1), 0) + suit_triads(suit(h, 2), 0)
        + honor_triads(honors(h))
}

/// Best weight with the pair taken from kind `k`, or 0 where fewer than two are there.
pub open spec fn pair_gain(h: Seq<u8>, k: int) -> int {
    if 0 <= k < h.len() && h[k] >= 2 {
        headless_weight(h.update(k, (h[k] - 2) as u8)) + 2
    } else {
        0
    }
}

/// Largest pair gain over kinds below `k` (0 if none).
pub open spec fn best_pair_below(h: Seq<u8>, k: int) -> int
    decreases k,
{
    if k <= 0 {
        0
    } else {
        max(best_pair_below(h, k - 1), pair_gain(h, k - 1))
    }
}

/// Decomposition weight of a hand: the best total of triads (3 each) and one
/// pair (2), over all non-overlapping selections; where `allow_headless`
/// holds, a selection without a pair counts too. Each suit's triads are chosen
/// by `suit_triads`, then the pair by `best_pair_below`; the `selection`
/// module proves that this is the largest weight of any selection.
pub open spec fn decomposition(h: Seq<u8>, allow_headless: bool) -> int {
    max(
        if allow_headless {
            headless_weight(h)
        } else {
            0
        },
        best_pair_below(h, 34),
    )
}

/// Changing one counter leaves the other groups as they were.
proof fn lemma_update_groups(h: Seq<u8>, k: int, v: u8)
    requires
        h.len() == 34,
        0 <= k < 34,
    ensures
        k >= 9 ==> suit(h.update(k, v), 0) == suit(h, 0),
        !(9 <= k < 18) ==> suit(h.update(k, v), 1) == suit(h, 1),
        !(18 <= k < 27) ==> suit(h.update(k, v), 2) == suit(h, 2),
        k < 27 ==> honors(h.update(k, v)) == honors(h),
        k < 27 ==> suit(h.update(k, v), k / 9) == suit(h, k / 9).update(k % 9, v),
        k >= 27 ==> honors(h.update(k, v)) == honors(h).update(k - 27, v),
{
    let h1 = h.update(k, v);
    if k >= 9 {
        assert(suit(h1, 0) =~= suit(h, 0));
    }
    if !(9 <= k < 18) {
        assert(suit(h1, 1) =~= suit(h, 1));
    }
    if !(18 <= k < 27) {
        assert(suit(h1, 2) =~= suit(h, 2));
    }
    if k < 27 {
        assert(honors(h1) =~= honors(h));
        assert(suit(h1, k / 9) =~= suit(h, k / 9).update(k % 9, v));
    } else {
        assert(honors(h1) =~= honors(h).update(k - 27, v));
    }
}

pub proof fn lemma_headless_weight_bounds(h: Seq<u8>)
    ensures
        0 <= headless_weight(h),
        h.len() == 34 ==> headless_weight(h) <= total(h),
{
    lemma_suit_triads_bounds(suit(h, 0), 0);
    lemma_suit_triads_bounds(suit(h, 1), 0);
    lemma_suit_triads_bounds(suit(h, 2), 0);
    lemma_honor_triads_bounds(honors(h));
    if h.len() == 34 {
        assert(h =~= suit(h, 0) + suit(h, 1) + suit(h, 2) + honors(h));
        lemma_total_append(suit(h, 0), suit(h, 1));
        lemma_total_append(suit(h, 0) + suit(h, 1), suit(h, 2));
        lemma_total_append(suit(h, 0) + suit(h, 1) + suit(h, 2), honors(h));
    }
}

/// Decomposition weight of `hand` (see `decomposition`). The hand is used as
/// scratch space and restored.
pub fn count_head_and_triad(hand: &mut TileSet, allow_headless: bool) -> (r: usize)
    ensures
        r == decomposition(old(hand)@, allow_headless),
        final(hand)@ == old(hand)@,
{
    broadcast use lemma_view_len;
    let ghost h0 = hand@;
    proof {
        lemma_headless_weight_bounds(h0);
        lemma_total_nonneg(h0);
        lemma_suit_triads_bounds(suit(h0, 0), 0);
        lemma_suit_triads_bounds(suit(h0, 1), 0);
        lemma_suit_triads_bounds(suit(h0, 2), 0);
        lemma_honor_triads_bounds(honors(h0));
        lemma_total_nonneg(suit(h0, 0));
        lemma_total_nonneg(suit(h0, 1));
        lemma_total_nonneg(suit(h0, 2));
        lemma_total_nonneg(honors(h0));
    }
    let n_simples: [usize; 3] = [
        count_triad_simple(hand, 0, 0),
        count_triad_simple(hand, 1, 0),
        count_triad_simple(hand, 2, 0),
    ];
    let n_honor = count_triad_honor(hand);

    let mut n_total: usize = if allow_headless {
        n_simples[0] + n_simples[1] + n_simples[2] + n_honor
    } else {
        0
    };
    let ghost init: int = n_total as int;
    let mut t: usize = 0;
    while t < 3
        invariant
            t <= 3,
            h0 == old(hand)@,
            hand@ == h0,
            n_simples[0] == suit_triads(suit(h0, 0), 0),
                n_simples[1] == suit_triads(suit(h0, 1), 0),
                n_simples[2] == suit_triads(suit(h0, 2), 0),
                n_simples[0] <= 255 * 9,
                n_simples[1] <= 255 * 9,
                n_simples[2] <= 255 * 9,
                n_honor <= 255 * 7,
            n_honor == honor_triads(honors(h0)),
            init == if allow_headless { headless_weight(h0) } else { 0 },
            n_total == max(init, best_pair_below(h0, 9 * t as int)),
            n_total <= total(h0) + 2,
        decreases 3 - t,
    {
        let n_others = n_simples[(t + 1) % 3] + n_simples[(t + 2) % 3] + n_honor + WEIGHT_PAIR;
        assert(n_others == headless_weight(h0) - suit_triads(suit(h0, t as int), 0) + 2) by {
            assert(t == 0 || t == 1 || t == 2);
        }
        let mut i: usize = 0;
        while i < 9
            invariant
                t < 3,
                i <= 9,
                h0 == old(hand)@,
                hand@ == h0,
                n_simples[0] == suit_triads(suit(h0, 0), 0),
                n_simples[1] == suit_triads(suit(h0, 1), 0),
                n_simples[2] == suit_triads(suit(h0, 2), 0),
                n_simples[0] <= 255 * 9,
                n_simples[1] <= 255 * 9,
                n_simples[2] <= 255 * 9,
                n_honor <= 255 * 7,
                n_honor == honor_triads(honors(h0)),
                n_others == headless_weight(h0) - suit_triads(suit(h0, t as int), 0) + 2,
                init == if allow_headless { headless_weight(h0) } else { 0 },
                n_total == max(init, best_pair_below(h0, 9 * t + i)),
                n_total <= total(h0) + 2,
            decreases 9 - i,
        {
            let ghost k: int = 9 * t + i;
            if hand.simple(t, i) >= 2 {
                *hand.simple_mut(t, i) -= 2;
                let ghost h1 = hand@;
                proof {
                    lemma_update_groups(h0, k, (h0[k] - 2) as u8);
                    assert(k / 9 == t && k % 9 == i);
                    lemma_headless_weight_bounds(h1);
                    lemma_total_update(h0, k, (h0[k] - 2) as u8);
                    lemma_suit_triads_bounds(suit(h1, t as int), 0);
                    lemma_total_nonneg(suit(h1, t as int));
                }
                let c = count_triad_simple(hand, t, 0) + n_others;
                assert(c == pair_gain(h0, k)) by {
                    assert(t == 0 || t == 1 || t == 2);
                }
                if c > n_total {
                    n_total = c;
                }
                *hand.simple_mut(t, i) += 2;
                assert(hand@ =~= h0);
            }
            i = i + 1;
        }
        t = t + 1;
    }

    let n_others = n_simples[0] + n_simples[1] + n_simples[2] + WEIGHT_PAIR;
    let mut i: usize = 0;
    while i < 7
        invariant
            i <= 7,
            h0 == old(hand)@,
            hand@ == h0,
            n_simples[0] == suit_triads(suit(h0, 0), 0),
                n_simples[1] == suit_triads(suit(h0, 1), 0),
                n_simples[2] == suit_triads(suit(h0, 2), 0),
                n_simples[0] <= 255 * 9,
                n_simples[1] <= 255 * 9,
                n_simples[2] <= 255 * 9,
                n_honor <= 255 * 7,
            n_others == n_simples[0] + n_simples[1] + n_simples[2] + 2,
            init == if allow_headless { headless_weight(h0) } else { 0 },
            n_total == max(init, best_pair_below(h0, 27 + i)),
            n_total <= total(h0) + 2,
        decreases 7 - i,
    {
        let ghost k: int = 27 + i;
        if hand.honor(i) >= 2 {
            *hand.honor_mut(i) -= 2;
            let ghost h1 = hand@;
            proof {
                lemma_update_groups(h0, k, (h0[k] - 2) as u8);
                lemma_headless_weight_bounds(h1);
                lemma_total_update(h0, k, (h0[k] - 2) as u8);
                lemma_honor_triads_bounds(honors(h1));
                lemma_total_nonneg(honors(h1));
            }
            let c = count_triad_honor(hand) + n_others;
            assert(c == pair_gain(h0, k));
            if c > n_total {
                n_total = c;
            }
            *hand.honor_mut(i) += 2;
            assert(hand@ =~= h0);
        }
        i = i + 1;
    }
    n_total
}

proof fn lemma_best_pair_below_bounds(h: Seq<u8>, k: int)
    requires
        h.len() == 34,
        k <= 34,
    ensures
        0 <= best_pair_below(h, k) <= total(h),
    decreases k,
{
    lemma_total_nonneg(h);
    if k > 0 {
        lemma_best_pair_below_bounds(h, k - 1);
        if h[k - 1] >= 2 {
            let h1 = h.update(k - 1, (h[k - 1] - 2) as u8);
            lemma_headless_weight_bounds(h1);
            lemma_total_update(h, k - 1, (h[k - 1] - 2) as u8);
        }
    }
}

/// The decomposition weight never exceeds the number of tiles.
pub proof fn lemma_decomposition_bounds(h: Seq<u8>, allow_headless: bool)
    requires
        h.len() == 34,
    ensures
        0 <= decomposition(h, allow_headless) <= total(h),
{
    lemma_headless_weight_bounds(h);
    lemma_best_pair_below_bounds(h, 34);
}

/// The digit character of `d` (0 to 9).
pub open spec fn digit_char(d: int) -> char {
    if d == 1 {
        '1'
    } else if d == 2 {
        '2'
    } else if d == 3 {
        '3'
    } else if d == 4 {
        '4'
    } else if d == 5 {
        '5'
    } else if d == 6 {
        '6'
    } else if d == 7 {
        '7'
    } else if d == 8 {
        '8'
    } else if d == 9 {
        '9'
    } else {
        '0'
    }
}

/// The letter of group `g`: the suits `m`, `p`, `s`, then the honors `z`.
pub open spec fn group_char(g: int) -> char {
    if g == 0 {
        'm'
    } else if g == 1 {
        'p'
    } else if g == 2 {
        's'
    } else {
        'z'
    }
}

/// Name of tile kind `k`: its rank digit and its group letter.
pub open spec fn tile_name(k: int) -> Seq<char> {
    seq![digit_char(k % 9 + 1), group_char(k / 9)]
}

fn digit(d: usize) -> (c: char)
    requires
        d <= 9,
    ensures
        c == digit_char(d as int),
{
    match d {
        1 => '1',
        2 => '2',
        3 => '3',
        4 => '4',
        5 => '5',
        6 => '6',
        7 => '7',
        8 => '8',
        9 => '9',
        _ => '0',
    }
}

/// Relies on `String::push`: appends one character.
#[verifier::external_body]
fn push_char(s: &mut String, c: char)
    ensures
        final(s)@ == old(s)@.push(c),
{
    s.push(c);
}

/// Text of tile kind `tile`, such as `5m` or `7z`.
pub fn format_tile(tile: usize) -> (r: String)
    requires
        tile < 34,
    ensures
        r@ == tile_name(tile as int),
{
    let mut r = String::new();
    push_char(&mut r, digit(tile % 9 + 1));
    let g = if tile < 9 {
        'm'
    } else if tile < 18 {
        'p'
    } else if tile < 27 {
        's'
    } else {
        'z'
    };
    push_char(&mut r, g);
    assert(r@ =~= tile_name(tile as int));
    r
}

/// `n` copies of `c`.
pub open spec fn repeat(c: char, n: int) -> Seq<char> {
    Seq::new(n as nat, |j: int| c)
}

/// The rank digits of the counters of `s` below `i`, each as many times as it is counted.
pub open spec fn digits_below(s: Seq<u8>, i: int) -> Seq<char>
    decreases i,
{
    if i <= 0 {
        Seq::empty()
    } else {
        digits_below(s, i - 1) + repeat(digit_char(i), s[i - 1] as int)
    }
}

/// Text of one group: its digits, its letter and a space; nothing for an empty group.
pub open spec fn group_text(s: Seq<u8>, g: int) -> Seq<char> {
    if total(s) == 0 {
        Seq::empty()
    } else {
        digits_below(s, s.len() as int) + seq![group_char(g), ' ']
    }
}

/// Text of a tile set, such as `123m 55z `.
pub open spec fn tile_set_text(h: Seq<u8>) -> Seq<char> {
    group_text(suit(h, 0), 0) + group_text(suit(h, 1), 1) + group_text(suit(h, 2), 2) + group_text(
        honors(h),
        3,
    )
}

/// Appends the digits of one group of `hand` (`n` ranks from kind `base`)
/// to `buf`, then its letter and a space unless the group is empty.
fn format_group(hand: &TileSet, base: usize, n: usize, g: char, buf: &mut String)
    requires
        (base == 0 || base == 9 || base == 18) && n == 9 || base == 27 && n == 7,
        g == group_char(base as int / 9),
    ensures
        final(buf)@ == old(buf)@ + group_text(hand@.subrange(base as int, base + n), base as int / 9),
{
    broadcast use lemma_view_len;
    let ghost s = hand@.subrange(base as int, base + n);
    let ghost b0 = buf@;
    let mut is_empty = true;
    let mut i: usize = 0;
    while i < n
        invariant
            i <= n,
            n <= 9,
            base + n <= 34,
            s == hand@.subrange(base as int, base + n),
            buf@ == b0 + digits_below(s, i as int),
            is_empty == (total(s.subrange(0, i as int)) == 0),
        decreases n - i,
    {
        proof {
            assert(s.subrange(0, i + 1).drop_last() =~= s.subrange(0, i as int));
            lemma_total_nonneg(s.subrange(0, i as int));
        }
        let c = hand.tile(base + i);
        let d = digit(i + 1);
        let ghost b1 = buf@;
        let mut j: u8 = 0;
        while j < c
            invariant
                j <= c,
                buf@ == b1 + repeat(d, j as int),
            decreases c - j,
        {
            push_char(buf, d);
            assert(buf@ =~= b1 + repeat(d, j + 1));
            j = j + 1;
        }
        if c > 0 {
            is_empty = false;
        }
        i = i + 1;
        assert(buf@ =~= b0 + digits_below(s, i as int));
    }
    assert(s.subrange(0, n as int) =~= s);
    assert(s.len() == n);
    if !is_empty {
        push_char(buf, g);
        push_char(buf, ' ');
        assert(buf@ =~= b0 + (digits_below(s, n as int) + seq![g, ' ']));
    } else {
        assert(buf@ =~= b0 + Seq::<char>::empty()) by {
            assert(digits_below(s, n as int) =~= Seq::<char>::empty()) by {
                lemma_empty_digits(s, n as int);
            }
        }
    }
}

/// Text of a tile set, group by group: the digits of each non-empty suit
/// followed by its letter and a space, then the honors with `z`.
pub fn format_tile_set(hand: &TileSet) -> (r: String)
    ensures
        r@ == tile_set_text(hand@),
{
    let mut buf = String::new();
    format_group(hand, 0, 9, 'm', &mut buf);
    format_group(hand, 9, 9, 'p', &mut buf);
    format_group(hand, 18, 9, 's', &mut buf);
    format_group(hand, 27, 7, 'z', &mut buf);
    assert(buf@ =~= tile_set_text(hand@));
    buf
}

proof fn lemma_empty_digits(s: Seq<u8>, i: int)
    requires
        0 <= i <= s.len(),
        total(s.subrange(0, i)) == 0,
    ensures
        digits_below(s, i) == Seq::<char>::empty(),
    decreases i,
{
    if i > 0 {
        assert(s.subrange(0, i).drop_last() =~= s.subrange(0, i - 1));
        lemma_total_nonneg(s.subrange(0, i - 1));
        lemma_empty_digits(s, i - 1);
        assert(repeat(digit_char(i), s[i - 1] as int) =~= Seq::<char>::empty());
        assert(digits_below(s, i) =~= Seq::<char>::empty());
    }
}

/// Adds one tile of rank `d` of each of `digits` to the group starting at kind
/// `base`, in order; `None` if a rank exceeds `limit` or a counter would exceed 4.
pub open spec fn add_digits(counts: Seq<u8>, digits: Seq<u8>, base: int, limit: int) -> Option<Seq<u8>>
    decreases digits.len(),
{
    if digits.len() == 0 {
        Some(counts)
    } else {
        match add_digits(counts, digits.drop_last(), base, limit) {
            None => None,
            Some(c) => {
                let k = base + digits.last() - 1;
                if digits.last() > limit || c[k] >= 4 {
                    None
                } else {
                    Some(c.update(k, (c[k] + 1) as u8))
                }
            },
        }
    }
}

/// The value of a digit character `1` to `9`.
pub open spec fn digit_value(c: char) -> u8 {
    (c as u32 - '0' as u32) as u8
}

/// Reading one character: a rank digit waits for its group letter, a group
/// letter takes the waiting digits, blanks are skipped, anything else fails.
pub open spec fn parse_step(counts: Seq<u8>, digits: Seq<u8>, c: char) -> Option<(Seq<u8>, Seq<u8>)> {
    if '1' <= c <= '9' {
        Some((counts, digits.push(digit_value(c))))
    } else if c == 'm' || c == 'p' || c == 's' || c == 'z' {
        let base = if c == 'm' {
            0
        } else if c == 'p' {
            9
        } else if c == 's' {
            18
        } else {
            27
        };
        let limit = if c == 'z' {
            7
        } else {
            9
        };
        match add_digits(counts, digits, base, limit) {
            Some(n) => Some((n, Seq::empty())),
            None => None,
        }
    } else if c == ' ' || c == '\t' || c == '\n' {
        Some((counts, digits))
    } else {
        None
    }
}

/// Counters and waiting digits after reading the first `i` characters.
pub open spec fn parse_prefix(text: Seq<char>, i: int) -> Option<(Seq<u8>, Seq<u8>)>
    decreases i,
{
    if i <= 0 {
        Some((Seq::new(34, |k: int| 0u8), Seq::empty()))
    } else {
        match parse_prefix(text, i - 1) {
            Some((counts, digits)) => parse_step(counts, digits, text[i - 1]),
            None => None,
        }
    }
}

/// The tile set that `text` denotes, such as `123m 456p 11z`: `None` where a
/// character is not a digit, a group letter or a blank, where digits are left
/// without a letter, where an honor rank exceeds 7 or a kind is named more
/// than four times.
pub open spec fn parsed(text: Seq<char>) -> Option<Seq<u8>> {
    match parse_prefix(text, text.len() as int) {
        Some((counts, digits)) => if digits.len() == 0 {
            Some(counts)
        } else {
            None
        },
        None => None,
    }
}

/// Moves the waiting digits into the group starting at kind `base`.
fn take_digits(hand: &mut TileSet, nums: &mut Vec<u8>, base: usize, limit: u8) -> (ok: bool)
    requires
        base == 0 || base == 9 || base == 18 || base == 27,
        base == 27 ==> limit == 7,
        base < 27 ==> limit == 9,
        forall|j: int| 0 <= j < old(nums)@.len() ==> 1 <= #[trigger] old(nums)@[j] <= 9,
        forall|k: int| 0 <= k < 34 ==> old(hand)@[k] <= 4,
    ensures
        ok <==> add_digits(old(hand)@, old(nums)@, base as int, limit as int) is Some,
        ok ==> Some(final(hand)@) == add_digits(old(hand)@, old(nums)@, base as int, limit as int),
        ok ==> forall|k: int| 0 <= k < 34 ==> final(hand)@[k] <= 4,
        final(nums)@.len() == 0,
{
    broadcast use lemma_view_len;
    let ghost h0 = hand@;
    let ghost ds = nums@;
    let mut j: usize = 0;
    while j < nums.len()
        invariant
            nums@ == ds,
            h0 == old(hand)@,
            ds == old(nums)@,
            j <= ds.len(),
            base + limit <= 34,
            forall|m: int| 0 <= m < ds.len() ==> 1 <= #[trigger] ds[m] <= 9,
            add_digits(h0, ds.subrange(0, j as int), base as int, limit as int) == Some(hand@),
            forall|k: int| 0 <= k < 34 ==> hand@[k] <= 4,
        decreases ds.len() - j,
    {
        let d = nums[j];
        assert(ds.subrange(0, j + 1).drop_last() =~= ds.subrange(0, j as int));
        if d > limit || hand.tile(base + d as usize - 1) >= 4 {
            proof {
                lemma_add_digits_stays_none(h0, ds, base as int, limit as int, j + 1);
            }
            nums.clear();
            return false;
        }
        *hand.tile_mut(base + d as usize - 1) += 1;
        j = j + 1;
    }
    assert(ds.subrange(0, ds.len() as int) =~= ds);
    nums.clear();
    true
}

proof fn lemma_add_digits_stays_none(c: Seq<u8>, ds: Seq<u8>, base: int, limit: int, j: int)
    requires
        0 <= j <= ds.len(),
        add_digits(c, ds.subrange(0, j), base, limit) is None,
    ensures
        add_digits(c, ds, base, limit) is None,
    decreases ds.len() - j,
{
    if j < ds.len() {
        assert(ds.subrange(0, j + 1).drop_last() =~= ds.subrange(0, j));
        lemma_add_digits_stays_none(c, ds, base, limit, j + 1);
    } else {
        assert(ds.subrange(0, j) =~= ds);
    }
}

proof fn lemma_parse_none_stays(text: Seq<char>, i: int)
    requires
        0 <= i <= text.len(),
        parse_prefix(text, i) is None,
    ensures
        parse_prefix(text, text.len() as int) is None,
    decreases text.len() - i,
{
    if i < text.len() {
        lemma_parse_none_stays(text, i + 1);
    }
}

/// Reads a tile set written as digits followed by their group letter, such as
/// `123m 456p 789s 11z`: exactly `parsed(text@)`.
pub fn parse_tile_set(text: &str) -> (r: Option<TileSet>)
    ensures
        parsed(text@) is None ==> r is None,
        parsed(text@) is Some ==> r is Some && r->0@ == parsed(text@)->0,
{
    broadcast use lemma_view_len;
    let mut hand = TileSet::new();
    let mut nums: Vec<u8> = Vec::new();
    assert(parse_prefix(text@, 0) == Some((hand@, nums@)));
    for c in it: text.chars()
        invariant
            it.seq() == text@,
            0 <= it.index() <= text@.len(),
            parse_prefix(text@, it.index() as int) == Some((hand@, nums@)),
            forall|j: int| 0 <= j < nums@.len() ==> 1 <= #[trigger] nums@[j] <= 9,
            forall|k: int| 0 <= k < 34 ==> hand@[k] <= 4,
    {
        let ghost i = it.index() as int;
        assert(c == text@[i]);
        if '1' <= c && c <= '9' {
            nums.push((c as u32 - '0' as u32) as u8);
        } else if c == 'm' || c == 'p' || c == 's' || c == 'z' {
            let base: usize = if c == 'm' {
                0
            } else if c == 'p' {
                9
            } else if c == 's' {
                18
            } else {
                27
            };
            let limit: u8 = if c == 'z' {
                7
            } else {
                9
            };
            if !take_digits(&mut hand, &mut nums, base, limit) {
                proof {
                    lemma_parse_none_stays(text@, i + 1);
                }
                return None;
            }
            assert(nums@ =~= Seq::<u8>::empty());
        } else if c == ' ' || c == '\t' || c == '\n' {
        } else {
            proof {
                lemma_parse_none_stays(text@, i + 1);
            }
            return None;
        }
    }
    if nums.len() != 0 {
        return None;
    }
    Some(hand)
}

/// Allowing a hand without a pair never lowers its decomposition weight.
pub proof fn lemma_headless_never_lowers(h: Seq<u8>)
    ensures
        decomposition(h, true) >= decomposition(h, false),
{
    lemma_headless_weight_bounds(h);
}

/// Counters of a list of tile kinds: each kind counted as often as it occurs.
pub open spec fn counts_of(tiles: Seq<usize>) -> Seq<u8>
    decreases tiles.len(),
{
    if tiles.len() == 0 {
        Seq::new(34, |k: int| 0u8)
    } else {
        let c = counts_of(tiles.drop_last());
        let t = tiles.last() as int;
        c.update(t, (c[t] + 1) as u8)
    }
}

proof fn lemma_counts_of_multiset(tiles: Seq<usize>)
    requires
        tiles.len() <= 255,
        forall|j: int| 0 <= j < tiles.len() ==> tiles[j] < 34,
    ensures
        counts_of(tiles).len() == 34,
        forall|k: int| 0 <= k < 34 ==> #[trigger] counts_of(tiles)[k] == tiles.to_multiset().count(k as usize),
        forall|k: int| 0 <= k < 34 ==> #[trigger] counts_of(tiles)[k] <= tiles.len(),
    decreases tiles.len(),
{
    broadcast use vstd::seq_lib::group_to_multiset_ensures;
    if tiles.len() > 0 {
        let d = tiles.drop_last();
        lemma_counts_of_multiset(d);
        assert(tiles =~= d.push(tiles.last()));
    }
}

/// The decomposition weight depends only on which tiles a hand holds: two
/// lists of the same tiles in any order give the same weight.
pub proof fn lemma_decomposition_order_free(a: Seq<usize>, b: Seq<usize>, allow_headless: bool)
    requires
        a.to_multiset() == b.to_multiset(),
        a.len() <= 255,
        b.len() <= 255,
        forall|j: int| 0 <= j < a.len() ==> a[j] < 34,
        forall|j: int| 0 <= j < b.len() ==> b[j] < 34,
    ensures
        counts_of(a) == counts_of(b),
        decomposition(counts_of(a), allow_headless) == decomposition(counts_of(b), allow_headless),
{
    lemma_counts_of_multiset(a);
    lemma_counts_of_multiset(b);
    assert(counts_of(a) =~= counts_of(b));
}

/// Triad weights are multiples of 3.
pub proof fn lemma_headless_weight_mod3(h: Seq<u8>)
    ensures
        headless_weight(h) % 3 == 0,
{
    lemma_suit_triads_mod3(suit(h, 0), 0);
    lemma_suit_triads_mod3(suit(h, 1), 0);
    lemma_suit_triads_mod3(suit(h, 2), 0);
    lemma_honor_triads_mod3(honors(h));
}

proof fn lemma_suit_triads_mod3(s: Seq<u8>, i: int)
    ensures
        suit_triads(s, i) % 3 == 0,
    decreases total(s), s.len() - i,
{
    if 0 <= i < s.len() {
        lemma_take_total(s, i);
        lemma_suit_triads_mod3(s, i + 1);
        if can_run(s, i) {
            lemma_suit_triads_mod3(take_run(s, i), i);
        }
        if can_triplet(s, i) {
            lemma_suit_triads_mod3(take_triplet(s, i), i);
        }
    }
}

proof fn lemma_honor_triads_mod3(s: Seq<u8>)
    ensures
        honor_triads(s) % 3 == 0,
    decreases s.len(),
{
    if s.len() > 0 {
        lemma_honor_triads_mod3(s.drop_last());
    }
}

} // verus!
