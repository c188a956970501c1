//! Upper-confidence tree search over discards and draws. The tree alternates
//! discard-layer and draw-layer nodes; each episode follows one pre-shuffled
//! draw order of the wall. The choice among discards is made by a caller-given
//! policy (the confidence bound), which sees each candidate's statistics.
use crate::tile::{
    best_pair_below, count_head_and_triad, decomposition, headless_weight, lemma_decomposition_bounds,
    lemma_headless_weight_bounds, lemma_headless_weight_mod3, lemma_total_nonneg, lemma_view_len, total,
    TileSet,
};
use crate::search::valid_pair;
use rand::rngs::StdRng;
use vstd::prelude::*;

verus! {

broadcast use lemma_view_len;

/// A node where a tile is discarded; child `k` follows discarding kind `k`.
pub struct DiscardNode {
    pub count: usize,
    pub value: usize,
    pub solved: bool,
    pub children: [Option<Box<DrawNode>>; 34],
}

/// A node where a tile is drawn; child `k` follows drawing kind `k`.
pub struct DrawNode {
    pub count: usize,
    pub value: usize,
    pub children: [Option<Box<DiscardNode>>; 34],
}

impl DiscardNode {
    pub fn new() -> (r: Self)
        ensures
            r.count == 0,
            r.value == 0,
            !r.solved,
            forall|k: int| 0 <= k < 34 ==> r.children@[k] is None,
    {
        let children: [Option<Box<DrawNode>>; 34] = [
            None, None, None, None, None, None, None, None, None, None,
            None, None, None, None, None, None, None, None, None, None,
            None, None, None, None, None, None, None, None, None, None,
            None, None, None, None,
        ];
        DiscardNode { count: 0, value: 0, solved: false, children }
    }
}

impl DrawNode {
    pub fn new() -> (r: Self)
        ensures
            r.count == 0,
            r.value == 0,
            forall|k: int| 0 <= k < 34 ==> r.children@[k] is None,
    {
        let children: [Option<Box<DiscardNode>>; 34] = [
            None, None, None, None, None, None, None, None, None, None,
            None, None, None, None, None, None, None, None, None, None,
            None, None, None, None, None, None, None, None, None, None,
            None, None, None, None,
        ];
        DrawNode { count: 0, value: 0, children }
    }
}

/// A hand of `n` tiles is complete when its decomposition without the
/// headless alternative reaches `n`.
pub open spec fn complete(h: Seq<u8>, n: int) -> bool {
    decomposition(h, false) >= n
}

/// On hands of 3n + 2 tiles the completion test of the exhaustive search
/// (every tile in a meld, hands without a pair allowed) and that of the
/// playouts and the tree search (every tile in a meld, with a pair) agree.
pub proof fn lemma_completion_tests_agree(h: Seq<u8>)
    requires
        h.len() == 34,
        total(h) % 3 == 2,
    ensures
        decomposition(h, true) == total(h) <==> complete(h, total(h)),
{
    lemma_headless_weight_mod3(h);
    lemma_headless_weight_bounds(h);
    lemma_decomposition_bounds(h, false);
    lemma_decomposition_bounds(h, true);
    assert(decomposition(h, false) >= best_pair_below(h, 34));
}

/// `h` after drawing the last `m` tiles of `wall`, the last one first.
pub open spec fn drawn(h: Seq<u8>, wall: Seq<usize>, m: int) -> Seq<u8>
    decreases m,
{
    if m <= 0 {
        h
    } else {
        let p = drawn(h, wall, m - 1);
        let t = wall[wall.len() - m] as int;
        p.update(t, (p[t] + 1) as u8)
    }
}

/// Index, counted from 0, of the draw from the back of `wall` at or after
/// draw `j` that first completes the hand to `n` tiles; `wall.len()` if none does.
pub open spec fn rollout_from(h: Seq<u8>, wall: Seq<usize>, n: int, j: int) -> int
    decreases wall.len() - j,
{
    if j >= wall.len() {
        wall.len() as int
    } else if complete(drawn(h, wall, j + 1), n) {
        j
    } else {
        rollout_from(h, wall, n, j + 1)
    }
}

/// Tiles of the wall are tile kinds, and no counter of the hand can exceed a
/// byte however many of them are drawn.
pub open spec fn room_to_draw(h: Seq<u8>, wall: Seq<usize>) -> bool {
    &&& h.len() == 34
    &&& forall|j: int| 0 <= j < wall.len() ==> wall[j] < 34
    &&& forall|k: int| 0 <= k < 34 ==> h[k] + wall.len() <= 255
}

/// Draws tiles from the back of `wall` into `hand` until the hand of
/// `n_tiles` tiles is complete, and returns the index of the completing draw.
/// Where even the whole wall does not complete the hand, the rollout ends
/// with the wall and counts its length. The wall is left as it was.
pub fn playout(hand: &mut TileSet, wall: &mut Vec<usize>, n_tiles: usize) -> (r: usize)
    requires
        room_to_draw(old(hand)@, old(wall)@),
    ensures
        r == rollout_from(old(hand)@, old(wall)@, n_tiles as int, 0),
        r <= old(wall)@.len(),
        r < old(wall)@.len() <==> exists|j: int|
            0 <= j < old(wall)@.len() && complete(#[trigger] drawn(old(hand)@, old(wall)@, j + 1), n_tiles as int),
        final(wall)@ == old(wall)@,
        final(hand)@ == drawn(old(hand)@, old(wall)@, if r < old(wall)@.len() { r + 1 } else { r as int }),
{
    let ghost h0 = hand@;
    let ghost w = wall@;
    let len = wall.len();
    let mut i: usize = 0;
    while i < len
        invariant
            len == w.len(),
            h0 == old(hand)@,
            w == old(wall)@,
            wall@ == w,
            i <= len,
            room_to_draw(h0, w),
            hand@ == drawn(h0, w, i as int),
            forall|k: int| 0 <= k < 34 ==> hand@[k] as int <= h0[k] as int + i as int,
            rollout_from(h0, w, n_tiles as int, 0) == rollout_from(h0, w, n_tiles as int, i as int),
            forall|j: int| 0 <= j < i ==> !complete(#[trigger] drawn(h0, w, j + 1), n_tiles as int),
        decreases len - i,
    {
        let tile = wall[len - 1 - i];
        assert(tile < 34);
        assert(h0[tile as int] + len <= 255);
        assert(hand@[tile as int] as int + 1 <= 255);
        *hand.tile_mut(tile) += 1;
        assert(hand@ =~= drawn(h0, w, i + 1));
        if count_head_and_triad(hand, false) >= n_tiles {
            assert(complete(drawn(h0, w, i + 1), n_tiles as int));
            assert(rollout_from(h0, w, n_tiles as int, i as int) == i);
            return i;
        }
        i = i + 1;
    }
    len
}

/// rand's `StdRng`, the random source of the episodes; opaque here.
#[verifier::external_type_specification]
#[verifier::external_body]
pub struct ExStdRng(StdRng);

/// Relies on rand's `SliceRandom::shuffle`, which only swaps elements: the
/// result is a permutation of the input.
#[verifier::external_body]
pub(crate) fn shuffle(v: &mut Vec<usize>, rng: &mut StdRng)
    ensures
        final(v)@.len() == old(v)@.len(),
        final(v)@.to_multiset() == old(v)@.to_multiset(),
{
    rand::seq::SliceRandom::shuffle(v.as_mut_slice(), rng);
}

/// Statistics that the discard policy sees once every discard has been tried:
/// for each kind present in the hand, by kind, the kind and the visits and
/// value sum of its node.
pub type DiscardStats = Vec<(usize, usize, usize)>;

/// Visits of the nodes in the child slots below `k`.
pub open spec fn visits_below(c: Seq<Option<Box<DrawNode>>>, k: int) -> int
    decreases k,
{
    if k <= 0 {
        0
    } else {
        visits_below(c, k - 1) + match c[k - 1] {
            Some(n) => n.count as int,
            None => 0,
        }
    }
}

/// Visits of the children of a discard-layer node.
pub open spec fn child_visits(node: DiscardNode) -> int {
    visits_below(node.children@, 34)
}

/// Visits of a child slot (0 if empty).
pub open spec fn slot_visits(c: Option<Box<DrawNode>>) -> usize {
    match c {
        Some(n) => n.count,
        None => 0,
    }
}

pub proof fn lemma_visits_update(c: Seq<Option<Box<DrawNode>>>, k: int, x: Option<Box<DrawNode>>, j: int)
    requires
        0 <= k < c.len(),
        j <= c.len(),
    ensures
        visits_below(c.update(k, x), j) == visits_below(c, j) + if k < j {
            slot_visits(x) - slot_visits(c[k])
        } else {
            0
        },
    decreases j,
{
    if j > 0 {
        lemma_visits_update(c, k, x, j - 1);
    }
}

/// A discard policy that may be called on any statistics.
pub open spec fn total_policy<F: Fn(usize, usize, &DiscardStats) -> usize>(select: &F) -> bool {
    forall|c: usize, n: usize, s: &DiscardStats| #[trigger] select.requires((c, n, s))
}

/// Value sum of a child slot of a discard-layer node (0 if empty).
pub open spec fn slot_value(c: Option<Box<DrawNode>>) -> usize {
    match c {
        Some(n) => n.value,
        None => 0,
    }
}

/// Visits of a child slot of a draw-layer node (0 if empty).
pub open spec fn next_count(c: Option<Box<DiscardNode>>) -> usize {
    match c {
        Some(n) => n.count,
        None => 0,
    }
}

/// Value sum of a child slot of a draw-layer node (0 if empty).
pub open spec fn next_value(c: Option<Box<DiscardNode>>) -> usize {
    match c {
        Some(n) => n.value,
        None => 0,
    }
}

/// Whether a child slot of a draw-layer node holds a solved node.
pub open spec fn next_solved(c: Option<Box<DiscardNode>>) -> bool {
    match c {
        Some(n) => n.solved,
        None => false,
    }
}

/// What one episode through a draw-layer node does to it: with a non-empty
/// wall, the child of the last tile of `wall` exists afterwards and is the
/// only child changed; where that child was solved, or the hand with the
/// drawn tile is complete, the episode took no more turns; otherwise the
/// child counts one more visit and the `v` turns of the episode.
pub open spec fn draw_step(old_node: DrawNode, new_node: DrawNode, h: Seq<u8>, w: Seq<usize>, v: usize) -> bool {
    let t = w.last() as int;
    let h1 = drawn(h, w, 1);
    let c0 = old_node.children@[t];
    let c1 = new_node.children@[t];
    &&& c1 is Some
    &&& new_node.children@ == old_node.children@.update(t, c1)
    &&& next_solved(c0) ==> v == 0 && c1 == c0
    &&& !next_solved(c0) && complete(h1, total(h1)) ==> v == 0 && next_solved(c1)
    &&& !next_solved(c0) && !complete(h1, total(h1)) ==> {
        &&& v >= 1
        &&& next_count(c1) == next_count(c0).saturating_add(1)
        &&& next_value(c1) == next_value(c0).saturating_add(v)
    }
}

/// Statistics of the tried discards among the kinds below `j` present in
/// `h`, by kind: what the policy is shown.
pub open spec fn tried_stats(c: Seq<Option<Box<DrawNode>>>, h: Seq<u8>, j: int) -> Seq<(usize, usize, usize)>
    decreases j,
{
    if j <= 0 {
        Seq::empty()
    } else {
        let p = tried_stats(c, h, j - 1);
        if h[j - 1] > 0 && c[j - 1] is Some {
            p.push(((j - 1) as usize, slot_visits(c[j - 1]), slot_value(c[j - 1])))
        } else {
            p
        }
    }
}

/// The kind that the policy's answer `i` picks from `s`: entry `i`, or the
/// first entry where `i` is out of range.
pub open spec fn picked(s: Seq<(usize, usize, usize)>, i: usize) -> int {
    if i < s.len() {
        s[i as int].0 as int
    } else {
        s[0].0 as int
    }
}

impl DiscardNode {
    /// One episode from this node: returns the number of turns it took to
    /// complete the hand. A complete hand marks the node solved (value 0); a
    /// node visited fewer times than the hand has tiles finishes the episode
    /// with a rollout of the wall's order. Otherwise the discard is the
    /// lowest present kind not tried yet, or, once all are tried, the one
    /// `select` picks from their statistics; its child is created if needed
    /// and sampled, and the episode took one turn more than the child's.
    pub fn sample<F: Fn(usize, usize, &DiscardStats) -> usize>(
        &mut self,
        hand: &mut TileSet,
        wall: &mut Vec<usize>,
        select: &F,
    ) -> (v: usize)
        requires
            room_to_draw(old(hand)@, old(wall)@),
            total_policy(select),
        ensures
            v <= old(wall)@.len() + 1,
            final(wall)@.len() <= old(wall)@.len(),
            final(wall)@ == old(wall)@.subrange(0, final(wall)@.len() as int),
            old(self).solved || complete(old(hand)@, total(old(hand)@)) ==> final(hand)@ == old(hand)@
                && final(wall)@ == old(wall)@,
            old(self).solved ==> v == 0 && *final(self) == *old(self),
            !old(self).solved && complete(old(hand)@, total(old(hand)@)) ==> {
                &&& v == 0
                &&& final(self).solved
                &&& final(self).value == 0
                &&& final(self).count == old(self).count
                &&& final(self).children == old(self).children
            },
            !old(self).solved && !complete(old(hand)@, total(old(hand)@)) ==> {
                &&& v >= 1
                &&& !final(self).solved
                &&& final(self).count == old(self).count.saturating_add(1)
                &&& final(self).value == old(self).value.saturating_add(v)
            },
            !old(self).solved && !complete(old(hand)@, total(old(hand)@)) && old(self).count < total(
                old(hand)@,
            ) ==> {
                &&& v == 1 + rollout_from(old(hand)@, old(wall)@, total(old(hand)@), 0)
                &&& final(self).children == old(self).children
                &&& final(wall)@ == old(wall)@
                &&& final(hand)@ == drawn(old(hand)@, old(wall)@, if v - 1 < old(wall)@.len() { v as int } else { v - 1 })
            },
            !old(self).solved && !complete(old(hand)@, total(old(hand)@)) && old(self).count >= total(
                old(hand)@,
            ) ==> exists|k: int|
                {
                    &&& 0 <= k < 34
                    &&& old(hand)@[k] > 0
                    &&& #[trigger] final(self).children@[k] is Some
                    &&& final(self).children@ == old(self).children@.update(k, final(self).children@[k])
                    &&& old(self).children@[k] is None ==> forall|j: int|
                        0 <= j < k && old(hand)@[j] > 0 ==> old(self).children@[j] is Some
                    &&& old(self).children@[k] is Some ==> forall|j: int|
                        0 <= j < 34 && old(hand)@[j] > 0 ==> old(self).children@[j] is Some
                    &&& old(self).children@[k] is Some ==> exists|i: usize, s: DiscardStats|
                        {
                            &&& s@ == tried_stats(old(self).children@, old(hand)@, 34)
                            &&& #[trigger] select.ensures((old(self).count, total(old(hand)@) as usize, &s), i)
                            &&& k == picked(s@, i)
                        }
                    &&& slot_visits(final(self).children@[k]) == slot_visits(
                        old(self).children@[k],
                    ).saturating_add(1)
                    &&& slot_value(final(self).children@[k]) == slot_value(
                        old(self).children@[k],
                    ).saturating_add((v - 1) as usize)
                },
        decreases old(wall)@.len(), 1int,
    {
        if self.solved {
            return 0;
        }
        let n_tiles = hand.count();
        if count_head_and_triad(hand, false) >= n_tiles {
            self.solved = true;
            self.value = 0;
            return 0;
        }
        if self.count < n_tiles {
            let v = 1 + playout(hand, wall, n_tiles);
            self.count = self.count.saturating_add(1);
            self.value = self.value.saturating_add(v);
            return v;
        }
        let ghost h0 = hand@;
        let ghost c0 = self.children@;
        let mut untried: usize = 34;
        let mut stats: DiscardStats = Vec::new();
        let ghost mut answer: usize = 0;
        let mut i: usize = 0;
        while i < 34
            invariant
                i <= 34,
                untried <= 34,
                hand@ == h0,
                self.children@ == c0,
                wall@ == old(wall)@,
                forall|j: int| 0 <= j < stats@.len() ==> stats@[j].0 < 34 && h0[stats@[j].0 as int] > 0,
                stats@ == tried_stats(c0, h0, i as int),
                untried == 34 ==> forall|j: int| 0 <= j < i && h0[j] > 0 ==> c0[j] is Some,
                untried < 34 ==> untried < i && h0[untried as int] > 0 && c0[untried as int] is None
                    && forall|j: int| 0 <= j < untried && h0[j] > 0 ==> c0[j] is Some,
                stats@.len() == 0 && untried == 34 ==> total(h0.subrange(0, i as int)) == 0,
            decreases 34 - i,
        {
            assert(h0.subrange(0, i + 1).drop_last() =~= h0.subrange(0, i as int));
            if hand.tile(i) > 0 {
                match &self.children[i] {
                    Some(n) => {
                        stats.push((i, n.count, n.value));
                    },
                    None => {
                        if untried == 34 {
                            untried = i;
                        }
                    },
                }
            }
            i = i + 1;
        }
        assert(h0.subrange(0, 34) =~= h0);
        assert(n_tiles == total(h0));
        let min_tile = if untried < 34 {
            untried
        } else {
            assert(stats@.len() > 0);
            let k0 = select(self.count, n_tiles, &stats);
            let k = if k0 >= stats.len() {
                0
            } else {
                k0
            };
            assert(stats@[k as int].0 == picked(stats@, k0));
            proof {
                answer = k0;
            }
            assert(stats@[k as int].0 < 34 && h0[stats@[k as int].0 as int] > 0);
            stats[k].0
        };
        assert(min_tile < 34 && h0[min_tile as int] > 0);
        assert(untried == 34 ==> select.ensures((self.count, n_tiles, &stats), answer) && min_tile
            == picked(stats@, answer));
        let ghost count0 = self.count;
        *hand.tile_mut(min_tile) -= 1;
        let mut slot: Option<Box<DrawNode>> = None;
        std::mem::swap(&mut self.children[min_tile], &mut slot);
        let mut child = match slot {
            Some(c) => c,
            None => Box::new(DrawNode::new()),
        };
        assert(child.count == slot_visits(c0[min_tile as int]));
        assert(child.value == slot_value(c0[min_tile as int]));
        let w = child.sample(hand, wall, select);
        self.children[min_tile] = Some(child);
        let v = 1 + w;
        self.count = self.count.saturating_add(1);
        self.value = self.value.saturating_add(v);
        proof {
            let kk = min_tile as int;
            assert(self.children@ =~= c0.update(kk, self.children@[kk]));
            assert(self.children@[kk] is Some);
            assert(slot_visits(self.children@[kk]) == slot_visits(c0[kk]).saturating_add(1));
            assert(slot_value(self.children@[kk]) == slot_value(c0[kk]).saturating_add((v - 1) as usize));
            assert(c0[kk] is None ==> forall|j: int| 0 <= j < kk && h0[j] > 0 ==> c0[j] is Some);
            assert(c0[kk] is Some ==> forall|j: int| 0 <= j < 34 && h0[j] > 0 ==> c0[j] is Some);
            if c0[kk] is Some {
                assert(untried == 34);
                assert(select.ensures((count0, total(h0) as usize, &stats), answer));
            }
        }
        v
    }
}

impl DrawNode {
    /// One episode from this node: draws the last tile of `wall` into the
    /// hand and samples the matching child, created if needed (see
    /// `draw_step`). With an empty wall the episode ends here, after no more
    /// turns.
    pub fn sample<F: Fn(usize, usize, &DiscardStats) -> usize>(
        &mut self,
        hand: &mut TileSet,
        wall: &mut Vec<usize>,
        select: &F,
    ) -> (v: usize)
        requires
            room_to_draw(old(hand)@, old(wall)@),
            total_policy(select),
        ensures
            v <= old(wall)@.len(),
            final(wall)@.len() <= old(wall)@.len(),
            old(wall)@.len() > 0 ==> final(wall)@.len() < old(wall)@.len(),
            final(wall)@ == old(wall)@.subrange(0, final(wall)@.len() as int),
            old(wall)@.len() == 0 ==> v == 0 && final(hand)@ == old(hand)@ && final(self).children
                == old(self).children,
            old(wall)@.len() > 0 ==> draw_step(*old(self), *final(self), old(hand)@, old(wall)@, v),
            final(self).count == old(self).count.saturating_add(1),
            final(self).value == old(self).value.saturating_add(v),
        decreases old(wall)@.len(), 0int,
    {
        let ghost h0 = hand@;
        let ghost w0 = wall@;
        let ghost c0 = self.children@;
        let tile = match wall.pop() {
            Some(t) => t,
            None => {
                self.count = self.count.saturating_add(1);
                return 0;
            },
        };
        *hand.tile_mut(tile) += 1;
        assert(drawn(h0, w0, 0) == h0);
        assert(tile == w0[w0.len() - 1]);
        assert(hand@ =~= drawn(h0, w0, 1));
        let mut slot: Option<Box<DiscardNode>> = None;
        std::mem::swap(&mut self.children[tile], &mut slot);
        let mut child = match slot {
            Some(c) => c,
            None => Box::new(DiscardNode::new()),
        };
        assert(child.count == next_count(c0[tile as int]));
        assert(child.value == next_value(c0[tile as int]));
        assert(child.solved == next_solved(c0[tile as int]));
        let ghost before = *child;
        let v = child.sample(hand, wall, select);
        proof {
            if before.solved {
                assert(*child == before);
            }
        }
        self.children[tile] = Some(child);
        self.count = self.count.saturating_add(1);
        self.value = self.value.saturating_add(v);
        proof {
            let t = tile as int;
            assert(self.children@ =~= c0.update(t, self.children@[t]));
            if next_solved(c0[t]) {
                assert(c0[t] == Some(Box::new(before)));
            }
        }
        v
    }
}

/// Sum of the visit counts of a list of `(kind, visits, value)` results.
pub open spec fn visits_sum(r: Seq<(usize, usize, usize)>) -> int
    decreases r.len(),
{
    if r.len() == 0 {
        0
    } else {
        visits_sum(r.drop_last()) + r.last().1
    }
}

/// The number of episodes that `n_samples` asks for: at least one.
pub open spec fn budget(n_samples: usize) -> int {
    if n_samples == 0 {
        1
    } else {
        n_samples as int
    }
}

/// Visits that the root's children receive in `n_samples` episodes: none for
/// a complete hand, and otherwise one per episode after the first `total(h)`,
/// which are rollouts.
pub open spec fn root_child_visits(h: Seq<u8>, n_samples: int) -> int {
    if complete(h, total(h)) || n_samples <= total(h) {
        0
    } else {
        n_samples - total(h)
    }
}

/// Number of kinds below `j` present in the hand.
pub open spec fn present_below(h: Seq<u8>, j: int) -> int
    decreases j,
{
    if j <= 0 {
        0
    } else {
        present_below(h, j - 1) + if h[j - 1] > 0 {
            1int
        } else {
            0
        }
    }
}

/// Number of child slots below `j` that hold a node.
pub open spec fn tried_below(c: Seq<Option<Box<DrawNode>>>, j: int) -> int
    decreases j,
{
    if j <= 0 {
        0
    } else {
        tried_below(c, j - 1) + if c[j - 1] is Some {
            1int
        } else {
            0
        }
    }
}

proof fn lemma_tried_update(c: Seq<Option<Box<DrawNode>>>, k: int, x: Option<Box<DrawNode>>, j: int)
    requires
        0 <= k < c.len(),
        j <= c.len(),
        x is Some,
    ensures
        tried_below(c.update(k, x), j) == tried_below(c, j) + if k < j && c[k] is None {
            1int
        } else {
            0
        },
    decreases j,
{
    if j > 0 {
        lemma_tried_update(c, k, x, j - 1);
    }
}

proof fn lemma_tried_vs_present(c: Seq<Option<Box<DrawNode>>>, h: Seq<u8>, j: int)
    requires
        0 <= j <= c.len(),
        j <= h.len(),
        forall|k: int| 0 <= k < j && c[k] is Some ==> h[k] > 0,
    ensures
        tried_below(c, j) <= present_below(h, j),
        tried_below(c, j) == present_below(h, j) ==> forall|k: int| 0 <= k < j && h[k] > 0 ==> c[k] is Some,
        (forall|k: int| 0 <= k < j && h[k] > 0 ==> c[k] is Some) ==> tried_below(c, j) == present_below(h, j),
    decreases j,
{
    if j > 0 {
        lemma_tried_vs_present(c, h, j - 1);
    }
}

proof fn lemma_slot_le_visits(c: Seq<Option<Box<DrawNode>>>, k: int, j: int)
    requires
        0 <= k < j <= c.len(),
    ensures
        0 <= slot_visits(c[k]) <= visits_below(c, j),
    decreases j,
{
    lemma_visits_nonneg(c, j - 1);
    if k < j - 1 {
        lemma_slot_le_visits(c, k, j - 1);
    }
}

proof fn lemma_visits_nonneg(c: Seq<Option<Box<DrawNode>>>, j: int)
    ensures
        0 <= visits_below(c, j),
    decreases j,
{
    if j > 0 {
        lemma_visits_nonneg(c, j - 1);
    }
}

pub(crate) proof fn lemma_total_at_most_four(s: Seq<u8>)
    requires
        forall|k: int| 0 <= k < s.len() ==> s[k] <= 4,
    ensures
        total(s) <= 4 * s.len(),
    decreases s.len(),
{
    if s.len() > 0 {
        lemma_total_at_most_four(s.drop_last());
    }
}

/// The tiles counted by `w` below kind `k`, by kind, each kind repeated as
/// often as it is counted.
pub open spec fn tiles_below(w: Seq<u8>, k: int) -> Seq<usize>
    decreases k,
{
    if k <= 0 {
        Seq::empty()
    } else {
        tiles_below(w, k - 1) + Seq::new(w[k - 1] as nat, |j: int| (k - 1) as usize)
    }
}

/// The tiles of `wall`, each kind as many times as it is counted, by kind.
pub(crate) fn wall_tiles(wall: &TileSet, acc: &mut Vec<usize>)
    requires
        wall@.len() == 34,
    ensures
        final(acc)@ == tiles_below(wall@, 34),
        final(acc)@.len() == total(wall@),
        forall|j: int| 0 <= j < final(acc)@.len() ==> final(acc)@[j] < 34,
{
    acc.clear();
    let mut i: usize = 0;
    while i < 34
        invariant
            i <= 34,
            wall@.len() == 34,
            acc@ == tiles_below(wall@, i as int),
            acc@.len() == total(wall@.subrange(0, i as int)),
            forall|j: int| 0 <= j < acc@.len() ==> acc@[j] < 34,
        decreases 34 - i,
    {
        assert(wall@.subrange(0, i + 1).drop_last() =~= wall@.subrange(0, i as int));
        let n = wall.tile(i);
        let ghost start = acc@;
        let mut c: u8 = 0;
        while c < n
            invariant
                i < 34,
                c <= n,
                acc@ == start + Seq::new(c as nat, |j: int| i),
                start.len() + c == acc@.len(),
                forall|j: int| 0 <= j < acc@.len() ==> acc@[j] < 34,
            decreases n - c,
        {
            acc.push(i);
            c = c + 1;
            assert(acc@ =~= start + Seq::new(c as nat, |j: int| i));
        }
        i = i + 1;
        assert(acc@ =~= tiles_below(wall@, i as int));
    }
    assert(wall@.subrange(0, 34) =~= wall@);
}

/// Runs `n_samples` episodes (at least one) of the tree search from `hand`,
/// each along a fresh random order of the tiles of `wall`. Untried discards
/// go first; once all are tried, `select` picks among them. Returns, by kind,
/// `(kind, visits, value sum)` of each discard tried at the root; the mean
/// turns to completion of a discard is its value sum over its visits (lower
/// is better).
pub fn discard_tile<F: Fn(usize, usize, &DiscardStats) -> usize>(
    hand: &TileSet,
    wall: &TileSet,
    n_samples: usize,
    rng: &mut StdRng,
    select: &F,
) -> (r: Vec<(usize, usize, usize)>)
    requires
        valid_pair(hand@, wall@),
        total_policy(select),
    ensures
        forall|j: int|
            0 <= j < r@.len() ==> {
                &&& r@[j].0 < 34
                &&& hand@[r@[j].0 as int] > 0
                &&& r@[j].1 >= 1
                &&& r@[j].2 <= r@[j].1 * total(wall@)
            },
        forall|i: int, j: int| 0 <= i < j < r@.len() ==> r@[i].0 < r@[j].0,
        visits_sum(r@) == root_child_visits(hand@, budget(n_samples)),
        complete(hand@, total(hand@)) ==> r@.len() == 0,
        !complete(hand@, total(hand@)) && budget(n_samples) >= total(hand@) + present_below(hand@, 34)
            ==> forall|k: int|
            0 <= k < 34 && hand@[k] > 0 ==> exists|j: int| 0 <= j < r@.len() && (#[trigger] r@[j]).0 == k,
{
    let n_samples = if n_samples == 0 {
        1
    } else {
        n_samples
    };
    let ghost n = total(hand@);
    let ghost ww = total(wall@);
    let ghost np = present_below(hand@, 34);
    let ghost done = complete(hand@, total(hand@));
    proof {
        lemma_total_at_most_four(wall@);
        lemma_total_nonneg(hand@);
        lemma_total_nonneg(wall@);
    }
    let mut root = DiscardNode::new();
    assert(child_visits(root) == 0 && tried_below(root.children@, 34) == 0) by {
        lemma_visits_zero(root.children@, 34);
        lemma_tried_zero(root.children@, 34);
    }
    let mut acc: Vec<usize> = Vec::new();
    let mut e: usize = 0;
    while e < n_samples
        invariant
            e <= n_samples,
            valid_pair(hand@, wall@),
            ww == total(wall@),
            0 <= ww <= 136,
            total_policy(select),
            n == total(hand@),
            np == present_below(hand@, 34),
            done == complete(hand@, total(hand@)),
            done ==> forall|k: int| 0 <= k < 34 ==> root.children@[k] is None,
            !done ==> !root.solved && root.count == e,
            !done ==> child_visits(root) == if e <= n { 0 } else { e - n },
            !done ==> tried_below(root.children@, 34) == if e <= n {
                0
            } else if e - n <= np {
                e - n
            } else {
                np
            },
            forall|k: int|
                0 <= k < 34 && #[trigger] root.children@[k] is Some ==> {
                    &&& hand@[k] > 0
                    &&& slot_visits(root.children@[k]) >= 1
                    &&& slot_value(root.children@[k]) <= slot_visits(root.children@[k]) * ww
                },
        decreases n_samples - e,
    {
        wall_tiles(wall, &mut acc);
        shuffle(&mut acc, rng);
        proof {
            broadcast use vstd::seq_lib::group_to_multiset_ensures;
            assert forall|j: int| 0 <= j < acc@.len() implies acc@[j] < 34 by {
                assert(acc@.to_multiset().count(acc@[j]) > 0);
            }
        }
        let mut h = *hand;
        let ghost c0 = root.children@;
        let ghost acc_len = acc@.len();
        let v = root.sample(&mut h, &mut acc, select);
        proof {
            if !done && e >= n {
                let k = choose|k: int|
                    {
                        &&& 0 <= k < 34
                        &&& hand@[k] > 0
                        &&& #[trigger] root.children@[k] is Some
                        &&& root.children@ == c0.update(k, root.children@[k])
                        &&& c0[k] is None ==> forall|j: int| 0 <= j < k && hand@[j] > 0 ==> c0[j] is Some
                        &&& c0[k] is Some ==> forall|j: int| 0 <= j < 34 && hand@[j] > 0 ==> c0[j] is Some
                        &&& slot_visits(root.children@[k]) == slot_visits(c0[k]).saturating_add(1)
                        &&& slot_value(root.children@[k]) == slot_value(c0[k]).saturating_add((v - 1) as usize)
                    };
                lemma_slot_le_visits(c0, k, 34);
                lemma_visits_update(c0, k, root.children@[k], 34);
                lemma_tried_update(c0, k, root.children@[k], 34);
                lemma_tried_vs_present(c0, hand@, 34);
                if c0[k] is None {
                    assert(tried_below(c0, 34) < np);
                }
                let oc = slot_visits(c0[k]) as int;
                let ov = slot_value(c0[k]) as int;
                assert(ov <= oc * ww) by {
                    if c0[k] is Some {
                        assert(c0[k] is Some);
                    }
                }
                assert(ov + (v - 1) <= (oc + 1) * ww) by (nonlinear_arith)
                    requires
                        ov <= oc * ww,
                        v - 1 <= ww,
                ;
                assert forall|j: int|
                    0 <= j < 34 && #[trigger] root.children@[j] is Some implies {
                        &&& hand@[j] > 0
                        &&& slot_visits(root.children@[j]) >= 1
                        &&& slot_value(root.children@[j]) <= slot_visits(root.children@[j]) * ww
                    } by {
                    if j != k {
                        assert(root.children@[j] == c0[j]);
                        assert(c0[j] is Some);
                    }
                }
            }
        }
        e = e + 1;
    }
    proof {
        if !done && n_samples >= n + np {
            lemma_tried_vs_present(root.children@, hand@, 34);
        }
    }
    let mut discards: Vec<(usize, usize, usize)> = Vec::new();
    let mut i: usize = 0;
    while i < 34
        invariant
            i <= 34,
            visits_sum(discards@) == visits_below(root.children@, i as int),
            forall|j: int|
                0 <= j < discards@.len() ==> {
                    &&& discards@[j].0 < i
                    &&& hand@[discards@[j].0 as int] > 0
                    &&& discards@[j].1 >= 1
                    &&& discards@[j].2 <= discards@[j].1 * ww
                },
            forall|a: int, b: int| 0 <= a < b < discards@.len() ==> discards@[a].0 < discards@[b].0,
            forall|k: int|
                0 <= k < 34 && #[trigger] root.children@[k] is Some ==> {
                    &&& hand@[k] > 0
                    &&& slot_visits(root.children@[k]) >= 1
                    &&& slot_value(root.children@[k]) <= slot_visits(root.children@[k]) * ww
                },
            forall|k: int|
                0 <= k < i && root.children@[k] is Some ==> exists|j: int|
                    0 <= j < discards@.len() && (#[trigger] discards@[j]).0 == k,
            (forall|k: int| 0 <= k < 34 ==> root.children@[k] is None) ==> discards@.len() == 0,
        decreases 34 - i,
    {
        match &root.children[i] {
            Some(node) => {
                let ghost before = discards@;
                assert(root.children@[i as int] is Some);
                discards.push((i, node.count, node.value));
                assert(discards@.drop_last() == before);
                assert(discards@[before.len() as int].0 == i);
                assert forall|k: int|
                    0 <= k < i + 1 && root.children@[k] is Some implies exists|j: int|
                        0 <= j < discards@.len() && (#[trigger] discards@[j]).0 == k by {
                    if k < i {
                        let j = choose|j: int| 0 <= j < before.len() && (#[trigger] before[j]).0 == k;
                        assert(discards@[j] == before[j]);
                    } else {
                        assert(discards@[before.len() as int].0 == k);
                    }
                }
            },
            None => {},
        }
        i = i + 1;
    }
    discards
}

proof fn lemma_tried_zero(c: Seq<Option<Box<DrawNode>>>, j: int)
    requires
        j <= c.len(),
        forall|k: int| 0 <= k < c.len() ==> c[k] is None,
    ensures
        tried_below(c, j) == 0,
    decreases j,
{
    if j > 0 {
        lemma_tried_zero(c, j - 1);
    }
}

proof fn lemma_visits_zero(c: Seq<Option<Box<DrawNode>>>, j: int)
    requires
        j <= c.len(),
        forall|k: int| 0 <= k < c.len() ==> c[k] is None,
    ensures
        visits_below(c, j) == 0,
    decreases j,
{
    if j > 0 {
        lemma_visits_zero(c, j - 1);
    }
}

} // verus!
