//! Monte-Carlo tree search with PUCT selection.  Node statistics are held
//! exactly: a node's value is the running mean of its playouts' outcomes,
//! kept as a fixed-point outcome sum over a visit count, and priors are
//! fixed-point fractions of `SCALE`.  Without an oracle the tree expands
//! with uniform priors and evaluates leaves by random rollout; the polling
//! variant draws priors and leaf values from a score map and reports the
//! keys it is missing, owing an answer whenever the map covers the search
//! horizon.
use vstd::prelude::*;
use crate::board::Board;
use crate::game::{Action, Game};
use crate::model::{moved_pieces, pairs_spec, terminal_spec};
use crate::rng::{Rng, random_shuffle};
use crate::scores::{key_of, ScoreMap};

verus! {

/// The fixed-point unit: priors, outcomes and mean values range over
/// `0..=SCALE`.
pub const SCALE: i64 = 1000000;

/// The visit count past which a node's statistics freeze: the largest
/// count whose outcome sum cannot overflow.
pub const MAX_VISITS: u64 = 18446744073709551615 / 1000000;

/// The exploration constant the design recommends, in hundredths: c = 2.
pub const DEFAULT_EXPLORATION_CENTI: u64 = 200;

/// The largest accepted exploration constant, in hundredths.
pub const MAX_EXPLORATION_CENTI: u64 = 100000;

/// One node of the search tree.  `value_sum` over `n_visits * SCALE` is
/// the node's mean outcome from player 1's side; `prior_fp` is the
/// selection prior as a fraction of `SCALE`.
pub struct Node {
    pub game: Game,
    pub action: Action,
    pub children: Vec<Node>,
    pub n_visits: u64,
    pub prior_fp: i64,
    pub value_sum: u64,
}

/// Well-formedness of a tree: every node holds a legal position, its
/// statistics are consistent, and each child arises from one legal move of
/// its parent; an expanded node is never terminal.
pub open spec fn node_wf(n: Node) -> bool
    decreases n,
{
    &&& n.game.wf()
    &&& n.value_sum <= n.n_visits * SCALE
    &&& n.n_visits <= MAX_VISITS
    &&& 0 <= n.prior_fp <= SCALE
    &&& (n.children@.len() > 0
        ==> !terminal_spec(*n.game.board, n.game.turn as nat, n.game.pieces@))
    &&& forall|i: int| 0 <= i < n.children@.len() ==> {
        let c = #[trigger] n.children@[i];
        &&& node_wf(c)
        &&& c.game.board == n.game.board
        &&& c.game.turn == n.game.turn + 1
        &&& pairs_spec(*n.game.board, n.game.turn as nat, n.game.pieces@)
            .contains((c.action.from, c.action.to))
        &&& c.game.pieces@ == moved_pieces(*n.game.board, n.game.turn as nat,
            n.game.pieces@, c.action.from, c.action.to)
    }
}

/// The score map covers the whole horizon below a position: the position's
/// own key is scored, and so is every position legal play can reach from
/// it.  When this holds of a session's root, the polling search owes a
/// move.
pub open spec fn covered_from(b: Board, turn: nat, pieces: Seq<u8>, sm: ScoreMap) -> bool
    decreases b.turn_limit + 1 - turn,
{
    &&& sm.has_score(key_of(turn, pieces))
    &&& (!terminal_spec(b, turn, pieces) ==> forall|j: int|
        0 <= j < pairs_spec(b, turn, pieces).len()
        ==> covered_from(b, (turn + 1) as nat,
            moved_pieces(b, turn, pieces,
                (#[trigger] pairs_spec(b, turn, pieces)[j]).0,
                pairs_spec(b, turn, pieces)[j].1), sm))
}

/// `k` is the key of a position that legal play can reach from here and
/// that the score map has no score for.
pub open spec fn missing_key_from(b: Board, turn: nat, pieces: Seq<u8>, sm: ScoreMap, k: Seq<u8>) -> bool
    decreases b.turn_limit + 1 - turn,
{
    ||| (k == key_of(turn, pieces) && !sm.has_score(k))
    ||| (!terminal_spec(b, turn, pieces) && exists|j: int|
        0 <= j < pairs_spec(b, turn, pieces).len()
        && missing_key_from(b, (turn + 1) as nat,
            moved_pieces(b, turn, pieces,
                (#[trigger] pairs_spec(b, turn, pieces)[j]).0,
                pairs_spec(b, turn, pieces)[j].1), sm, k))
}

/// A missing key below a position refutes coverage of that position.
pub proof fn lemma_missing_refutes_covered(b: Board, turn: nat, pieces: Seq<u8>, sm: ScoreMap, k: Seq<u8>)
    requires
        missing_key_from(b, turn, pieces, sm, k),
    ensures
        !covered_from(b, turn, pieces, sm),
    decreases b.turn_limit + 1 - turn,
{
    if k == key_of(turn, pieces) && !sm.has_score(k) {
    } else {
        let j = choose|j: int| 0 <= j < pairs_spec(b, turn, pieces).len()
            && missing_key_from(b, (turn + 1) as nat,
                moved_pieces(b, turn, pieces,
                    (#[trigger] pairs_spec(b, turn, pieces)[j]).0,
                    pairs_spec(b, turn, pieces)[j].1), sm, k);
        lemma_missing_refutes_covered(b, (turn + 1) as nat,
            moved_pieces(b, turn, pieces, pairs_spec(b, turn, pieces)[j].0,
                pairs_spec(b, turn, pieces)[j].1), sm, k);
    }
}


/// `x` paired with the move that produced it is one successor of `parent`.
pub open spec fn succ_of(parent: Game, x: (Game, Action)) -> bool {
    &&& x.0.wf()
    &&& x.0.board == parent.board
    &&& x.0.turn == parent.turn + 1
    &&& pairs_spec(*parent.board, parent.turn as nat, parent.pieces@)
        .contains((x.1.from, x.1.to))
    &&& x.0.pieces@ == moved_pieces(*parent.board, parent.turn as nat,
        parent.pieces@, x.1.from, x.1.to)
}


/// `key` is the score-map key of the successor some pair of `prs` leads
/// to from `(turn, pieces)`, and the map has no score for it.
pub open spec fn succ_missing(b: Board, turn: nat, pieces: Seq<u8>, prs: Seq<(u8, u8)>, sm: ScoreMap, key: Seq<u8>) -> bool {
    exists|j: int| 0 <= j < prs.len()
        && key == key_of((turn + 1) as nat,
            moved_pieces(b, turn, pieces, (#[trigger] prs[j]).0, prs[j].1))
        && !sm.has_score(key)
}

/// The move pairs a run of nodes carries.
pub open spec fn node_pairs(s: Seq<Node>) -> Seq<(u8, u8)> {
    s.map_values(|c: Node| (c.action.from, c.action.to))
}

/// The uniform prior over `k` children.
pub open spec fn child_uniform(k: int) -> int {
    (SCALE as int) / (if k > SCALE { SCALE as int } else if k < 1 { 1int } else { k })
}

/// The prior a fresh child with position `(turn, pieces)` receives among
/// `k` siblings: its clamped score when a map is given, else uniform.
pub open spec fn child_prior(scores: Option<&ScoreMap>, turn: nat, pieces: Seq<u8>, k: int) -> int {
    match scores {
        Some(m) => if m.has_score(key_of(turn, pieces)) {
            let v = m.score_at(key_of(turn, pieces));
            if v < 0 { 0int } else if v > SCALE { SCALE as int } else { v as int }
        } else {
            (SCALE / 2) as int
        },
        None => child_uniform(k),
    }
}

/// Mapping a function over two runs with equal multisets yields equal
/// multisets again.
pub proof fn lemma_map_multiset<A, B>(s1: Seq<A>, s2: Seq<A>, f: spec_fn(A) -> B)
    requires
        s1.to_multiset() == s2.to_multiset(),
    ensures
        s1.map_values(f).to_multiset() == s2.map_values(f).to_multiset(),
    decreases s1.len(),
{
    broadcast use vstd::seq_lib::group_to_multiset_ensures;
    broadcast use vstd::multiset::group_multiset_axioms;
    if s1.len() == 0 {
        assert(s2.to_multiset().len() == 0);
        assert(s2.len() == 0);
        assert(s1.map_values(f) =~= s2.map_values(f));
    } else {
        let a = s1.last();
        assert(s1.contains(a));
        assert(s1.to_multiset().contains(a));
        assert(s2.to_multiset().contains(a));
        assert(s2.contains(a));
        let j = choose|j: int| 0 <= j < s2.len() && s2[j] == a;
        let s1p = s1.drop_last();
        let s2p = s2.remove(j);
        assert(s1 =~= s1p.push(a));
        assert(s1.to_multiset() == s1p.to_multiset().insert(a));
        assert(s2p.to_multiset() == s2.to_multiset().remove(a));
        assert(s1p.to_multiset() =~= s2p.to_multiset());
        lemma_map_multiset(s1p, s2p, f);
        assert(s1.map_values(f) =~= s1p.map_values(f).push(f(a)));
        assert(s1.map_values(f).to_multiset()
            == s1p.map_values(f).to_multiset().insert(f(a)));
        assert(s2.map_values(f).remove(j) =~= s2p.map_values(f));
        assert(s2.map_values(f)[j] == f(a));
        assert(s2.map_values(f).remove(j).to_multiset()
            == s2.map_values(f).to_multiset().remove(f(a)));
        assert(s2.map_values(f).to_multiset().contains(f(a))) by {
            assert(s2.map_values(f).contains(f(a))) by {
                assert(s2.map_values(f)[j] == f(a));
            }
        }
        assert(s1.map_values(f).to_multiset() =~= s2.map_values(f).to_multiset());
    }
}

/// The integer square root.
pub open spec fn sqrt_val(x: int) -> int {
    choose|r: int| r >= 0 && #[trigger] (r * r) <= x < (r + 1) * (r + 1)
}

/// Integer square roots are unique, so any witness is the chosen one.
pub proof fn lemma_sqrt_unique(x: int, r: int)
    requires
        r >= 0,
        r * r <= x < (r + 1) * (r + 1),
    ensures
        sqrt_val(x) == r,
{
    assert(exists|t: int| t >= 0 && #[trigger] (t * t) <= x < (t + 1) * (t + 1)) by {
        assert(r * r <= x);
    }
    let s = sqrt_val(x);
    assert(s >= 0 && s * s <= x < (s + 1) * (s + 1));
    if s < r {
        assert((s + 1) * (s + 1) <= r * r) by (nonlinear_arith)
            requires 0 <= s, s + 1 <= r;
        assert(false);
    }
    if r < s {
        assert((r + 1) * (r + 1) <= s * s) by (nonlinear_arith)
            requires 0 <= r, r + 1 <= s;
        assert(false);
    }
}

/// The integer square root of a 128-bit number.
fn isqrt_u128(x: u128) -> (r: u128)
    ensures
        (r as int) * (r as int) <= x as int,
        x < ((r as int) + 1) * ((r as int) + 1),
        r < 0x1_0000_0000_0000_0000u128,
        r == sqrt_val(x as int),
{
    let mut lo: u128 = 0;
    let mut hi: u128 = 1u128 << 64;
    proof {
        assert((1u128 << 64) == 0x1_0000_0000_0000_0000u128) by (bit_vector);
        assert((x as int) < (hi as int) * (hi as int)) by (nonlinear_arith)
            requires hi == 0x1_0000_0000_0000_0000u128, x <= u128::MAX;
    }
    while lo + 1 < hi
        invariant
            lo < hi,
            hi <= 0x1_0000_0000_0000_0000u128,
            (lo as int) * (lo as int) <= x as int,
            (x as int) < (hi as int) * (hi as int),
        decreases hi - lo,
    {
        let mid = lo + (hi - lo) / 2;
        proof {
            assert(mid < 0x1_0000_0000_0000_0000u128);
            assert((mid as int) * (mid as int) <= u128::MAX) by (nonlinear_arith)
                requires mid < 0x1_0000_0000_0000_0000u128;
        }
        if mid * mid <= x {
            lo = mid;
        } else {
            hi = mid;
        }
    }
    proof {
        lemma_sqrt_unique(x as int, lo as int);
    }
    lo
}

/// The fixed-point PUCT score of a child under a parent with
/// `parent_visits` visits, from the side to move's view: the child's mean
/// outcome plus a prior-weighted exploration bonus, with the exploration
/// constant given in hundredths, that decays with the child's visits.
pub open spec fn puct_of(parent_visits: u64, c: Node, p1_turn: bool, c_centi: u64) -> int {
    let q_raw = if c.n_visits == 0 {
        SCALE / 2
    } else if (c.value_sum as int) / (c.n_visits as int) > SCALE {
        SCALE as int
    } else {
        (c.value_sum as int) / (c.n_visits as int)
    };
    let p_raw = if c.prior_fp < 0 {
        0int
    } else if c.prior_fp > SCALE {
        SCALE as int
    } else {
        c.prior_fp as int
    };
    let q = if p1_turn { q_raw } else { SCALE - q_raw };
    let p = if p1_turn { p_raw } else { SCALE - p_raw };
    q + c_centi * p * sqrt_val((parent_visits as int) * (SCALE as int) * (SCALE as int))
        / (100 * (SCALE as int) * (1 + c.n_visits as int))
}

impl Node {
    /// The index of the child the PUCT rule selects: mean value plus a
    /// prior-weighted exploration bonus, both seen from the side to move.
    fn select_index(&self, c_centi: u64) -> (r: usize)
        requires
            self.children@.len() >= 1,
            c_centi <= MAX_EXPLORATION_CENTI,
            forall|j: int| 0 <= j < self.children@.len()
                ==> (#[trigger] self.children@[j]).value_sum
                    <= self.children@[j].n_visits * SCALE,
        ensures
            r < self.children@.len(),
            forall|j: int| 0 <= j < self.children@.len()
                ==> puct_of(self.n_visits, #[trigger] self.children@[j],
                    self.game.turn % 2 == 0, c_centi)
                    <= puct_of(self.n_visits, self.children@[r as int],
                        self.game.turn % 2 == 0, c_centi),
    {
        let p1_turn = self.game.is_p1_moving_next();
        proof {
            assert((self.n_visits as u128) * (SCALE as u128)
                <= 0xFFFF_FFFF_FFFF_FFFFu128 * (SCALE as u128))
                by (nonlinear_arith)
                requires self.n_visits as u128 <= 0xFFFF_FFFF_FFFF_FFFFu128;
            assert((self.n_visits as u128) * (SCALE as u128) * (SCALE as u128)
                <= 0xFFFF_FFFF_FFFF_FFFFu128 * (SCALE as u128) * (SCALE as u128))
                by (nonlinear_arith)
                requires self.n_visits as u128 <= 0xFFFF_FFFF_FFFF_FFFFu128;
            assert(0xFFFF_FFFF_FFFF_FFFFu128 * (SCALE as u128) * (SCALE as u128)
                < u128::MAX) by (nonlinear_arith);
        }
        let sqrt_fp = isqrt_u128(
            (self.n_visits as u128) * (SCALE as u128) * (SCALE as u128));
        let mut best: usize = 0;
        let mut best_score: u128 = 0;
        let mut started = false;
        let mut i: usize = 0;
        while i < self.children.len()
            invariant
                i <= self.children@.len(),
                self.children@.len() >= 1,
                c_centi <= MAX_EXPLORATION_CENTI,
                forall|j: int| 0 <= j < self.children@.len()
                    ==> (#[trigger] self.children@[j]).value_sum
                        <= self.children@[j].n_visits * SCALE,
                sqrt_fp < 0x1_0000_0000_0000_0000u128,
                sqrt_fp == sqrt_val((self.n_visits as int) * (SCALE as int) * (SCALE as int)),
                p1_turn == (self.game.turn % 2 == 0),
                started == (i > 0),
                started ==> best < i,
                started ==> best_score
                    == puct_of(self.n_visits, self.children@[best as int], p1_turn,
                        c_centi),
                started ==> forall|j: int| 0 <= j < i
                    ==> puct_of(self.n_visits, #[trigger] self.children@[j], p1_turn,
                        c_centi) <= best_score,
            decreases self.children@.len() - i,
        {
            let c = &self.children[i];
            let q_fp: u128 = if c.n_visits == 0 {
                (SCALE as u128) / 2
            } else {
                proof {
                    assert(c.value_sum <= c.n_visits * SCALE);
                    assert((c.value_sum as int) / (c.n_visits as int) <= SCALE as int)
                        by (nonlinear_arith)
                        requires
                            c.value_sum <= c.n_visits * SCALE,
                            c.n_visits >= 1;
                }
                let w = (c.value_sum as u128) / (c.n_visits as u128);
                if w > SCALE as u128 {
                    SCALE as u128
                } else {
                    w
                }
            };
            let p_raw = if c.prior_fp < 0 {
                0u128
            } else if c.prior_fp > SCALE {
                SCALE as u128
            } else {
                c.prior_fp as u128
            };
            let (q, p) = if p1_turn {
                (q_fp, p_raw)
            } else {
                ((SCALE as u128) - q_fp, (SCALE as u128) - p_raw)
            };
            proof {
                assert(p <= SCALE as u128);
                assert(q <= SCALE as u128);
                assert((c_centi as u128) * p * sqrt_fp
                    <= (MAX_EXPLORATION_CENTI as u128) * (SCALE as u128)
                        * 0x1_0000_0000_0000_0000u128)
                    by (nonlinear_arith)
                    requires
                        c_centi as u128 <= MAX_EXPLORATION_CENTI as u128,
                        p <= SCALE as u128,
                        sqrt_fp <= 0x1_0000_0000_0000_0000u128;
                assert((MAX_EXPLORATION_CENTI as u128) * (SCALE as u128)
                    * 0x1_0000_0000_0000_0000u128 < u128::MAX) by (nonlinear_arith);
                assert((c_centi as u128) * p
                    <= (MAX_EXPLORATION_CENTI as u128) * (SCALE as u128))
                    by (nonlinear_arith)
                    requires
                        c_centi as u128 <= MAX_EXPLORATION_CENTI as u128,
                        p <= SCALE as u128;
                assert(100u128 * (SCALE as u128) * (1u128 + c.n_visits as u128)
                    <= 100u128 * (SCALE as u128) * 0x2_0000_0000_0000_0000u128)
                    by (nonlinear_arith)
                    requires c.n_visits as u128 <= 0xFFFF_FFFF_FFFF_FFFFu128;
            }
            let explore = (c_centi as u128) * p * sqrt_fp
                / (100u128 * (SCALE as u128) * (1u128 + c.n_visits as u128));
            proof {
                assert(explore <= (c_centi as u128) * p * sqrt_fp);
            }
            let score = q + explore;
            proof {
                assert(score == puct_of(self.n_visits, self.children@[i as int],
                    p1_turn, c_centi));
            }
            if !started || score > best_score {
                best = i;
                best_score = score;
            }
            started = true;
            i = i + 1;
        }
        best
    }

    /// The index of a child with the greatest visit count.
    fn best_child_index(&self) -> (r: usize)
        requires
            self.children@.len() >= 1,
        ensures
            r < self.children@.len(),
            forall|j: int| 0 <= j < self.children@.len()
                ==> (#[trigger] self.children@[j]).n_visits
                    <= self.children@[r as int].n_visits,
    {
        let mut best: usize = 0;
        let mut i: usize = 1;
        while i < self.children.len()
            invariant
                1 <= self.children@.len(),
                i <= self.children@.len(),
                best < i,
                forall|j: int| 0 <= j < i
                    ==> (#[trigger] self.children@[j]).n_visits
                        <= self.children@[best as int].n_visits,
            decreases self.children@.len() - i,
        {
            if self.children[i].n_visits > self.children[best].n_visits {
                best = i;
            }
            i = i + 1;
        }
        best
    }

    /// Fills in the children of an unexpanded node: exactly one per legal
    /// move, in a random order.  With a score map the priors come from it
    /// and any missing successor keys are reported instead, the node left
    /// untouched; without one the prior is uniform.  `Ok(true)` means the
    /// position was terminal and there is nothing to expand.
    fn expand_with(&mut self, scores: Option<&ScoreMap>, rng: &mut Rng)
        -> (r: Result<bool, Vec<Vec<u8>>>)
        requires
            node_wf(*old(self)),
            old(self).children@.len() == 0,
            scores matches Some(m) ==> m.wf(),
        ensures
            node_wf(*final(self)),
            final(self).game == old(self).game,
            final(self).action == old(self).action,
            final(self).n_visits == old(self).n_visits,
            final(self).value_sum == old(self).value_sum,
            final(self).prior_fp == old(self).prior_fp,
            r matches Ok(true) ==> final(self).children@.len() == 0
                && terminal_spec(*old(self).game.board, old(self).game.turn as nat,
                    old(self).game.pieces@),
            r matches Ok(false) ==> ({
                let prs = pairs_spec(*old(self).game.board,
                    old(self).game.turn as nat, old(self).game.pieces@);
                &&& !terminal_spec(*old(self).game.board, old(self).game.turn as nat,
                    old(self).game.pieces@)
                &&& final(self).children@.len() == prs.len()
                &&& node_pairs(final(self).children@).to_multiset()
                    == prs.to_multiset()
                &&& forall|i: int| 0 <= i < final(self).children@.len() ==> {
                    let c = #[trigger] final(self).children@[i];
                    &&& c.n_visits == 0
                    &&& c.value_sum == 0
                    &&& c.children@.len() == 0
                    &&& c.prior_fp == child_prior(scores, c.game.turn as nat,
                        c.game.pieces@, prs.len() as int)
                }
            }),
            r matches Err(keys) ==> ({
                let prs = pairs_spec(*old(self).game.board,
                    old(self).game.turn as nat, old(self).game.pieces@);
                &&& *final(self) == *old(self)
                &&& keys@.len() >= 1
                &&& scores.is_some()
                &&& !terminal_spec(*old(self).game.board, old(self).game.turn as nat,
                    old(self).game.pieces@)
                &&& forall|i: int| 0 <= i < keys@.len()
                    ==> succ_missing(*old(self).game.board,
                        old(self).game.turn as nat, old(self).game.pieces@, prs,
                        *scores.unwrap(), (#[trigger] keys@[i])@)
            }),
    {
        let bref: &Board = &*self.game.board;
        let ghost parent = self.game;
        let ghost prs = pairs_spec(*bref, self.game.turn as nat, self.game.pieces@);
        let (mut states, mut actions) = self.game.expand(true);
        if states.len() == 0 {
            proof {
                if !terminal_spec(*bref, parent.turn as nat, parent.pieces@) {
                    assert(prs.len() == states@.len());
                }
            }
            return Ok(true);
        }
        proof {
            assert(!terminal_spec(*bref, parent.turn as nat, parent.pieces@));
        }
        if let Some(map) = scores {
            let mut missing: Vec<Vec<u8>> = Vec::new();
            let mut i: usize = 0;
            while i < states.len()
                invariant
                    map.wf(),
                    i <= states@.len(),
                    states@.len() == prs.len(),
                    parent == self.game,
                    prs == pairs_spec(*self.game.board, self.game.turn as nat,
                        self.game.pieces@),
                    forall|k: int| 0 <= k < states@.len() ==> {
                        let s = #[trigger] states@[k];
                        &&& s.turn == parent.turn + 1
                        &&& s.pieces@ == moved_pieces(*parent.board,
                            parent.turn as nat, parent.pieces@, prs[k].0, prs[k].1)
                    },
                    *self == *old(self),
                    prs == pairs_spec(*old(self).game.board,
                        old(self).game.turn as nat, old(self).game.pieces@),
                    forall|j: int| 0 <= j < missing@.len()
                        ==> succ_missing(*old(self).game.board,
                            old(self).game.turn as nat, old(self).game.pieces@,
                            prs, *map, (#[trigger] missing@[j])@),
                decreases states@.len() - i,
            {
                let key = states[i].key();
                proof {
                    assert(*parent.board == *old(self).game.board);
                    assert(key@ == key_of((old(self).game.turn + 1) as nat,
                        moved_pieces(*old(self).game.board,
                            old(self).game.turn as nat, old(self).game.pieces@,
                            prs[i as int].0, prs[i as int].1)));
                }
                if map.get(&key).is_none() {
                    let ghost pre_missing = missing@;
                    missing.push(key);
                    proof {
                        assert forall|j: int| 0 <= j < missing@.len()
                            implies succ_missing(*old(self).game.board,
                                old(self).game.turn as nat, old(self).game.pieces@,
                                prs, *map, (#[trigger] missing@[j])@) by {
                            if j < pre_missing.len() {
                                assert(missing@[j] == pre_missing[j]);
                            } else {
                                assert(missing@[j] == key);
                                assert(0 <= i < prs.len()
                                    && missing@[j]@ == key_of(
                                        (old(self).game.turn + 1) as nat,
                                        moved_pieces(*old(self).game.board,
                                            old(self).game.turn as nat,
                                            old(self).game.pieces@,
                                            (prs[i as int]).0, prs[i as int].1))
                                    && !map.has_score(missing@[j]@));
                            }
                        };
                    }
                }
                i = i + 1;
            }
            if missing.len() > 0 {
                proof {
                    assert(*old(self).game.board == *bref);
                    assert(pairs_spec(*old(self).game.board,
                        old(self).game.turn as nat, old(self).game.pieces@) == prs);
                    assert(!terminal_spec(*old(self).game.board,
                        old(self).game.turn as nat, old(self).game.pieces@));
                    assert(*map == *scores.unwrap());
                }
                return Err(missing);
            }
        }
        let ghost states0 = states@;
        let ghost actions0 = actions@;
        let n = states.len();
        let mut zipped: Vec<(Game, Action)> = Vec::new();
        let mut i: usize = 0;
        while i < n
            invariant
                n == states0.len(),
                n == actions0.len(),
                states@ == states0.skip(i as int),
                actions@ == actions0.skip(i as int),
                i <= n,
                zipped@.len() == i,
                forall|j: int| 0 <= j < i
                    ==> #[trigger] zipped@[j] == (states0[j], actions0[j]),
            decreases n - i,
        {
            let s = states.remove(0);
            let a = actions.remove(0);
            proof {
                assert(states0.skip(i as int).remove(0) =~= states0.skip(i + 1));
                assert(actions0.skip(i as int).remove(0) =~= actions0.skip(i + 1));
                assert(states0.skip(i as int)[0] == states0[i as int]);
                assert(actions0.skip(i as int)[0] == actions0[i as int]);
            }
            zipped.push((s, a));
            i = i + 1;
        }
        proof {
            assert forall|j: int| 0 <= j < n
                implies succ_of(parent, #[trigger] zipped@[j]) by {
                assert(zipped@[j] == (states0[j], actions0[j]));
                assert(prs.contains((actions0[j].from, actions0[j].to))) by {
                    assert(prs[j] == (actions0[j].from, actions0[j].to));
                }
            };
        }
        let ghost pre_shuffle = zipped@;
        random_shuffle(rng, &mut zipped);
        proof {
            broadcast use vstd::seq_lib::group_to_multiset_ensures;
            assert forall|j: int| 0 <= j < zipped@.len()
                implies succ_of(parent, #[trigger] zipped@[j]) by {
                assert(zipped@.contains(zipped@[j]));
                assert(zipped@.to_multiset().contains(zipped@[j]));
                assert(pre_shuffle.to_multiset().contains(zipped@[j]));
                assert(pre_shuffle.contains(zipped@[j]));
                let k = choose|k: int| 0 <= k < pre_shuffle.len()
                    && pre_shuffle[k] == zipped@[j];
            };
            lemma_map_multiset(pre_shuffle, zipped@,
                |x: (Game, Action)| (x.1.from, x.1.to));
            assert(pre_shuffle.map_values(|x: (Game, Action)| (x.1.from, x.1.to))
                =~= prs) by {
                assert(forall|j: int| 0 <= j < n
                    ==> pre_shuffle.map_values(
                        |x: (Game, Action)| (x.1.from, x.1.to))[j]
                        == (actions0[j].from, actions0[j].to));
            }
        }
        let ghost zipped0 = zipped@;
        let k = zipped.len();
        let kk: i64 = if (k as u64) > (SCALE as u64) { SCALE } else { k as i64 };
        let uniform = SCALE / kk;
        let mut kids: Vec<Node> = Vec::new();
        while zipped.len() > 0
            invariant
                node_wf(*old(self)),
                *self == *old(self),
                parent == self.game,
                0 <= uniform <= SCALE,
                uniform == child_uniform(k as int),
                k == zipped0.len(),
                scores matches Some(m) ==> m.wf(),
                kids@.len() + zipped@.len() == k,
                zipped@ == zipped0.skip(kids@.len() as int),
                forall|j: int| 0 <= j < zipped0.len()
                    ==> succ_of(parent, #[trigger] zipped0[j]),
                forall|j: int| 0 <= j < kids@.len() ==> {
                    let c = #[trigger] kids@[j];
                    &&& node_wf(c)
                    &&& c.game.board == parent.board
                    &&& c.game.turn == parent.turn + 1
                    &&& pairs_spec(*parent.board, parent.turn as nat, parent.pieces@)
                        .contains((c.action.from, c.action.to))
                    &&& c.game.pieces@ == moved_pieces(*parent.board,
                        parent.turn as nat, parent.pieces@, c.action.from, c.action.to)
                    &&& c.game == zipped0[j].0
                    &&& c.action == zipped0[j].1
                    &&& c.n_visits == 0
                    &&& c.value_sum == 0
                    &&& c.children@.len() == 0
                    &&& c.prior_fp == child_prior(scores, c.game.turn as nat,
                        c.game.pieces@, k as int)
                },
            decreases zipped@.len(),
        {
            let ghost built = kids@.len() as int;
            let (sg, sa) = zipped.remove(0);
            proof {
                assert(zipped0.skip(built)[0] == zipped0[built]);
                assert(zipped0.skip(built).remove(0) =~= zipped0.skip(built + 1));
                assert(succ_of(parent, zipped0[built]));
            }
            let prior = match scores {
                Some(map) => {
                    let key = sg.key();
                    proof {
                        assert(key@ == key_of(sg.turn as nat, sg.pieces@));
                    }
                    match map.get(&key) {
                        Some(v) => {
                            if v < 0 {
                                0
                            } else if v > SCALE {
                                SCALE
                            } else {
                                v
                            }
                        },
                        None => SCALE / 2,
                    }
                },
                None => uniform,
            };
            let child = Node {
                game: sg,
                action: sa,
                children: Vec::new(),
                n_visits: 0,
                prior_fp: prior,
                value_sum: 0,
            };
            kids.push(child);
        }
        self.children = kids;
        proof {
            assert(final(self).children@.len() == k);
            assert(node_pairs(final(self).children@)
                =~= zipped0.map_values(|x: (Game, Action)| (x.1.from, x.1.to))) by {
                assert(forall|j: int| 0 <= j < k
                    ==> node_pairs(final(self).children@)[j]
                        == (final(self).children@[j].action.from,
                            final(self).children@[j].action.to));
            }
        }
        Ok(false)
    }

    /// One playout: descend by PUCT to a leaf, expand and evaluate it, and
    /// add the outcome to every node on the path.  Without a score map the
    /// leaf value of a fresh non-terminal position comes from a random
    /// rollout; the polling mode values it by the host's score for the
    /// position itself, and reports any key the map lacks with the node's
    /// counters untouched, so only completed playouts count.
    fn playout(&mut self, scores: Option<&ScoreMap>, c_centi: u64, rng: &mut Rng)
        -> (r: Result<u64, Vec<Vec<u8>>>)
        requires
            node_wf(*old(self)),
            c_centi <= MAX_EXPLORATION_CENTI,
            scores matches Some(m) ==> m.wf(),
        ensures
            node_wf(*final(self)),
            final(self).game == old(self).game,
            final(self).action == old(self).action,
            final(self).prior_fp == old(self).prior_fp,
            final(self).children@.len() >= old(self).children@.len(),
            r matches Ok(v) ==> v <= SCALE as u64
                && final(self).n_visits == (if old(self).n_visits < MAX_VISITS {
                    old(self).n_visits + 1
                } else {
                    old(self).n_visits as int
                })
                && final(self).value_sum == (if old(self).n_visits < MAX_VISITS {
                    old(self).value_sum + v
                } else {
                    old(self).value_sum as int
                })
                && (old(self).children@.len() == 0
                    && !terminal_spec(*old(self).game.board,
                        old(self).game.turn as nat, old(self).game.pieces@)
                    ==> final(self).children@.len() >= 1),
            r matches Err(keys) ==> keys@.len() >= 1
                && scores.is_some()
                && final(self).n_visits == old(self).n_visits
                && final(self).value_sum == old(self).value_sum
                && final(self).children@.len() == old(self).children@.len()
                && (forall|i: int| 0 <= i < keys@.len()
                    ==> missing_key_from(*old(self).game.board,
                        old(self).game.turn as nat, old(self).game.pieces@,
                        *scores.unwrap(), (#[trigger] keys@[i])@)),
        decreases self.game.board.turn_limit + 2 - self.game.turn,
    {
        let bref: &Board = &*self.game.board;
        let ghost b = *bref;
        if self.children.len() == 0 {
            let mut own: i64 = 0;
            if let Some(map) = scores {
                let key = self.game.key();
                proof {
                    assert(key@ == key_of(self.game.turn as nat, self.game.pieces@));
                }
                match map.get(&key) {
                    Some(v) => {
                        own = v;
                    },
                    None => {
                        return Err(vec![key]);
                    },
                }
            }
            let is_leaf = match self.expand_with(scores, rng) {
                Ok(flag) => flag,
                Err(keys) => {
                    proof {
                        let sm = *scores.unwrap();
                        let prs = pairs_spec(b, old(self).game.turn as nat,
                            old(self).game.pieces@);
                        assert forall|i: int| 0 <= i < keys@.len()
                            implies missing_key_from(b, old(self).game.turn as nat,
                                old(self).game.pieces@, sm,
                                (#[trigger] keys@[i])@) by {
                            assert(succ_missing(b, old(self).game.turn as nat,
                                old(self).game.pieces@, prs, sm, keys@[i]@));
                            let j = choose|j: int| 0 <= j < prs.len()
                                && keys@[i]@ == key_of(
                                    (old(self).game.turn + 1) as nat,
                                    moved_pieces(b, old(self).game.turn as nat,
                                        old(self).game.pieces@,
                                        (#[trigger] prs[j]).0, prs[j].1))
                                && !sm.has_score(keys@[i]@);
                            assert(missing_key_from(b,
                                (old(self).game.turn + 1) as nat,
                                moved_pieces(b, old(self).game.turn as nat,
                                    old(self).game.pieces@, prs[j].0, prs[j].1),
                                sm, keys@[i]@));
                        };
                    }
                    return Err(keys);
                },
            };
            let d1 = self.game.p1_distance();
            let d2 = self.game.p2_distance();
            let v: u64;
            if is_leaf {
                v = if d1 < d2 {
                    SCALE as u64
                } else if d2 < d1 {
                    0
                } else {
                    (SCALE as u64) / 2
                };
            } else {
                match scores {
                    Some(_) => {
                        let clamped = if own < 0 {
                            0
                        } else if own > SCALE {
                            SCALE
                        } else {
                            own
                        };
                        v = clamped as u64;
                    },
                    None => {
                        v = rollout(&self.game, rng);
                    },
                }
            }
            if self.n_visits < MAX_VISITS {
                proof {
                    assert(self.value_sum + v <= (self.n_visits + 1) * SCALE)
                        by (nonlinear_arith)
                        requires
                            self.value_sum <= self.n_visits * SCALE,
                            v <= SCALE as u64;
                    assert((self.n_visits + 1) * SCALE <= MAX_VISITS * SCALE)
                        by (nonlinear_arith)
                        requires self.n_visits + 1 <= MAX_VISITS;
                    assert(MAX_VISITS * SCALE <= u64::MAX);
                }
                self.n_visits = self.n_visits + 1;
                self.value_sum = self.value_sum + v;
            }
            return Ok(v);
        }
        proof {
            assert forall|j: int| 0 <= j < self.children@.len()
                implies (#[trigger] self.children@[j]).value_sum
                    <= self.children@[j].n_visits * SCALE by {
                assert(node_wf(self.children@[j]));
            };
        }
        let idx = self.select_index(c_centi);
        let ghost pre_children = self.children@;
        let mut child = self.children.remove(idx);
        proof {
            assert(pre_children[idx as int] == child);
            assert(node_wf(child));
        }
        let res = child.playout(scores, c_centi, rng);
        self.children.insert(idx, child);
        proof {
            assert(self.children@ =~= pre_children.update(idx as int, child));
            assert forall|j: int| 0 <= j < self.children@.len() implies {
                let c = #[trigger] self.children@[j];
                &&& node_wf(c)
                &&& c.game.board == self.game.board
                &&& c.game.turn == self.game.turn + 1
                &&& pairs_spec(*self.game.board, self.game.turn as nat,
                    self.game.pieces@).contains((c.action.from, c.action.to))
                &&& c.game.pieces@ == moved_pieces(*self.game.board,
                    self.game.turn as nat, self.game.pieces@, c.action.from,
                    c.action.to)
            } by {
                if j != idx {
                    assert(self.children@[j] == pre_children[j]);
                }
            };
        }
        let v = match res {
            Ok(v) => v,
            Err(keys) => {
                proof {
                    let sm = *scores.unwrap();
                    let pc = pre_children[idx as int];
                    let pair = (pc.action.from, pc.action.to);
                    let prs = pairs_spec(b, old(self).game.turn as nat,
                        old(self).game.pieces@);
                    assert(prs.contains(pair));
                    let j = choose|j: int| 0 <= j < prs.len() && prs[j] == pair;
                    assert forall|i: int| 0 <= i < keys@.len()
                        implies missing_key_from(b, old(self).game.turn as nat,
                            old(self).game.pieces@, sm, (#[trigger] keys@[i])@) by {
                        assert(missing_key_from(b, pc.game.turn as nat,
                            pc.game.pieces@, sm, keys@[i]@));
                        assert(pc.game.turn as nat == (old(self).game.turn + 1) as nat);
                        assert(pc.game.pieces@ == moved_pieces(b,
                            old(self).game.turn as nat, old(self).game.pieces@,
                            prs[j].0, prs[j].1));
                    };
                }
                return Err(keys);
            },
        };
        if self.n_visits < MAX_VISITS {
            proof {
                assert(self.value_sum + v <= (self.n_visits + 1) * SCALE)
                    by (nonlinear_arith)
                    requires
                        self.value_sum <= self.n_visits * SCALE,
                        v <= SCALE as u64;
                assert((self.n_visits + 1) * SCALE <= MAX_VISITS * SCALE)
                    by (nonlinear_arith)
                    requires self.n_visits + 1 <= MAX_VISITS;
                assert(MAX_VISITS * SCALE <= u64::MAX);
            }
            self.n_visits = self.n_visits + 1;
            self.value_sum = self.value_sum + v;
        }
        Ok(v)
    }
}

/// A uniformly random playout from `g` to a terminal position; the
/// fixed-point outcome is `SCALE` when player 1 ends closer to its base,
/// 0 when player 2 does, and half for a draw.
fn rollout(g: &Game, rng: &mut Rng) -> (r: u64)
    requires
        g.wf(),
    ensures
        r <= SCALE as u64,
{
    let mut cur = g.duplicate();
    loop
        invariant
            cur.wf(),
            *cur.board == *g.board,
        decreases cur.board.turn_limit + 2 - cur.turn,
    {
        let (mut states, _) = cur.expand(false);
        if states.len() == 0 {
            let d1 = cur.p1_distance();
            let d2 = cur.p2_distance();
            if d1 < d2 {
                return SCALE as u64;
            }
            if d2 < d1 {
                return 0;
            }
            return (SCALE as u64) / 2;
        }
        proof {
            assert(!terminal_spec(*cur.board, cur.turn as nat, cur.pieces@));
            assert(states@.len()
                == pairs_spec(*cur.board, cur.turn as nat, cur.pieces@).len());
        }
        let idx = rng.below(states.len());
        let next = states.swap_remove(idx);
        proof {
            assert(next.wf());
            assert(next.turn == cur.turn + 1);
            assert(*next.board == *cur.board);
        }
        cur = next;
    }
}

/// A fresh search session: a root node holding `game` behind a sentinel
/// action, and an empty score map.
pub fn new_session(game: Game) -> (r: (Node, ScoreMap))
    requires
        game.wf(),
    ensures
        node_wf(r.0),
        r.0.game == game,
        r.0.children@.len() == 0,
        r.0.n_visits == 0,
        r.0.value_sum == 0,
        r.0.prior_fp == SCALE / 2,
        r.0.action.from == crate::INVALID_POSITION,
        r.0.action.to == crate::INVALID_POSITION,
        r.0.action.path@.len() == 0,
        r.1.wf(),
        r.1.entries@.len() == 0,
{
    let action = Action { from: 255, to: 255, path: Vec::new() };
    let root = Node {
        game,
        action,
        children: Vec::new(),
        n_visits: 0,
        prior_fp: SCALE / 2,
        value_sum: 0,
    };
    (root, ScoreMap::new())
}

/// Drives playouts until the root has been visited `iterations` times,
/// then returns the most visited root child: a legal move of the root
/// position.  Whenever a playout needs a score the map lacks, the missing
/// keys come back as the error with the root's counters untouched by the
/// aborted attempt, so visit counts tally completed playouts exactly; the
/// caller scores the keys and re-invokes, and an answer is owed outright
/// whenever the map covers the root's horizon.  A session whose root
/// already has that many visits must have expanded children to choose
/// from, which every completed playout guarantees.
pub fn mcts_poll(
    _game: &Game,
    iterations: usize,
    root: &mut Node,
    score_map: &ScoreMap,
    exploration_centi: u64,
    rng: &mut Rng,
) -> (r: Result<(Game, Action), Vec<Vec<u8>>>)
    requires
        node_wf(*old(root)),
        score_map.wf(),
        iterations >= 1,
        iterations as u64 <= MAX_VISITS,
        exploration_centi <= MAX_EXPLORATION_CENTI,
        !terminal_spec(*old(root).game.board, old(root).game.turn as nat,
            old(root).game.pieces@),
        old(root).n_visits < iterations || old(root).children@.len() >= 1,
    ensures
        node_wf(*final(root)),
        final(root).game == old(root).game,
        covered_from(*old(root).game.board, old(root).game.turn as nat,
            old(root).game.pieces@, *score_map) ==> r matches Ok(_),
        r matches Ok(p) ==> {
            &&& final(root).n_visits == (if old(root).n_visits >= iterations {
                old(root).n_visits as int
            } else {
                iterations as int
            })
            &&& p.0.wf()
            &&& p.0.board == final(root).game.board
            &&& p.0.turn == final(root).game.turn + 1
            &&& pairs_spec(*final(root).game.board, final(root).game.turn as nat,
                final(root).game.pieces@).contains((p.1.from, p.1.to))
            &&& p.0.pieces@ == moved_pieces(*final(root).game.board,
                final(root).game.turn as nat, final(root).game.pieces@,
                p.1.from, p.1.to)
            &&& exists|i: int| 0 <= i < final(root).children@.len()
                && (#[trigger] final(root).children@[i]).action.from == p.1.from
                && final(root).children@[i].action.to == p.1.to
                && p.0.turn == final(root).children@[i].game.turn
                && p.0.pieces@ == final(root).children@[i].game.pieces@
                && (forall|j: int| 0 <= j < final(root).children@.len()
                    ==> (#[trigger] final(root).children@[j]).n_visits
                        <= final(root).children@[i].n_visits)
        },
        r matches Err(keys) ==> keys@.len() >= 1
            && old(root).n_visits <= final(root).n_visits < iterations
            && !covered_from(*old(root).game.board, old(root).game.turn as nat,
                old(root).game.pieces@, *score_map)
            && (forall|i: int| 0 <= i < keys@.len()
                ==> missing_key_from(*old(root).game.board,
                    old(root).game.turn as nat, old(root).game.pieces@,
                    *score_map, (#[trigger] keys@[i])@)),
{
    while root.n_visits < iterations as u64
        invariant
            node_wf(*root),
            score_map.wf(),
            iterations >= 1,
            iterations as u64 <= MAX_VISITS,
            exploration_centi <= MAX_EXPLORATION_CENTI,
            root.game == old(root).game,
            !terminal_spec(*root.game.board, root.game.turn as nat,
                root.game.pieces@),
            root.children@.len() >= 1 || root.n_visits == old(root).n_visits,
            old(root).n_visits < iterations || old(root).children@.len() >= 1,
            root.children@.len() >= old(root).children@.len(),
            root.n_visits >= old(root).n_visits,
            old(root).n_visits >= iterations
                ==> root.n_visits == old(root).n_visits,
            old(root).n_visits < iterations ==> root.n_visits <= iterations as u64,
        decreases iterations - root.n_visits,
    {
        match root.playout(Some(score_map), exploration_centi, rng) {
            Ok(_) => (),
            Err(keys) => {
                let rbref: &Board = &*root.game.board;
                proof {
                    assert(missing_key_from(*rbref,
                        old(root).game.turn as nat, old(root).game.pieces@,
                        *score_map, keys@[0]@));
                    lemma_missing_refutes_covered(*rbref,
                        old(root).game.turn as nat, old(root).game.pieces@,
                        *score_map, keys@[0]@);
                }
                return Err(keys);
            },
        }
    }
    proof {
        assert(root.children@.len() >= 1);
    }
    let best = root.best_child_index();
    let bg = root.children[best].game.duplicate();
    let ba = root.children[best].action.duplicate();
    proof {
        let c = root.children@[best as int];
        assert(node_wf(c));
        assert(bg.wf()) by {
            assert(c.game.wf());
        }
    }
    Ok((bg, ba))
}

/// Pure in-memory search: uniform priors, random rollouts and the
/// recommended exploration constant, no oracle.  Returns the most visited
/// move of the root after `iterations` playouts, with the position it
/// leads to.
pub fn mcts(game: &Game, iterations: usize, rng: &mut Rng) -> (r: (Game, Action))
    requires
        game.wf(),
        iterations >= 1,
        iterations as u64 <= MAX_VISITS,
        !terminal_spec(*game.board, game.turn as nat, game.pieces@),
    ensures
        r.0.wf(),
        r.0.board == game.board,
        r.0.turn == game.turn + 1,
        pairs_spec(*game.board, game.turn as nat, game.pieces@)
            .contains((r.1.from, r.1.to)),
        r.0.pieces@ == moved_pieces(*game.board, game.turn as nat, game.pieces@,
            r.1.from, r.1.to),
{
    let (mut root, _score_map) = new_session(game.duplicate());
    while root.n_visits < iterations as u64
        invariant
            node_wf(root),
            iterations >= 1,
            iterations as u64 <= MAX_VISITS,
            root.game.board == game.board,
            root.game.turn == game.turn,
            root.game.pieces@ == game.pieces@,
            !terminal_spec(*root.game.board, root.game.turn as nat,
                root.game.pieces@),
            root.children@.len() >= 1 || root.n_visits == 0,
        decreases iterations - root.n_visits,
    {
        match root.playout(None, DEFAULT_EXPLORATION_CENTI, rng) {
            Ok(_) => (),
            Err(_) => {
                proof {
                    assert(false);
                }
            },
        }
    }
    proof {
        assert(root.children@.len() >= 1);
    }
    let best = root.best_child_index();
    let bg = root.children[best].game.duplicate();
    let ba = root.children[best].action.duplicate();
    proof {
        let c = root.children@[best as int];
        assert(node_wf(c));
        assert(bg.wf()) by {
            assert(c.game.wf());
        }
    }
    (bg, ba)
}


/// Subtree reuse: after committing the move `(from, to)`, the matching
/// child becomes the new root and its siblings are discarded.  `None` when
/// no child carries that move.
pub fn chroot(root: Node, from: u8, to: u8) -> (r: Option<Node>)
    requires
        node_wf(root),
    ensures
        r.is_some() == exists|i: int| 0 <= i < root.children@.len()
            && (#[trigger] root.children@[i]).action.from == from
            && root.children@[i].action.to == to,
        r matches Some(c) ==> {
            &&& node_wf(c)
            &&& c.action.from == from
            &&& c.action.to == to
            &&& c.game.board == root.game.board
            &&& c.game.turn == root.game.turn + 1
            &&& pairs_spec(*root.game.board, root.game.turn as nat,
                root.game.pieces@).contains((from, to))
        },
{
    let mut cur = root;
    let mut i: usize = 0;
    while i < cur.children.len()
        invariant
            cur == root,
            node_wf(cur),
            i <= cur.children@.len(),
            forall|j: int| 0 <= j < i
                ==> !((#[trigger] cur.children@[j]).action.from == from
                    && cur.children@[j].action.to == to),
        decreases cur.children@.len() - i,
    {
        if cur.children[i].action.from == from && cur.children[i].action.to == to {
            proof {
                assert(node_wf(cur.children@[i as int]));
                assert((#[trigger] root.children@[i as int]).action.from == from
                    && root.children@[i as int].action.to == to);
            }
            let c = cur.children.swap_remove(i);
            return Some(c);
        }
        i = i + 1;
    }
    None
}

} // verus!
