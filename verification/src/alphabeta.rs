//! Depth-limited minimax with alpha-beta pruning, proved against the
//! minimax value of the position model: pruning never changes the result.
use vstd::prelude::*;
use crate::board::Board;
use crate::game::{Action, Game};
use crate::model::{
    child_value, is_dest, lemma_minimax_over_props, lemma_remove_first_value,
    lemma_sorted_insert_props, minimax, minimax_over, moved_half, moved_pieces,
    remove_first_value,
    moving_half_s, p1_half_s, p2_half_s, pairs_spec, pairs_upto, dests_upto, dests_for,
    pos_wf, terminal_spec, heuristic_s,
};
use crate::board::{MAX_CELL_DISTANCE, lemma_sum_dist_bound};
use crate::reach::lemma_reached_empty;
use crate::rng::{Rng, random_shuffle};
use crate::scores::{key_of, ScoreMap};

verus! {

/// A strict bound on every heuristic value, and so on every minimax value,
/// of a well-formed position.
pub const VALUE_BOUND: i64 = 130000000;

/// Every destination recorded below `n` is a legal destination.
pub proof fn lemma_dests_legal(b: Board, pieces: Seq<u8>, p: u8, n: int)
    requires
        b.wf(),
    ensures
        forall|j: int| 0 <= j < dests_upto(b, pieces, p, n).len()
            ==> is_dest(b, pieces, p, #[trigger] dests_upto(b, pieces, p, n)[j] as int),
    decreases n,
{
    if n > 0 {
        lemma_dests_legal(b, pieces, p, n - 1);
        let prev = dests_upto(b, pieces, p, n - 1);
        let cur = dests_upto(b, pieces, p, n);
        assert forall|j: int| 0 <= j < cur.len()
            implies is_dest(b, pieces, p, #[trigger] cur[j] as int) by {
            if j < prev.len() {
                assert(cur[j] == prev[j]);
            } else {
                assert(is_dest(b, pieces, p, n - 1));
                assert(0 <= n - 1 < 256);
                assert(cur[j] == (n - 1) as u8);
            }
        };
    }
}

/// Every recorded pair moves a piece of the side to move to one of its
/// legal destinations.
pub proof fn lemma_pairs_legal(b: Board, turn: nat, pieces: Seq<u8>, k: int)
    requires
        b.wf(),
        k <= moving_half_s(b, turn, pieces).len(),
    ensures
        forall|j: int| 0 <= j < pairs_upto(b, turn, pieces, k).len() ==> {
            let pr = #[trigger] pairs_upto(b, turn, pieces, k)[j];
            &&& moving_half_s(b, turn, pieces).contains(pr.0)
            &&& is_dest(b, pieces, pr.0, pr.1 as int)
        },
    decreases k,
{
    if k > 0 {
        lemma_pairs_legal(b, turn, pieces, k - 1);
        let half = moving_half_s(b, turn, pieces);
        let p = half[k - 1];
        lemma_dests_legal(b, pieces, p, b.board_size as int);
        let prev = pairs_upto(b, turn, pieces, k - 1);
        let block = dests_for(b, pieces, p).map_values(|d: u8| (p, d));
        let cur = pairs_upto(b, turn, pieces, k);
        assert(half.contains(p)) by {
            assert(half[k - 1] == p);
        }
        assert forall|j: int| 0 <= j < cur.len() implies {
            let pr = #[trigger] cur[j];
            &&& half.contains(pr.0)
            &&& is_dest(b, pieces, pr.0, pr.1 as int)
        } by {
            if j < prev.len() {
                assert(cur[j] == prev[j]);
            } else {
                assert(cur[j] == block[j - prev.len()]);
                assert(block[j - prev.len()]
                    == (p, dests_for(b, pieces, p)[j - prev.len()]));
            }
        };
    }
}

/// Playing a legal pair keeps the position well formed.
pub proof fn lemma_moved_pos_wf(b: Board, turn: nat, pieces: Seq<u8>, from: u8, to: u8)
    requires
        b.wf(),
        pos_wf(b, pieces),
        moving_half_s(b, turn, pieces).contains(from),
        is_dest(b, pieces, from, to as int),
    ensures
        pos_wf(b, moved_pieces(b, turn, pieces, from, to)),
    {
    let h = moving_half_s(b, turn, pieces);
    let other = if turn % 2 == 0 { p2_half_s(b, pieces) } else { p1_half_s(b, pieces) };
    assert((from as int) < b.board_size) by {
        let i = choose|i: int| 0 <= i < h.len() && h[i] == from;
        if turn % 2 == 0 {
            assert(pieces[i] == from);
        } else {
            assert(pieces[b.n_pieces + i] == from);
        }
    }
    lemma_reached_empty(b, pieces, from, to);
    assert(!pieces.contains(to));
    assert(!h.contains(to) && !other.contains(to)) by {
        if h.contains(to) {
            let i = choose|i: int| 0 <= i < h.len() && h[i] == to;
            if turn % 2 == 0 {
                assert(pieces[i] == to);
            } else {
                assert(pieces[b.n_pieces + i] == to);
            }
        }
        if other.contains(to) {
            let i = choose|i: int| 0 <= i < other.len() && other[i] == to;
            if turn % 2 == 0 {
                assert(pieces[b.n_pieces + i] == to);
            } else {
                assert(pieces[i] == to);
            }
        }
    }
    lemma_remove_first_value(h, from);
    lemma_sorted_insert_props(remove_first_value(h, from), to);
    let nh = moved_half(h, from, to);
    let np = moved_pieces(b, turn, pieces, from, to);
    assert(nh.len() == h.len());
    if turn % 2 == 0 {
        assert(p1_half_s(b, np) =~= nh);
        assert(p2_half_s(b, np) =~= other);
    } else {
        assert(p1_half_s(b, np) =~= other);
        assert(p2_half_s(b, np) =~= nh);
    }
    assert forall|i: int| 0 <= i < np.len()
        implies (#[trigger] np[i] as int) < b.board_size by {
        let x = np[i];
        let in_new = if turn % 2 == 0 { i < b.n_pieces } else { i >= b.n_pieces };
        if in_new {
            assert(nh.contains(x)) by {
                if turn % 2 == 0 {
                    assert(nh[i] == x);
                } else {
                    assert(nh[i - b.n_pieces] == x);
                }
            }
            if x != to {
                assert(h.contains(x));
                let m = choose|m: int| 0 <= m < h.len() && h[m] == x;
                if turn % 2 == 0 {
                    assert(pieces[m] == x);
                } else {
                    assert(pieces[b.n_pieces + m] == x);
                }
            }
        } else {
            assert(other.contains(x)) by {
                if turn % 2 == 0 {
                    assert(other[i - b.n_pieces] == x);
                } else {
                    assert(other[i] == x);
                }
            }
            let m = choose|m: int| 0 <= m < other.len() && other[m] == x;
            if turn % 2 == 0 {
                assert(pieces[b.n_pieces + m] == x);
            } else {
                assert(pieces[m] == x);
            }
        }
    };
    assert forall|i: int, j: int|
        0 <= i < p1_half_s(b, np).len() && 0 <= j < p2_half_s(b, np).len()
        implies p1_half_s(b, np)[i] != p2_half_s(b, np)[j] by {
        let x = p1_half_s(b, np)[i];
        let y = p2_half_s(b, np)[j];
        if turn % 2 == 0 {
            assert(nh[i] == x && other[j] == y);
            assert(nh.contains(x)) by { assert(nh[i] == x); }
            assert(other.contains(y)) by { assert(other[j] == y); }
            if x == to {
                assert(y != to);
            } else {
                assert(h.contains(x));
            }
        } else {
            assert(other[i] == x && nh[j] == y);
            assert(nh.contains(y)) by { assert(nh[j] == y); }
            assert(other.contains(x)) by { assert(other[i] == x); }
            if y == to {
                assert(x != to);
            } else {
                assert(h.contains(y));
            }
        }
    };
}

/// The heuristic of a well-formed position is strictly within the bound.
pub proof fn lemma_heuristic_bound(b: Board, pieces: Seq<u8>)
    requires
        b.wf(),
        pos_wf(b, pieces),
    ensures
        -(VALUE_BOUND as int) < heuristic_s(b, pieces) < VALUE_BOUND as int,
{
    lemma_sum_dist_bound(b.p1_distance_map@, p1_half_s(b, pieces));
    lemma_sum_dist_bound(b.p2_distance_map@, p2_half_s(b, pieces));
    assert(p1_half_s(b, pieces).len() <= 127);
    assert(p2_half_s(b, pieces).len() <= 127);
    assert(127 * MAX_CELL_DISTANCE < VALUE_BOUND as int);
    assert(p1_half_s(b, pieces).len() * MAX_CELL_DISTANCE <= 127 * MAX_CELL_DISTANCE)
        by (nonlinear_arith)
        requires p1_half_s(b, pieces).len() <= 127;
    assert(p2_half_s(b, pieces).len() * MAX_CELL_DISTANCE <= 127 * MAX_CELL_DISTANCE)
        by (nonlinear_arith)
        requires p2_half_s(b, pieces).len() <= 127;
}

/// The minimax value of a well-formed position is strictly within the
/// bound: it is the heuristic of some position reachable by legal play.
pub proof fn lemma_minimax_bound(b: Board, turn: nat, pieces: Seq<u8>, depth: nat)
    requires
        b.wf(),
        pos_wf(b, pieces),
    ensures
        -(VALUE_BOUND as int) < minimax(b, turn, pieces, depth) < VALUE_BOUND as int,
    decreases depth, 0nat,
{
    if depth == 0 || terminal_spec(b, turn, pieces) {
        lemma_heuristic_bound(b, pieces);
    } else {
        let prs = pairs_spec(b, turn, pieces);
        lemma_pairs_legal(b, turn, pieces, moving_half_s(b, turn, pieces).len() as int);
        lemma_minimax_over_bound(b, turn, pieces, prs, (depth - 1) as nat);
    }
}

/// The best child value over legal pairs is strictly within the bound.
pub proof fn lemma_minimax_over_bound(b: Board, turn: nat, pieces: Seq<u8>, prs: Seq<(u8, u8)>, depth: nat)
    requires
        b.wf(),
        pos_wf(b, pieces),
        prs.len() >= 1,
        forall|j: int| 0 <= j < prs.len() ==> {
            let pr = #[trigger] prs[j];
            &&& moving_half_s(b, turn, pieces).contains(pr.0)
            &&& is_dest(b, pieces, pr.0, pr.1 as int)
        },
    ensures
        -(VALUE_BOUND as int) < minimax_over(b, turn, pieces, prs, depth)
            < VALUE_BOUND as int,
    decreases depth, prs.len() + 2,
{
    let pr = prs.last();
    assert(prs[prs.len() - 1] == pr);
    lemma_moved_pos_wf(b, turn, pieces, pr.0, pr.1);
    lemma_minimax_bound(b, (turn + 1) as nat, moved_pieces(b, turn, pieces, pr.0, pr.1),
        depth);
    let cv = child_value(b, turn, pieces, pr, depth);
    assert(cv == minimax(b, (turn + 1) as nat,
        moved_pieces(b, turn, pieces, pr.0, pr.1), depth));
    let mo = minimax_over(b, turn, pieces, prs, depth);
    if prs.len() > 1 {
        assert(forall|j: int| 0 <= j < prs.drop_last().len()
            ==> #[trigger] prs.drop_last()[j] == prs[j]);
        lemma_minimax_over_bound(b, turn, pieces, prs.drop_last(), depth);
        let rest = minimax_over(b, turn, pieces, prs.drop_last(), depth);
        assert(mo == if turn % 2 == 0 {
            if cv > rest { cv } else { rest }
        } else {
            if cv < rest { cv } else { rest }
        });
    } else {
        assert(mo == cv);
    }
}

/// The bounded minimax search.  Fail-hard alpha-beta: the result is caged
/// between `min(beta, m)` and `max(alpha, m)` where `m` is the true
/// minimax value; inside an open window it equals `m` exactly.
fn search(g: &Game, remaining_depth: usize, alpha: i64, beta: i64) -> (r: i64)
    requires
        g.wf(),
        alpha < beta,
    ensures
        ({
            let m = minimax(*g.board, g.turn as nat, g.pieces@, remaining_depth as nat);
            &&& r >= if m < beta { m } else { beta as int }
            &&& r <= if m > alpha { m } else { alpha as int }
        }),
    decreases remaining_depth,
{
    let bref: &Board = &*g.board;
    let ghost m = minimax(*bref, g.turn as nat, g.pieces@, remaining_depth as nat);
    if remaining_depth == 0 {
        return g.heuristic();
    }
    let (next_states, _) = g.expand(false);
    if next_states.len() == 0 {
        proof {
            if !terminal_spec(*bref, g.turn as nat, g.pieces@) {
                assert(pairs_spec(*bref, g.turn as nat, g.pieces@).len() == 0);
            }
        }
        return g.heuristic();
    }
    let ghost prs = pairs_spec(*bref, g.turn as nat, g.pieces@);
    let ghost d = (remaining_depth - 1) as nat;
    proof {
        assert(!terminal_spec(*bref, g.turn as nat, g.pieces@));
        assert(m == minimax_over(*bref, g.turn as nat, g.pieces@, prs, d));
    }
    let n = next_states.len();
    let maximizing = g.is_p1_moving_next();
    let mut value: i64 = if maximizing { alpha } else { beta };
    let mut i: usize = 0;
    loop
        invariant_except_break
            maximizing ==> value < beta,
            !maximizing ==> value > alpha,
        invariant
            g.wf(),
            *bref == *g.board,
            alpha < beta,
            remaining_depth >= 1,
            d == (remaining_depth - 1) as nat,
            maximizing == (g.turn % 2 == 0),
            n == next_states@.len(),
            prs == pairs_spec(*bref, g.turn as nat, g.pieces@),
            !terminal_spec(*bref, g.turn as nat, g.pieces@),
            m == minimax_over(*bref, g.turn as nat, g.pieces@, prs, d),
            n == prs.len(),
            n >= 1,
            forall|k: int| 0 <= k < n ==> {
                let s = #[trigger] next_states@[k];
                &&& s.wf()
                &&& s.board == g.board
                &&& s.turn == g.turn + 1
                &&& s.pieces@ == moved_pieces(*bref, g.turn as nat, g.pieces@,
                    prs[k].0, prs[k].1)
            },
            i <= n,
            maximizing ==> value >= alpha,
            !maximizing ==> value <= beta,
            maximizing && i == 0 ==> value == alpha,
            !maximizing && i == 0 ==> value == beta,
            maximizing && i >= 1 ==> {
                let mo = minimax_over(*bref, g.turn as nat, g.pieces@, prs.take(i as int), d);
                &&& value <= if mo > alpha { mo } else { alpha as int }
                &&& value >= if mo < beta { mo } else { beta as int }
            },
            !maximizing && i >= 1 ==> {
                let mo = minimax_over(*bref, g.turn as nat, g.pieces@, prs.take(i as int), d);
                &&& value >= if mo < beta { mo } else { beta as int }
                &&& value <= if mo > alpha { mo } else { alpha as int }
            },
        ensures
            (i == n
                && (if maximizing { value < beta } else { value > alpha }))
            || (maximizing && value >= beta && i >= 1
                && minimax_over(*bref, g.turn as nat, g.pieces@, prs.take(i as int), d)
                    >= beta)
            || (!maximizing && value <= alpha && i >= 1
                && minimax_over(*bref, g.turn as nat, g.pieces@, prs.take(i as int), d)
                    <= alpha),
        decreases n - i,
    {
        if i >= n {
            break;
        }
        let child = &next_states[i];
        let ghost mo_pre = minimax_over(*bref, g.turn as nat, g.pieces@,
            prs.take(i as int), d);
        let ghost cv = child_value(*bref, g.turn as nat, g.pieces@, prs[i as int], d);
        proof {
            assert(child.wf());
            assert(*child == next_states@[i as int]);
            assert(child.board == g.board);
            assert(*child.board == *bref);
            assert(child.turn == g.turn + 1);
            assert(child.pieces@ == moved_pieces(*bref, g.turn as nat, g.pieces@,
                prs[i as int].0, prs[i as int].1));
            assert(minimax(*child.board, child.turn as nat, child.pieces@, d) == cv);
            assert(prs.take(i + 1).drop_last() =~= prs.take(i as int));
            assert(prs.take(i + 1).last() == prs[i as int]);
        }
        let cr;
        if maximizing {
            cr = search(child, remaining_depth - 1, value, beta);
            if cr > value {
                value = cr;
            }
        } else {
            cr = search(child, remaining_depth - 1, alpha, value);
            if cr < value {
                value = cr;
            }
        }
        proof {
            let mo_new = minimax_over(*bref, g.turn as nat, g.pieces@,
                prs.take(i + 1), d);
            if maximizing {
                if i == 0 {
                    assert(mo_new == cv);
                } else {
                    assert(mo_new == if cv > mo_pre { cv } else { mo_pre });
                }
            } else {
                if i == 0 {
                    assert(mo_new == cv);
                } else {
                    assert(mo_new == if cv < mo_pre { cv } else { mo_pre });
                }
            }
        }
        i = i + 1;
        if maximizing {
            if value >= beta {
                break;
            }
        } else {
            if value <= alpha {
                break;
            }
        }
    }
    proof {
        if i == n {
            assert(prs.take(n as int) =~= prs);
        } else {
            let mo_i = minimax_over(*bref, g.turn as nat, g.pieces@,
                prs.take(i as int), d);
            lemma_minimax_over_props(*bref, g.turn as nat, g.pieces@,
                prs.take(i as int), d);
            let j = choose|j: int| 0 <= j < i
                && mo_i == #[trigger] child_value(*bref, g.turn as nat, g.pieces@,
                    prs.take(i as int)[j], d);
            lemma_minimax_over_props(*bref, g.turn as nat, g.pieces@, prs, d);
            assert(prs.take(i as int)[j] == prs[j]);
            assert(child_value(*bref, g.turn as nat, g.pieces@, prs[j], d)
                == child_value(*bref, g.turn as nat, g.pieces@,
                    prs.take(i as int)[j], d));
            if maximizing {
                assert(m >= mo_i);
            } else {
                assert(m <= mo_i);
            }
        }
    }
    value
}


/// A successor handed out at the root: a legal pair, the position it
/// produces, and that position's exact minimax value at the root's depth.
pub open spec fn root_succ_ok(root: Game, x: (Game, Action)) -> bool {
    &&& x.0.wf()
    &&& x.0.board == root.board
    &&& x.0.turn == root.turn + 1
    &&& pairs_spec(*root.board, root.turn as nat, root.pieces@)
        .contains((x.1.from, x.1.to))
    &&& x.0.pieces@ == moved_pieces(*root.board, root.turn as nat, root.pieces@,
        x.1.from, x.1.to)
}

/// The best move at the root: expands the successors, shuffles them so
/// that equal values break ties randomly, values each with a full-window
/// search, and returns one whose value is the position's minimax value.
pub fn alphabeta(game: &Game, depth: usize, rng: &mut Rng) -> (r: (Game, Action))
    requires
        game.wf(),
        depth >= 1,
        !terminal_spec(*game.board, game.turn as nat, game.pieces@),
    ensures
        root_succ_ok(*game, r),
        minimax(*game.board, (game.turn + 1) as nat, r.0.pieces@, (depth - 1) as nat)
            == minimax(*game.board, game.turn as nat, game.pieces@, depth as nat),
{
    let bref: &Board = &*game.board;
    let ghost prs = pairs_spec(*bref, game.turn as nat, game.pieces@);
    let ghost d = (depth - 1) as nat;
    let (mut states, mut actions) = game.expand(true);
    let ghost states0 = states@;
    let ghost actions0 = actions@;
    let n = states.len();
    let mut zipped: Vec<(Game, Action)> = Vec::new();
    let mut i: usize = 0;
    while i < n
        invariant
            n == states0.len(),
            n == actions0.len(),
            states@ == states0.skip(i as int),
            actions@ == actions0.skip(i as int),
            i <= n,
            zipped@.len() == i,
            forall|j: int| 0 <= j < i
                ==> #[trigger] zipped@[j] == (states0[j], actions0[j]),
        decreases n - i,
    {
        let s = states.remove(0);
        let a = actions.remove(0);
        proof {
            assert(states0.skip(i as int).remove(0) =~= states0.skip(i + 1));
            assert(actions0.skip(i as int).remove(0) =~= actions0.skip(i + 1));
            assert(states0.skip(i as int)[0] == states0[i as int]);
            assert(actions0.skip(i as int)[0] == actions0[i as int]);
        }
        zipped.push((s, a));
        i = i + 1;
    }
    proof {
        assert forall|j: int| 0 <= j < n
            implies root_succ_ok(*game, #[trigger] zipped@[j]) by {
            assert(zipped@[j] == (states0[j], actions0[j]));
            assert(prs.contains((actions0[j].from, actions0[j].to))) by {
                assert(prs[j] == (actions0[j].from, actions0[j].to));
            }
        };
    }
    let ghost pre_shuffle = zipped@;
    random_shuffle(rng, &mut zipped);
    proof {
        broadcast use vstd::seq_lib::group_to_multiset_ensures;
        assert forall|j: int| 0 <= j < zipped@.len()
            implies root_succ_ok(*game, #[trigger] zipped@[j]) by {
            assert(zipped@.contains(zipped@[j]));
            assert(zipped@.to_multiset().contains(zipped@[j]));
            assert(pre_shuffle.to_multiset().contains(zipped@[j]));
            assert(pre_shuffle.contains(zipped@[j]));
            let k = choose|k: int| 0 <= k < pre_shuffle.len()
                && pre_shuffle[k] == zipped@[j];
        };
        lemma_minimax_over_props(*bref, game.turn as nat, game.pieces@, prs, d);
        let w = choose|w: int| 0 <= w < prs.len()
            && minimax_over(*bref, game.turn as nat, game.pieces@, prs, d)
                == #[trigger] child_value(*bref, game.turn as nat, game.pieces@,
                    prs[w], d);
        assert(pre_shuffle.contains((states0[w], actions0[w]))) by {
            assert(pre_shuffle[w] == (states0[w], actions0[w]));
        }
        assert(pre_shuffle.to_multiset().contains((states0[w], actions0[w])));
        assert(zipped@.to_multiset().contains((states0[w], actions0[w])));
        assert(zipped@.contains((states0[w], actions0[w])));
    }
    let ghost mo = minimax_over(*bref, game.turn as nat, game.pieces@, prs, d);
    let maximizing = game.is_p1_moving_next();
    let mut best_idx: usize = 0;
    let mut best_val: i64 = 0;
    let mut started = false;
    let mut k: usize = 0;
    while k < zipped.len()
        invariant
            game.wf(),
            *bref == *game.board,
            depth >= 1,
            d == (depth - 1) as nat,
            maximizing == (game.turn % 2 == 0),
            prs == pairs_spec(*game.board, game.turn as nat, game.pieces@),
            !terminal_spec(*game.board, game.turn as nat, game.pieces@),
            k <= zipped@.len(),
            zipped@.len() >= 1,
            forall|j: int| 0 <= j < zipped@.len()
                ==> root_succ_ok(*game, #[trigger] zipped@[j]),
            exists|j: int| 0 <= j < zipped@.len()
                && mo == child_value(*bref, game.turn as nat, game.pieces@,
                    ((#[trigger] zipped@[j]).1.from, zipped@[j].1.to), d),
            mo == minimax_over(*bref, game.turn as nat, game.pieces@, prs, d),
            forall|j: int| 0 <= j < prs.len() ==> if maximizing {
                mo >= #[trigger] child_value(*bref, game.turn as nat, game.pieces@,
                    prs[j], d)
            } else {
                mo <= #[trigger] child_value(*bref, game.turn as nat, game.pieces@,
                    prs[j], d)
            },
            started == (k > 0),
            started ==> best_idx < k,
            started ==> best_val == child_value(*bref, game.turn as nat, game.pieces@,
                (zipped@[best_idx as int].1.from, zipped@[best_idx as int].1.to), d),
            started ==> forall|j: int| 0 <= j < k ==> if maximizing {
                best_val >= #[trigger] child_value(*bref, game.turn as nat,
                    game.pieces@, (zipped@[j].1.from, zipped@[j].1.to), d)
            } else {
                best_val <= #[trigger] child_value(*bref, game.turn as nat,
                    game.pieces@, (zipped@[j].1.from, zipped@[j].1.to), d)
            },
        decreases zipped@.len() - k,
    {
        let pair = &zipped[k];
        let ghost cv = child_value(*bref, game.turn as nat, game.pieces@,
            (pair.1.from, pair.1.to), d);
        proof {
            assert(root_succ_ok(*game, zipped@[k as int]));
            lemma_minimax_bound(*bref, (game.turn + 1) as nat, pair.0.pieces@, d);
        }
        let v = search(&pair.0, depth - 1, -VALUE_BOUND, VALUE_BOUND);
        proof {
            assert(*pair.0.board == *bref);
            assert(v == cv);
        }
        if !started || (maximizing && v > best_val) || (!maximizing && v < best_val) {
            best_idx = k;
            best_val = v;
        }
        started = true;
        k = k + 1;
    }
    proof {
        let wj = choose|j: int| 0 <= j < zipped@.len()
            && mo == child_value(*bref, game.turn as nat, game.pieces@,
                ((#[trigger] zipped@[j]).1.from, zipped@[j].1.to), d);
        if maximizing {
            assert(best_val >= mo);
        } else {
            assert(best_val <= mo);
        }
        assert(root_succ_ok(*game, zipped@[best_idx as int]));
        let bp = (zipped@[best_idx as int].1.from, zipped@[best_idx as int].1.to);
        assert(prs.contains(bp));
        let bj = choose|bj: int| 0 <= bj < prs.len() && prs[bj] == bp;
        assert(child_value(*bref, game.turn as nat, game.pieces@, prs[bj], d)
            == best_val);
        if maximizing {
            assert(best_val <= mo);
        } else {
            assert(best_val >= mo);
        }
        assert(best_val == mo);
        assert(minimax(*bref, game.turn as nat, game.pieces@, depth as nat) == mo);
    }
    let ghost chosen = zipped@[best_idx as int];
    let result = zipped.swap_remove(best_idx);
    proof {
        assert(result == chosen);
        assert(minimax(*bref, (game.turn + 1) as nat, result.0.pieces@, d)
            == child_value(*bref, game.turn as nat, game.pieces@,
                (result.1.from, result.1.to), d));
    }
    result
}



/// The value of the position reached by playing `pr`, searched `depth`
/// plies further against the score assignment `sm`.
pub open spec fn scored_child_value(
    b: Board,
    turn: nat,
    pieces: Seq<u8>,
    pr: (u8, u8),
    depth: nat,
    sm: ScoreMap,
) -> int
    decreases depth, 1nat,
{
    minimax_scored(b, (turn + 1) as nat, moved_pieces(b, turn, pieces, pr.0, pr.1),
        depth, sm)
}

/// Depth-limited minimax whose leaves read the score assignment instead of
/// the heuristic: the value the polling search computes once every score
/// it asks for is present.
pub open spec fn minimax_scored(b: Board, turn: nat, pieces: Seq<u8>, depth: nat, sm: ScoreMap) -> int
    decreases depth, 0nat,
{
    if depth == 0 || terminal_spec(b, turn, pieces) {
        sm.score_at(key_of(turn, pieces)) as int
    } else {
        minimax_scored_over(b, turn, pieces, pairs_spec(b, turn, pieces),
            (depth - 1) as nat, sm)
    }
}

/// The best scored child value over the pairs `prs`.
pub open spec fn minimax_scored_over(
    b: Board,
    turn: nat,
    pieces: Seq<u8>,
    prs: Seq<(u8, u8)>,
    depth: nat,
    sm: ScoreMap,
) -> int
    decreases depth, prs.len() + 2,
{
    let last = scored_child_value(b, turn, pieces, prs.last(), depth, sm);
    if prs.len() <= 1 {
        last
    } else {
        let rest = minimax_scored_over(b, turn, pieces, prs.drop_last(), depth, sm);
        if turn % 2 == 0 {
            if last > rest { last } else { rest }
        } else {
            if last < rest { last } else { rest }
        }
    }
}

/// The best scored child value bounds every child and is attained by one.
pub proof fn lemma_scored_over_props(
    b: Board,
    turn: nat,
    pieces: Seq<u8>,
    prs: Seq<(u8, u8)>,
    depth: nat,
    sm: ScoreMap,
)
    requires
        prs.len() >= 1,
    ensures
        forall|i: int| 0 <= i < prs.len() ==> if turn % 2 == 0 {
            minimax_scored_over(b, turn, pieces, prs, depth, sm)
                >= #[trigger] scored_child_value(b, turn, pieces, prs[i], depth, sm)
        } else {
            minimax_scored_over(b, turn, pieces, prs, depth, sm)
                <= #[trigger] scored_child_value(b, turn, pieces, prs[i], depth, sm)
        },
        exists|i: int| 0 <= i < prs.len()
            && minimax_scored_over(b, turn, pieces, prs, depth, sm)
                == #[trigger] scored_child_value(b, turn, pieces, prs[i], depth, sm),
    decreases prs.len(),
{
    if prs.len() > 1 {
        lemma_scored_over_props(b, turn, pieces, prs.drop_last(), depth, sm);
        let mo = minimax_scored_over(b, turn, pieces, prs, depth, sm);
        let rest = minimax_scored_over(b, turn, pieces, prs.drop_last(), depth, sm);
        let j = choose|j: int| 0 <= j < prs.drop_last().len()
            && rest == #[trigger] scored_child_value(b, turn, pieces,
                prs.drop_last()[j], depth, sm);
        assert(prs.drop_last()[j] == prs[j]);
        assert(prs.last() == prs[prs.len() - 1]);
        if mo == rest {
            assert(mo == scored_child_value(b, turn, pieces, prs[j], depth, sm));
        } else {
            assert(mo == scored_child_value(b, turn, pieces, prs[prs.len() - 1],
                depth, sm));
        }
        assert forall|i: int| 0 <= i < prs.len() implies if turn % 2 == 0 {
            mo >= #[trigger] scored_child_value(b, turn, pieces, prs[i], depth, sm)
        } else {
            mo <= #[trigger] scored_child_value(b, turn, pieces, prs[i], depth, sm)
        } by {
            if i < prs.len() - 1 {
                assert(prs.drop_last()[i] == prs[i]);
            }
        };
    } else {
        assert(prs[0] == prs.last());
        assert(minimax_scored_over(b, turn, pieces, prs, depth, sm)
            == scored_child_value(b, turn, pieces, prs[0], depth, sm));
    }
}

/// A scored minimax value is always a fold of stored scores, hence within
/// the machine range.
pub proof fn lemma_scored_bound(b: Board, turn: nat, pieces: Seq<u8>, depth: nat, sm: ScoreMap)
    ensures
        i64::MIN <= minimax_scored(b, turn, pieces, depth, sm) <= i64::MAX,
    decreases depth, 0nat,
{
    if !(depth == 0 || terminal_spec(b, turn, pieces)) {
        lemma_scored_over_bound(b, turn, pieces, pairs_spec(b, turn, pieces),
            (depth - 1) as nat, sm);
    }
}

pub proof fn lemma_scored_over_bound(
    b: Board,
    turn: nat,
    pieces: Seq<u8>,
    prs: Seq<(u8, u8)>,
    depth: nat,
    sm: ScoreMap,
)
    ensures
        i64::MIN <= minimax_scored_over(b, turn, pieces, prs, depth, sm) <= i64::MAX,
    decreases depth, prs.len() + 2,
{
    let pr = prs.last();
    lemma_scored_bound(b, (turn + 1) as nat,
        moved_pieces(b, turn, pieces, pr.0, pr.1), depth, sm);
    assert(scored_child_value(b, turn, pieces, pr, depth, sm)
        == minimax_scored(b, (turn + 1) as nat,
            moved_pieces(b, turn, pieces, pr.0, pr.1), depth, sm));
    if prs.len() > 1 {
        lemma_scored_over_bound(b, turn, pieces, prs.drop_last(), depth, sm);
    }
}


/// The score map covers every leaf a depth-`depth` search below
/// `(turn, pieces)` can consult.  When this holds, the polling search owes
/// an answer.
pub open spec fn scored_covered(b: Board, turn: nat, pieces: Seq<u8>, depth: nat, sm: ScoreMap) -> bool
    decreases depth,
{
    if depth == 0 || terminal_spec(b, turn, pieces) {
        sm.has_score(key_of(turn, pieces))
    } else {
        forall|j: int| 0 <= j < pairs_spec(b, turn, pieces).len()
            ==> scored_covered(b, (turn + 1) as nat,
                moved_pieces(b, turn, pieces,
                    (#[trigger] pairs_spec(b, turn, pieces)[j]).0,
                    pairs_spec(b, turn, pieces)[j].1), (depth - 1) as nat, sm)
    }
}

/// `k` is the key of a depth-exhausted or terminal position within
/// `depth` plies of `(turn, pieces)` whose score is missing from the map.
pub open spec fn scored_missing_key(b: Board, turn: nat, pieces: Seq<u8>, depth: nat, sm: ScoreMap, k: Seq<u8>) -> bool
    decreases depth,
{
    if depth == 0 || terminal_spec(b, turn, pieces) {
        k == key_of(turn, pieces) && !sm.has_score(k)
    } else {
        exists|j: int| 0 <= j < pairs_spec(b, turn, pieces).len()
            && scored_missing_key(b, (turn + 1) as nat,
                moved_pieces(b, turn, pieces,
                    (#[trigger] pairs_spec(b, turn, pieces)[j]).0,
                    pairs_spec(b, turn, pieces)[j].1), (depth - 1) as nat, sm, k)
    }
}

/// A missing leaf key below a position refutes its coverage.
pub proof fn lemma_scored_missing_refutes(b: Board, turn: nat, pieces: Seq<u8>, depth: nat, sm: ScoreMap, k: Seq<u8>)
    requires
        scored_missing_key(b, turn, pieces, depth, sm, k),
    ensures
        !scored_covered(b, turn, pieces, depth, sm),
    decreases depth,
{
    if !(depth == 0 || terminal_spec(b, turn, pieces)) {
        let j = choose|j: int| 0 <= j < pairs_spec(b, turn, pieces).len()
            && scored_missing_key(b, (turn + 1) as nat,
                moved_pieces(b, turn, pieces,
                    (#[trigger] pairs_spec(b, turn, pieces)[j]).0,
                    pairs_spec(b, turn, pieces)[j].1), (depth - 1) as nat, sm, k);
        lemma_scored_missing_refutes(b, (turn + 1) as nat,
            moved_pieces(b, turn, pieces, pairs_spec(b, turn, pieces)[j].0,
                pairs_spec(b, turn, pieces)[j].1), (depth - 1) as nat, sm, k);
    }
}

/// The bounded search against an external score assignment: identical
/// pruning, but a leaf's value is the score stored under its key, and a
/// missing score aborts the search with the key to be filled.  On success
/// the result is caged by the scored minimax value exactly as `search` is
/// by the heuristic one.
fn search_scored(
    g: &Game,
    remaining_depth: usize,
    alpha: i64,
    beta: i64,
    scores: &ScoreMap,
) -> (r: Result<i64, Vec<Vec<u8>>>)
    requires
        g.wf(),
        scores.wf(),
        alpha < beta,
    ensures
        scored_covered(*g.board, g.turn as nat, g.pieces@, remaining_depth as nat,
            *scores) ==> r matches Ok(_),
        r matches Ok(v) ==> ({
            let m = minimax_scored(*g.board, g.turn as nat, g.pieces@,
                remaining_depth as nat, *scores);
            &&& v >= if m < beta { m } else { beta as int }
            &&& v <= if m > alpha { m } else { alpha as int }
        }),
        r matches Err(keys) ==> keys@.len() >= 1
            && (forall|i: int| 0 <= i < keys@.len()
                ==> !scores.has_score((#[trigger] keys@[i])@))
            && (forall|i: int| 0 <= i < keys@.len()
                ==> scored_missing_key(*g.board, g.turn as nat, g.pieces@,
                    remaining_depth as nat, *scores, (#[trigger] keys@[i])@)),
    decreases remaining_depth,
{
    let bref: &Board = &*g.board;
    let smref: &ScoreMap = scores;
    let ghost m = minimax_scored(*bref, g.turn as nat, g.pieces@,
        remaining_depth as nat, *smref);
    if remaining_depth == 0 {
        let key = g.key();
        proof {
            assert(key@ == key_of(g.turn as nat, g.pieces@));
        }
        return match scores.get(&key) {
            Some(v) => {
                proof {
                    assert(v == smref.score_at(key_of(g.turn as nat, g.pieces@)));
                }
                Ok(v)
            },
            None => {
                proof {
                    assert(scored_missing_key(*bref, g.turn as nat, g.pieces@,
                        remaining_depth as nat, *smref, key@));
                }
                Err(vec![key])
            },
        };
    }
    let (next_states, _) = g.expand(false);
    if next_states.len() == 0 {
        proof {
            if !terminal_spec(*bref, g.turn as nat, g.pieces@) {
                assert(pairs_spec(*bref, g.turn as nat, g.pieces@).len() == 0);
            }
        }
        let key = g.key();
        proof {
            assert(key@ == key_of(g.turn as nat, g.pieces@));
        }
        return match scores.get(&key) {
            Some(v) => Ok(v),
            None => {
                proof {
                    assert(scored_missing_key(*bref, g.turn as nat, g.pieces@,
                        remaining_depth as nat, *smref, key@));
                }
                Err(vec![key])
            },
        };
    }
    let ghost prs = pairs_spec(*bref, g.turn as nat, g.pieces@);
    let ghost d = (remaining_depth - 1) as nat;
    proof {
        assert(!terminal_spec(*bref, g.turn as nat, g.pieces@));
        assert(m == minimax_scored_over(*bref, g.turn as nat, g.pieces@, prs, d,
            *smref));
    }
    let n = next_states.len();
    let maximizing = g.is_p1_moving_next();
    let mut value: i64 = if maximizing { alpha } else { beta };
    let mut i: usize = 0;
    loop
        invariant_except_break
            maximizing ==> value < beta,
            !maximizing ==> value > alpha,
        invariant
            g.wf(),
            smref.wf(),
            *bref == *g.board,
            *smref == *scores,
            alpha < beta,
            remaining_depth >= 1,
            d == (remaining_depth - 1) as nat,
            maximizing == (g.turn % 2 == 0),
            n == next_states@.len(),
            prs == pairs_spec(*g.board, g.turn as nat, g.pieces@),
            !terminal_spec(*g.board, g.turn as nat, g.pieces@),
            m == minimax_scored_over(*bref, g.turn as nat, g.pieces@, prs, d, *smref),
            n == prs.len(),
            n >= 1,
            forall|k: int| 0 <= k < n ==> {
                let s = #[trigger] next_states@[k];
                &&& s.wf()
                &&& s.board == g.board
                &&& s.turn == g.turn + 1
                &&& s.pieces@ == moved_pieces(*g.board, g.turn as nat, g.pieces@,
                    prs[k].0, prs[k].1)
            },
            i <= n,
            maximizing ==> value >= alpha,
            !maximizing ==> value <= beta,
            maximizing && i == 0 ==> value == alpha,
            !maximizing && i == 0 ==> value == beta,
            maximizing && i >= 1 ==> {
                let mo = minimax_scored_over(*bref, g.turn as nat, g.pieces@,
                    prs.take(i as int), d, *smref);
                &&& value <= if mo > alpha { mo } else { alpha as int }
                &&& value >= if mo < beta { mo } else { beta as int }
            },
            !maximizing && i >= 1 ==> {
                let mo = minimax_scored_over(*bref, g.turn as nat, g.pieces@,
                    prs.take(i as int), d, *smref);
                &&& value >= if mo < beta { mo } else { beta as int }
                &&& value <= if mo > alpha { mo } else { alpha as int }
            },
        ensures
            (i == n
                && (if maximizing { value < beta } else { value > alpha }))
            || (maximizing && value >= beta && i >= 1
                && minimax_scored_over(*bref, g.turn as nat, g.pieces@,
                    prs.take(i as int), d, *smref) >= beta)
            || (!maximizing && value <= alpha && i >= 1
                && minimax_scored_over(*bref, g.turn as nat, g.pieces@,
                    prs.take(i as int), d, *smref) <= alpha),
        decreases n - i,
    {
        if i >= n {
            break;
        }
        let child = &next_states[i];
        let ghost mo_pre = minimax_scored_over(*bref, g.turn as nat, g.pieces@,
            prs.take(i as int), d, *smref);
        let ghost cv = scored_child_value(*bref, g.turn as nat, g.pieces@,
            prs[i as int], d, *smref);
        proof {
            assert(child.wf());
            assert(*child == next_states@[i as int]);
            assert(*child.board == *bref);
            assert(minimax_scored(*child.board, child.turn as nat, child.pieces@, d,
                *smref) == cv);
            assert(prs.take(i + 1).drop_last() =~= prs.take(i as int));
            assert(prs.take(i + 1).last() == prs[i as int]);
        }
        let cr = if maximizing {
            search_scored(child, remaining_depth - 1, value, beta, scores)
        } else {
            search_scored(child, remaining_depth - 1, alpha, value, scores)
        };
        let cres = match cr {
            Ok(v) => v,
            Err(keys) => {
                proof {
                    assert forall|t: int| 0 <= t < keys@.len()
                        implies scored_missing_key(*bref, g.turn as nat, g.pieces@,
                            remaining_depth as nat, *smref,
                            (#[trigger] keys@[t])@) by {
                        assert(scored_missing_key(*child.board, child.turn as nat,
                            child.pieces@, d, *smref, keys@[t]@));
                        assert(child.pieces@ == moved_pieces(*bref, g.turn as nat,
                            g.pieces@, (prs[i as int]).0, prs[i as int].1));
                        assert(scored_missing_key(*bref,
                            (g.turn as nat + 1) as nat,
                            moved_pieces(*bref, g.turn as nat, g.pieces@,
                                (prs[i as int]).0, prs[i as int].1), d, *smref,
                            keys@[t]@));
                    };
                    assert(keys@.len() >= 1);
                    lemma_scored_missing_refutes(*bref, g.turn as nat, g.pieces@,
                        remaining_depth as nat, *smref, keys@[0]@);
                }
                return Err(keys);
            },
        };
        if maximizing {
            if cres > value {
                value = cres;
            }
        } else {
            if cres < value {
                value = cres;
            }
        }
        proof {
            let mo_new = minimax_scored_over(*bref, g.turn as nat, g.pieces@,
                prs.take(i + 1), d, *smref);
            if maximizing {
                if i == 0 {
                    assert(mo_new == cv);
                } else {
                    assert(mo_new == if cv > mo_pre { cv } else { mo_pre });
                }
            } else {
                if i == 0 {
                    assert(mo_new == cv);
                } else {
                    assert(mo_new == if cv < mo_pre { cv } else { mo_pre });
                }
            }
        }
        i = i + 1;
        if maximizing {
            if value >= beta {
                break;
            }
        } else {
            if value <= alpha {
                break;
            }
        }
    }
    proof {
        if i == n {
            assert(prs.take(n as int) =~= prs);
        } else {
            let mo_i = minimax_scored_over(*bref, g.turn as nat, g.pieces@,
                prs.take(i as int), d, *smref);
            lemma_scored_over_props(*bref, g.turn as nat, g.pieces@,
                prs.take(i as int), d, *smref);
            let j = choose|j: int| 0 <= j < i
                && mo_i == #[trigger] scored_child_value(*bref, g.turn as nat,
                    g.pieces@, prs.take(i as int)[j], d, *smref);
            lemma_scored_over_props(*bref, g.turn as nat, g.pieces@, prs, d, *smref);
            assert(prs.take(i as int)[j] == prs[j]);
            assert(scored_child_value(*bref, g.turn as nat, g.pieces@, prs[j], d,
                *smref)
                == scored_child_value(*bref, g.turn as nat, g.pieces@,
                    prs.take(i as int)[j], d, *smref));
            if maximizing {
                assert(m >= mo_i);
            } else {
                assert(m <= mo_i);
            }
        }
    }
    Ok(value)
}

/// The polling root search: like `alphabeta`, but scored by the host: it
/// returns a legal move whose subtree value is the best scored minimax
/// value, or the list of position keys the score map must learn first.
pub fn alphabeta_poll(
    game: &Game,
    depth: usize,
    score_map: &ScoreMap,
    rng: &mut Rng,
) -> (r: Result<(Game, Action), Vec<Vec<u8>>>)
    requires
        game.wf(),
        depth >= 1,
        score_map.wf(),
        !terminal_spec(*game.board, game.turn as nat, game.pieces@),
    ensures
        scored_covered(*game.board, game.turn as nat, game.pieces@, depth as nat,
            *score_map) ==> r matches Ok(_),
        r matches Ok(p) ==> root_succ_ok(*game, p)
            && minimax_scored(*game.board, (game.turn + 1) as nat, p.0.pieces@,
                (depth - 1) as nat, *score_map)
                == minimax_scored(*game.board, game.turn as nat, game.pieces@,
                    depth as nat, *score_map),
        r matches Err(keys) ==> keys@.len() >= 1
            && (forall|i: int| 0 <= i < keys@.len()
                ==> !score_map.has_score((#[trigger] keys@[i])@))
            && (forall|i: int| 0 <= i < keys@.len()
                ==> scored_missing_key(*game.board, game.turn as nat,
                    game.pieces@, depth as nat, *score_map,
                    (#[trigger] keys@[i])@)),
{
    let bref: &Board = &*game.board;
    let smref: &ScoreMap = score_map;
    let ghost prs = pairs_spec(*bref, game.turn as nat, game.pieces@);
    let ghost d = (depth - 1) as nat;
    let (mut states, mut actions) = game.expand(true);
    let ghost states0 = states@;
    let ghost actions0 = actions@;
    let n = states.len();
    let mut zipped: Vec<(Game, Action)> = Vec::new();
    let mut i: usize = 0;
    while i < n
        invariant
            n == states0.len(),
            n == actions0.len(),
            states@ == states0.skip(i as int),
            actions@ == actions0.skip(i as int),
            i <= n,
            zipped@.len() == i,
            forall|j: int| 0 <= j < i
                ==> #[trigger] zipped@[j] == (states0[j], actions0[j]),
        decreases n - i,
    {
        let s = states.remove(0);
        let a = actions.remove(0);
        proof {
            assert(states0.skip(i as int).remove(0) =~= states0.skip(i + 1));
            assert(actions0.skip(i as int).remove(0) =~= actions0.skip(i + 1));
            assert(states0.skip(i as int)[0] == states0[i as int]);
            assert(actions0.skip(i as int)[0] == actions0[i as int]);
        }
        zipped.push((s, a));
        i = i + 1;
    }
    proof {
        assert forall|j: int| 0 <= j < n
            implies root_succ_ok(*game, #[trigger] zipped@[j]) by {
            assert(zipped@[j] == (states0[j], actions0[j]));
            assert(prs.contains((actions0[j].from, actions0[j].to))) by {
                assert(prs[j] == (actions0[j].from, actions0[j].to));
            }
        };
    }
    let ghost pre_shuffle = zipped@;
    random_shuffle(rng, &mut zipped);
    proof {
        broadcast use vstd::seq_lib::group_to_multiset_ensures;
        assert forall|j: int| 0 <= j < zipped@.len()
            implies root_succ_ok(*game, #[trigger] zipped@[j]) by {
            assert(zipped@.contains(zipped@[j]));
            assert(zipped@.to_multiset().contains(zipped@[j]));
            assert(pre_shuffle.to_multiset().contains(zipped@[j]));
            assert(pre_shuffle.contains(zipped@[j]));
            let k = choose|k: int| 0 <= k < pre_shuffle.len()
                && pre_shuffle[k] == zipped@[j];
        };
        lemma_scored_over_props(*bref, game.turn as nat, game.pieces@, prs, d, *smref);
        let w = choose|w: int| 0 <= w < prs.len()
            && minimax_scored_over(*bref, game.turn as nat, game.pieces@, prs, d,
                *smref)
                == #[trigger] scored_child_value(*bref, game.turn as nat,
                    game.pieces@, prs[w], d, *smref);
        assert(pre_shuffle.contains((states0[w], actions0[w]))) by {
            assert(pre_shuffle[w] == (states0[w], actions0[w]));
        }
        assert(pre_shuffle.to_multiset().contains((states0[w], actions0[w])));
        assert(zipped@.to_multiset().contains((states0[w], actions0[w])));
        assert(zipped@.contains((states0[w], actions0[w])));
    }
    let ghost mo = minimax_scored_over(*bref, game.turn as nat, game.pieces@, prs, d,
        *smref);
    let maximizing = game.is_p1_moving_next();
    let mut best_idx: usize = 0;
    let mut best_val: i64 = 0;
    let mut started = false;
    let mut k: usize = 0;
    while k < zipped.len()
        invariant
            game.wf(),
            smref.wf(),
            *bref == *game.board,
            *smref == *score_map,
            depth >= 1,
            d == (depth - 1) as nat,
            maximizing == (game.turn % 2 == 0),
            prs == pairs_spec(*game.board, game.turn as nat, game.pieces@),
            !terminal_spec(*game.board, game.turn as nat, game.pieces@),
            k <= zipped@.len(),
            zipped@.len() >= 1,
            forall|j: int| 0 <= j < zipped@.len()
                ==> root_succ_ok(*game, #[trigger] zipped@[j]),
            exists|j: int| 0 <= j < zipped@.len()
                && mo == scored_child_value(*bref, game.turn as nat, game.pieces@,
                    ((#[trigger] zipped@[j]).1.from, zipped@[j].1.to), d, *smref),
            mo == minimax_scored_over(*bref, game.turn as nat, game.pieces@, prs, d,
                *smref),
            forall|j: int| 0 <= j < prs.len() ==> if maximizing {
                mo >= #[trigger] scored_child_value(*bref, game.turn as nat,
                    game.pieces@, prs[j], d, *smref)
            } else {
                mo <= #[trigger] scored_child_value(*bref, game.turn as nat,
                    game.pieces@, prs[j], d, *smref)
            },
            started == (k > 0),
            started ==> best_idx < k,
            started ==> best_val == scored_child_value(*bref, game.turn as nat,
                game.pieces@,
                (zipped@[best_idx as int].1.from, zipped@[best_idx as int].1.to), d,
                *smref),
            started ==> forall|j: int| 0 <= j < k ==> if maximizing {
                best_val >= #[trigger] scored_child_value(*bref, game.turn as nat,
                    game.pieces@, (zipped@[j].1.from, zipped@[j].1.to), d, *smref)
            } else {
                best_val <= #[trigger] scored_child_value(*bref, game.turn as nat,
                    game.pieces@, (zipped@[j].1.from, zipped@[j].1.to), d, *smref)
            },
        decreases zipped@.len() - k,
    {
        let pair = &zipped[k];
        let ghost cv = scored_child_value(*bref, game.turn as nat, game.pieces@,
            (pair.1.from, pair.1.to), d, *smref);
        proof {
            assert(root_succ_ok(*game, zipped@[k as int]));
            lemma_scored_bound(*bref, (game.turn + 1) as nat, pair.0.pieces@, d,
                *smref);
            assert(minimax_scored(*pair.0.board, pair.0.turn as nat, pair.0.pieces@,
                d, *smref) == cv);
        }
        let vr = search_scored(&pair.0, depth - 1, i64::MIN, i64::MAX, score_map);
        let v = match vr {
            Ok(v) => v,
            Err(keys) => {
                proof {
                    let pair_pos = (zipped@[k as int].1.from, zipped@[k as int].1.to);
                    let j = choose|j: int| 0 <= j < prs.len() && prs[j] == pair_pos;
                    assert(pairs_spec(*bref, game.turn as nat, game.pieces@) == prs);
                    assert(!terminal_spec(*bref, game.turn as nat, game.pieces@));
                    assert forall|t: int| 0 <= t < keys@.len()
                        implies scored_missing_key(*bref, game.turn as nat,
                            game.pieces@, depth as nat, *smref,
                            (#[trigger] keys@[t])@) by {
                        assert(scored_missing_key(*pair.0.board,
                            pair.0.turn as nat, pair.0.pieces@, d, *smref,
                            keys@[t]@));
                        assert(pair.0.pieces@ == moved_pieces(*bref,
                            game.turn as nat, game.pieces@, (prs[j]).0, prs[j].1));
                        assert(scored_missing_key(*bref,
                            (game.turn as nat + 1) as nat,
                            moved_pieces(*bref, game.turn as nat, game.pieces@,
                                (prs[j]).0, prs[j].1), d, *smref, keys@[t]@));
                        assert(exists|jj: int|
                            0 <= jj < pairs_spec(*bref, game.turn as nat,
                                game.pieces@).len()
                            && scored_missing_key(*bref, (game.turn as nat + 1) as nat,
                                moved_pieces(*bref, game.turn as nat, game.pieces@,
                                    (#[trigger] pairs_spec(*bref, game.turn as nat,
                                        game.pieces@)[jj]).0,
                                    pairs_spec(*bref, game.turn as nat,
                                        game.pieces@)[jj].1), d, *smref,
                                keys@[t]@)) by {
                            assert(pairs_spec(*bref, game.turn as nat,
                                game.pieces@)[j] == prs[j]);
                        }
                    };
                    assert(keys@.len() >= 1);
                    lemma_scored_missing_refutes(*bref, game.turn as nat,
                        game.pieces@, depth as nat, *smref, keys@[0]@);
                }
                return Err(keys);
            },
        };
        proof {
            assert(v == cv);
        }
        if !started || (maximizing && v > best_val) || (!maximizing && v < best_val) {
            best_idx = k;
            best_val = v;
        }
        started = true;
        k = k + 1;
    }
    proof {
        let wj = choose|j: int| 0 <= j < zipped@.len()
            && mo == scored_child_value(*bref, game.turn as nat, game.pieces@,
                ((#[trigger] zipped@[j]).1.from, zipped@[j].1.to), d, *smref);
        if maximizing {
            assert(best_val >= mo);
        } else {
            assert(best_val <= mo);
        }
        assert(root_succ_ok(*game, zipped@[best_idx as int]));
        let bp = (zipped@[best_idx as int].1.from, zipped@[best_idx as int].1.to);
        assert(prs.contains(bp));
        let bj = choose|bj: int| 0 <= bj < prs.len() && prs[bj] == bp;
        assert(scored_child_value(*bref, game.turn as nat, game.pieces@, prs[bj], d,
            *smref) == best_val);
        if maximizing {
            assert(best_val <= mo);
        } else {
            assert(best_val >= mo);
        }
        assert(best_val == mo);
        assert(minimax_scored(*bref, game.turn as nat, game.pieces@, depth as nat,
            *smref) == mo);
    }
    let ghost chosen = zipped@[best_idx as int];
    let result = zipped.swap_remove(best_idx);
    proof {
        assert(result == chosen);
        assert(minimax_scored(*bref, (game.turn + 1) as nat, result.0.pieces@, d,
            *smref)
            == scored_child_value(*bref, game.turn as nat, game.pieces@,
                (result.1.from, result.1.to), d, *smref));
    }
    Ok(result)
}

} // verus!
