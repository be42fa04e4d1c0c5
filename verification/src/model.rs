//! The mathematical model of positions: halves, the heuristic, the legal
//! move pairs, the successor relation and the minimax value, all over plain
//! sequences so that contracts and proofs can speak of them.
use vstd::prelude::*;
use crate::board::{Board, strictly_sorted, seqs_disjoint, all_on_board, sum_dist, MAX_CELL_DISTANCE};
use crate::reach::{cell_reached, jump_reachable, slide_ok, is_jump_chain, jump_edge,
    jump_landing, lemma_walk_landing};
use crate::game::half_replaced;

verus! {

/// Player 1's half of a piece list.
pub open spec fn p1_half_s(b: Board, pieces: Seq<u8>) -> Seq<u8> {
    pieces.take(b.n_pieces as int)
}

/// Player 2's half of a piece list.
pub open spec fn p2_half_s(b: Board, pieces: Seq<u8>) -> Seq<u8> {
    pieces.skip(b.n_pieces as int)
}

/// The half of the side that moves at `turn`.
pub open spec fn moving_half_s(b: Board, turn: nat, pieces: Seq<u8>) -> Seq<u8> {
    if turn % 2 == 0 {
        p1_half_s(b, pieces)
    } else {
        p2_half_s(b, pieces)
    }
}

/// A well-formed piece list for board `b`.
pub open spec fn pos_wf(b: Board, pieces: Seq<u8>) -> bool {
    &&& pieces.len() == 2 * b.n_pieces
    &&& strictly_sorted(p1_half_s(b, pieces))
    &&& strictly_sorted(p2_half_s(b, pieces))
    &&& all_on_board(pieces, b.board_size as int)
    &&& seqs_disjoint(p1_half_s(b, pieces), p2_half_s(b, pieces))
}

/// Player 1's distance sum.
pub open spec fn d1_s(b: Board, pieces: Seq<u8>) -> int {
    sum_dist(b.p1_distance_map@, p1_half_s(b, pieces))
}

/// Player 2's distance sum.
pub open spec fn d2_s(b: Board, pieces: Seq<u8>) -> int {
    sum_dist(b.p2_distance_map@, p2_half_s(b, pieces))
}

/// The static evaluation with the winning clamp; positive favours player 1.
pub open spec fn heuristic_s(b: Board, pieces: Seq<u8>) -> int {
    let e1 = if d1_s(b, pieces) <= b.min_distance { 0int } else { d1_s(b, pieces) };
    let e2 = if d2_s(b, pieces) <= b.min_distance { 0int } else { d2_s(b, pieces) };
    e2 - e1
}

/// `d` is a cell the piece on `p` may move to.
pub open spec fn is_dest(b: Board, pieces: Seq<u8>, p: u8, d: int) -> bool {
    0 <= d < b.board_size && d != p && cell_reached(b, pieces, p, d as u8)
}

/// The destinations of the piece on `p` among the cells below `n`,
/// ascending.
pub open spec fn dests_upto(b: Board, pieces: Seq<u8>, p: u8, n: int) -> Seq<u8>
    decreases n,
{
    if n <= 0 {
        Seq::empty()
    } else if is_dest(b, pieces, p, n - 1) {
        dests_upto(b, pieces, p, n - 1).push((n - 1) as u8)
    } else {
        dests_upto(b, pieces, p, n - 1)
    }
}

/// All destinations of the piece on `p`, ascending.
pub open spec fn dests_for(b: Board, pieces: Seq<u8>, p: u8) -> Seq<u8> {
    dests_upto(b, pieces, p, b.board_size as int)
}

/// The legal move pairs of the pieces at the first `k` indices of the
/// moving half, in the order the move generator emits them.
pub open spec fn pairs_upto(b: Board, turn: nat, pieces: Seq<u8>, k: int) -> Seq<(u8, u8)>
    decreases k,
{
    if k <= 0 {
        Seq::empty()
    } else {
        let p = moving_half_s(b, turn, pieces)[k - 1];
        pairs_upto(b, turn, pieces, k - 1)
            + dests_for(b, pieces, p).map_values(|d: u8| (p, d))
    }
}

/// All legal move pairs of the side to move.
pub open spec fn pairs_spec(b: Board, turn: nat, pieces: Seq<u8>) -> Seq<(u8, u8)> {
    pairs_upto(b, turn, pieces, moving_half_s(b, turn, pieces).len() as int)
}

/// A value into a sorted sequence, at its place.
pub open spec fn sorted_insert(s: Seq<u8>, v: u8) -> Seq<u8>
    decreases s.len(),
{
    if s.len() == 0 {
        seq![v]
    } else if v < s[0] {
        seq![v] + s
    } else {
        seq![s[0]] + sorted_insert(s.drop_first(), v)
    }
}

/// A sorted sequence with the first occurrence of `v` removed.
pub open spec fn remove_first_value(s: Seq<u8>, v: u8) -> Seq<u8>
    decreases s.len(),
{
    if s.len() == 0 {
        s
    } else if s[0] == v {
        s.drop_first()
    } else {
        seq![s[0]] + remove_first_value(s.drop_first(), v)
    }
}

/// The moving half after playing `from -> to`.
pub open spec fn moved_half(h: Seq<u8>, from: u8, to: u8) -> Seq<u8> {
    sorted_insert(remove_first_value(h, from), to)
}

/// The full piece list after the side at `turn` plays `from -> to`.
pub open spec fn moved_pieces(b: Board, turn: nat, pieces: Seq<u8>, from: u8, to: u8) -> Seq<u8> {
    if turn % 2 == 0 {
        moved_half(p1_half_s(b, pieces), from, to) + p2_half_s(b, pieces)
    } else {
        p1_half_s(b, pieces) + moved_half(p2_half_s(b, pieces), from, to)
    }
}

/// A position with no successors: a side has reached the winning distance,
/// the forced end has passed, or no piece of the side to move can move.
pub open spec fn terminal_spec(b: Board, turn: nat, pieces: Seq<u8>) -> bool {
    ||| d1_s(b, pieces) == b.min_distance
    ||| d2_s(b, pieces) == b.min_distance
    ||| turn > b.turn_limit
    ||| pairs_spec(b, turn, pieces).len() == 0
}

/// The value of the position reached by playing `pr`, searched `depth`
/// plies further.
pub open spec fn child_value(b: Board, turn: nat, pieces: Seq<u8>, pr: (u8, u8), depth: nat) -> int
    decreases depth, 1nat,
{
    minimax(b, (turn + 1) as nat, moved_pieces(b, turn, pieces, pr.0, pr.1), depth)
}

/// The depth-limited minimax value: the heuristic at depth zero or at a
/// terminal position, else the best child value for the side to move.
pub open spec fn minimax(b: Board, turn: nat, pieces: Seq<u8>, depth: nat) -> int
    decreases depth, 0nat,
{
    if depth == 0 || terminal_spec(b, turn, pieces) {
        heuristic_s(b, pieces)
    } else {
        minimax_over(b, turn, pieces, pairs_spec(b, turn, pieces), (depth - 1) as nat)
    }
}

/// The best child value over the pairs `prs`: the maximum when player 1
/// moves, the minimum when player 2 does.
pub open spec fn minimax_over(b: Board, turn: nat, pieces: Seq<u8>, prs: Seq<(u8, u8)>, depth: nat) -> int
    decreases depth, prs.len() + 2,
{
    let last = child_value(b, turn, pieces, prs.last(), depth);
    if prs.len() <= 1 {
        last
    } else {
        let rest = minimax_over(b, turn, pieces, prs.drop_last(), depth);
        if turn % 2 == 0 {
            if last > rest { last } else { rest }
        } else {
            if last < rest { last } else { rest }
        }
    }
}

/// The best child value is a bound for every child and is attained by one.
pub proof fn lemma_minimax_over_props(b: Board, turn: nat, pieces: Seq<u8>, prs: Seq<(u8, u8)>, depth: nat)
    requires
        prs.len() >= 1,
    ensures
        forall|i: int| 0 <= i < prs.len() ==> if turn % 2 == 0 {
            minimax_over(b, turn, pieces, prs, depth)
                >= #[trigger] child_value(b, turn, pieces, prs[i], depth)
        } else {
            minimax_over(b, turn, pieces, prs, depth)
                <= #[trigger] child_value(b, turn, pieces, prs[i], depth)
        },
        exists|i: int| 0 <= i < prs.len()
            && minimax_over(b, turn, pieces, prs, depth)
                == #[trigger] child_value(b, turn, pieces, prs[i], depth),
    decreases prs.len(),
{
    if prs.len() > 1 {
        lemma_minimax_over_props(b, turn, pieces, prs.drop_last(), depth);
        let mo = minimax_over(b, turn, pieces, prs, depth);
        let rest = minimax_over(b, turn, pieces, prs.drop_last(), depth);
        let j = choose|j: int| 0 <= j < prs.drop_last().len()
            && rest == #[trigger] child_value(b, turn, pieces, prs.drop_last()[j], depth);
        assert(prs.drop_last()[j] == prs[j]);
        assert(prs.last() == prs[prs.len() - 1]);
        if mo == rest {
            assert(mo == child_value(b, turn, pieces, prs[j], depth));
        } else {
            assert(mo == child_value(b, turn, pieces, prs[prs.len() - 1], depth));
        }
        assert forall|i: int| 0 <= i < prs.len() implies if turn % 2 == 0 {
            mo >= #[trigger] child_value(b, turn, pieces, prs[i], depth)
        } else {
            mo <= #[trigger] child_value(b, turn, pieces, prs[i], depth)
        } by {
            if i < prs.len() - 1 {
                assert(prs.drop_last()[i] == prs[i]);
            }
        };
    } else {
        assert(prs[0] == prs.last());
        assert(minimax_over(b, turn, pieces, prs, depth)
            == child_value(b, turn, pieces, prs[0], depth));
    }
}

/// Two strictly sorted sequences with the same members are the same
/// sequence.
pub proof fn lemma_sorted_seqs_equal(s1: Seq<u8>, s2: Seq<u8>)
    requires
        strictly_sorted(s1),
        strictly_sorted(s2),
        forall|x: u8| s1.contains(x) <==> s2.contains(x),
    ensures
        s1 == s2,
    decreases s1.len(),
{
    if s1.len() == 0 {
        if s2.len() > 0 {
            assert(s2.contains(s2[0]));
            assert(false);
        }
        assert(s1 =~= s2);
    } else {
        assert(s1.contains(s1[0]));
        assert(s2.len() > 0) by {
            if s2.len() == 0 {
                assert(s2.contains(s1[0]));
                assert(false);
            }
        }
        assert(s1[0] == s2[0]) by {
            assert(s2.contains(s1[0]));
            let k = choose|k: int| 0 <= k < s2.len() && s2[k] == s1[0];
            if k > 0 {
                assert(s2[0] < s2[k]);
            }
            assert(s2.contains(s2[0])) by { assert(s2[0] == s2[0]); }
            assert(s1.contains(s2[0]));
            let m = choose|m: int| 0 <= m < s1.len() && s1[m] == s2[0];
            if m > 0 {
                assert(s1[0] < s1[m]);
            }
        }
        let t1 = s1.drop_first();
        let t2 = s2.drop_first();
        assert(strictly_sorted(t1)) by {
            assert(forall|i: int, j: int| 0 <= i < j < t1.len()
                ==> t1[i] == s1[i + 1] && t1[j] == s1[j + 1]);
        }
        assert(strictly_sorted(t2)) by {
            assert(forall|i: int, j: int| 0 <= i < j < t2.len()
                ==> t2[i] == s2[i + 1] && t2[j] == s2[j + 1]);
        }
        assert forall|x: u8| t1.contains(x) implies t2.contains(x) by {
            let k = choose|k: int| 0 <= k < t1.len() && t1[k] == x;
            assert(s1[k + 1] == x);
            assert(x > s1[0]);
            assert(s1.contains(x)) by { assert(s1[k + 1] == x); }
            let m = choose|m: int| 0 <= m < s2.len() && s2[m] == x;
            assert(m > 0) by {
                if m == 0 {
                    assert(x == s2[0]);
                }
            }
            assert(t2[m - 1] == x);
        };
        assert forall|x: u8| t2.contains(x) implies t1.contains(x) by {
            let k = choose|k: int| 0 <= k < t2.len() && t2[k] == x;
            assert(s2[k + 1] == x);
            assert(x > s2[0]);
            assert(s2.contains(x)) by { assert(s2[k + 1] == x); }
            let m = choose|m: int| 0 <= m < s1.len() && s1[m] == x;
            assert(m > 0) by {
                if m == 0 {
                    assert(x == s1[0]);
                }
            }
            assert(t1[m - 1] == x);
        };
        lemma_sorted_seqs_equal(t1, t2);
        assert(s1 =~= s2) by {
            assert(forall|i: int| 1 <= i < s1.len() ==> s1[i] == t1[i - 1]);
            assert(forall|i: int| 1 <= i < s2.len() ==> s2[i] == t2[i - 1]);
        }
    }
}

/// Removing the first occurrence from a sorted duplicate-free sequence:
/// sorted again, one shorter, exactly that member gone.
pub proof fn lemma_remove_first_value(s: Seq<u8>, v: u8)
    requires
        strictly_sorted(s),
        s.contains(v),
    ensures
        strictly_sorted(remove_first_value(s, v)),
        remove_first_value(s, v).len() == s.len() - 1,
        forall|x: u8| #[trigger] remove_first_value(s, v).contains(x)
            <==> (s.contains(x) && x != v),
    decreases s.len(),
{
    let r = remove_first_value(s, v);
    let t = s.drop_first();
    assert(strictly_sorted(t)) by {
        assert(forall|i: int, j: int| 0 <= i < j < t.len()
            ==> t[i] == s[i + 1] && t[j] == s[j + 1]);
    }
    if s[0] == v {
        assert(r == t);
        assert forall|x: u8| #[trigger] r.contains(x) implies s.contains(x) && x != v by {
            let k = choose|k: int| 0 <= k < r.len() && r[k] == x;
            assert(s[k + 1] == x);
            assert(x > s[0]);
        };
        assert forall|x: u8| s.contains(x) && x != v implies #[trigger] r.contains(x) by {
            let k = choose|k: int| 0 <= k < s.len() && s[k] == x;
            assert(k != 0);
            assert(r[k - 1] == x);
        };
    } else {
        assert(t.contains(v)) by {
            let k = choose|k: int| 0 <= k < s.len() && s[k] == v;
            assert(k != 0);
            assert(t[k - 1] == v);
        }
        lemma_remove_first_value(t, v);
        let rt = remove_first_value(t, v);
        assert(r == seq![s[0]] + rt);
        assert(r[0] == s[0]);
        assert(forall|i: int| 0 <= i < rt.len() ==> r[i + 1] == rt[i]);
        assert forall|i: int, j: int| 0 <= i < j < r.len() implies r[i] < r[j] by {
            if i == 0 {
                assert(r[j] == rt[j - 1]);
                assert(rt.contains(rt[j - 1])) by { assert(rt[j - 1] == rt[j - 1]); }
                assert(t.contains(rt[j - 1]));
                let k = choose|k: int| 0 <= k < t.len() && t[k] == rt[j - 1];
                assert(s[k + 1] == rt[j - 1]);
                assert(s[0] < s[k + 1]);
            } else {
                assert(r[i] == rt[i - 1] && r[j] == rt[j - 1]);
            }
        };
        assert forall|x: u8| #[trigger] r.contains(x)
            implies s.contains(x) && x != v by {
            let k = choose|k: int| 0 <= k < r.len() && r[k] == x;
            if k == 0 {
                assert(x == s[0]);
            } else {
                assert(rt[k - 1] == x);
                assert(rt.contains(x));
                assert(t.contains(x));
                let m = choose|m: int| 0 <= m < t.len() && t[m] == x;
                assert(s[m + 1] == x);
            }
        };
        assert forall|x: u8| s.contains(x) && x != v implies #[trigger] r.contains(x) by {
            let k = choose|k: int| 0 <= k < s.len() && s[k] == x;
            if k == 0 {
                assert(r[0] == x);
            } else {
                assert(t[k - 1] == x);
                assert(t.contains(x));
                assert(rt.contains(x));
                let m = choose|m: int| 0 <= m < rt.len() && rt[m] == x;
                assert(r[m + 1] == x);
            }
        };
    }
}

/// Inserting a fresh value into a sorted sequence: sorted again, one
/// longer, exactly that member added.
pub proof fn lemma_sorted_insert_props(s: Seq<u8>, v: u8)
    requires
        strictly_sorted(s),
        !s.contains(v),
    ensures
        strictly_sorted(sorted_insert(s, v)),
        sorted_insert(s, v).len() == s.len() + 1,
        forall|x: u8| #[trigger] sorted_insert(s, v).contains(x)
            <==> (x == v || s.contains(x)),
    decreases s.len(),
{
    let r = sorted_insert(s, v);
    if s.len() == 0 {
        assert(r =~= seq![v]);
        assert(r.contains(v)) by { assert(r[0] == v); }
        assert forall|x: u8| #[trigger] r.contains(x) implies x == v by {
            let k = choose|k: int| 0 <= k < r.len() && r[k] == x;
        };
    } else if v < s[0] {
        assert(r == seq![v] + s);
        assert(r[0] == v);
        assert(forall|i: int| 0 <= i < s.len() ==> r[i + 1] == s[i]);
        assert forall|i: int, j: int| 0 <= i < j < r.len() implies r[i] < r[j] by {
            if i == 0 {
                assert(r[j] == s[j - 1]);
                assert(s[0] <= s[j - 1]);
            } else {
                assert(r[i] == s[i - 1] && r[j] == s[j - 1]);
            }
        };
        assert forall|x: u8| #[trigger] r.contains(x) implies x == v || s.contains(x) by {
            let k = choose|k: int| 0 <= k < r.len() && r[k] == x;
            if k > 0 {
                assert(s[k - 1] == x);
            }
        };
        assert forall|x: u8| x == v || s.contains(x) implies #[trigger] r.contains(x) by {
            if x == v {
                assert(r[0] == x);
            } else {
                let k = choose|k: int| 0 <= k < s.len() && s[k] == x;
                assert(r[k + 1] == x);
            }
        };
    } else {
        let t = s.drop_first();
        assert(strictly_sorted(t)) by {
            assert(forall|i: int, j: int| 0 <= i < j < t.len()
                ==> t[i] == s[i + 1] && t[j] == s[j + 1]);
        }
        assert(s[0] != v) by {
            if s[0] == v {
                assert(s.contains(v)) by { assert(s[0] == v); }
            }
        }
        assert(v > s[0]);
        assert(!t.contains(v)) by {
            if t.contains(v) {
                let k = choose|k: int| 0 <= k < t.len() && t[k] == v;
                assert(s[k + 1] == v);
                assert(s.contains(v)) by { assert(s[k + 1] == v); }
            }
        }
        lemma_sorted_insert_props(t, v);
        let rt = sorted_insert(t, v);
        assert(r == seq![s[0]] + rt);
        assert(r[0] == s[0]);
        assert(forall|i: int| 0 <= i < rt.len() ==> r[i + 1] == rt[i]);
        assert forall|i: int, j: int| 0 <= i < j < r.len() implies r[i] < r[j] by {
            if i == 0 {
                assert(r[j] == rt[j - 1]);
                assert(rt.contains(rt[j - 1])) by { assert(rt[j - 1] == rt[j - 1]); }
                if rt[j - 1] == v {
                    assert(s[0] < v);
                } else {
                    assert(t.contains(rt[j - 1]));
                    let k = choose|k: int| 0 <= k < t.len() && t[k] == rt[j - 1];
                    assert(s[k + 1] == rt[j - 1]);
                }
            } else {
                assert(r[i] == rt[i - 1] && r[j] == rt[j - 1]);
            }
        };
        assert forall|x: u8| #[trigger] r.contains(x) implies x == v || s.contains(x) by {
            let k = choose|k: int| 0 <= k < r.len() && r[k] == x;
            if k == 0 {
                assert(x == s[0]);
            } else {
                assert(rt[k - 1] == x);
                assert(rt.contains(x));
                if x != v {
                    assert(t.contains(x));
                    let m = choose|m: int| 0 <= m < t.len() && t[m] == x;
                    assert(s[m + 1] == x);
                }
            }
        };
        assert forall|x: u8| x == v || s.contains(x) implies #[trigger] r.contains(x) by {
            if x == v {
                assert(rt.contains(v));
                let m = choose|m: int| 0 <= m < rt.len() && rt[m] == v;
                assert(r[m + 1] == v);
            } else {
                let k = choose|k: int| 0 <= k < s.len() && s[k] == x;
                if k == 0 {
                    assert(r[0] == x);
                } else {
                    assert(t[k - 1] == x);
                    assert(t.contains(x));
                    assert(rt.contains(x));
                    let m = choose|m: int| 0 <= m < rt.len() && rt[m] == x;
                    assert(r[m + 1] == x);
                }
            }
        };
    }
}

/// Any sequence in the `half_replaced` relation to `h` is exactly
/// `moved_half(h, from, to)`.
pub proof fn lemma_half_replaced_unique(h: Seq<u8>, nh: Seq<u8>, from: u8, to: u8)
    requires
        strictly_sorted(h),
        h.contains(from),
        !h.contains(to),
        half_replaced(h, nh, from, to),
    ensures
        nh == moved_half(h, from, to),
{
    lemma_remove_first_value(h, from);
    let d = remove_first_value(h, from);
    assert(!d.contains(to));
    lemma_sorted_insert_props(d, to);
    let m = moved_half(h, from, to);
    assert forall|x: u8| nh.contains(x) <==> m.contains(x) by {
        assert(m.contains(x) <==> (x == to || d.contains(x)));
    };
    lemma_sorted_seqs_equal(nh, m);
}

} // verus!
