//! The game position: turn counter plus the two players' sorted piece lists.
use std::rc::Rc;
use vstd::prelude::*;
use crate::INVALID_POSITION;
use crate::board::{
    Board, MAX_CELL_DISTANCE, all_on_board, seqs_disjoint, strictly_sorted, sum_dist,
    sum_distances, lemma_sum_dist_bound,
};
use crate::model::{
    pairs_spec, pairs_upto, dests_for, dests_upto, is_dest, moved_pieces, moved_half,
    terminal_spec, p1_half_s, p2_half_s, moving_half_s, d1_s, d2_s, heuristic_s,
    lemma_half_replaced_unique,
};
use crate::reach::{reach_map_ok, cell_reached, lemma_reached_empty};

verus! {

/// One move: the piece's cell, the destination, and the predecessor map of
/// the reachability search that produced it.
pub struct Action {
    pub from: u8,
    pub to: u8,
    pub path: Vec<u8>,
}

/// A position.  `pieces` holds player 1's cells in its first half and player
/// 2's in its second half, each half sorted ascending.
pub struct Game {
    pub board: Rc<Board>,
    pub turn: usize,
    pub pieces: Vec<u8>,
}

/// Byte-for-byte copy of a vector.
fn copy_bytes(v: &Vec<u8>) -> (r: Vec<u8>)
    ensures
        r@ == v@,
{
    let mut r: Vec<u8> = Vec::new();
    let mut i: usize = 0;
    while i < v.len()
        invariant
            i <= v@.len(),
            r@ == v@.take(i as int),
        decreases v@.len() - i,
    {
        r.push(v[i]);
        assert(r@ =~= v@.take(i + 1));
        i = i + 1;
    }
    assert(v@.take(i as int) =~= v@);
    r
}


impl Action {
    /// A copy of the move record.
    pub fn duplicate(&self) -> (a: Action)
        ensures
            a.from == self.from,
            a.to == self.to,
            a.path@ == self.path@,
    {
        Action { from: self.from, to: self.to, path: copy_bytes(&self.path) }
    }
}

/// The outcome of a game.
#[derive(Clone, Copy, Debug, PartialEq, Eq, Structural)]
pub enum Status {
    Unfinished,
    P1Win,
    P2Win,
    Tie,
}

/// The outcome at a position: unfinished while a move remains; at a
/// terminal position the smaller distance sum wins, a tie at the forced
/// end goes to player 2, and other equal-distance endings are ties.
pub open spec fn status_spec(b: Board, turn: nat, pieces: Seq<u8>) -> Status {
    if !terminal_spec(b, turn, pieces) {
        Status::Unfinished
    } else if d1_s(b, pieces) < d2_s(b, pieces) {
        Status::P1Win
    } else if d2_s(b, pieces) < d1_s(b, pieces) {
        Status::P2Win
    } else if turn > b.turn_limit {
        Status::P2Win
    } else {
        Status::Tie
    }
}


/// When every piece of player 1 stands on the opposite base, the position
/// is terminal and, as long as player 2 has not also reached the winning
/// distance, its status is player 1's win.
pub proof fn lemma_base_occupation_wins_p1(b: Board, turn: nat, pieces: Seq<u8>)
    requires
        b.wf(),
        p1_half_s(b, pieces) == b.p2_base(),
        d2_s(b, pieces) > b.min_distance,
    ensures
        d1_s(b, pieces) == b.min_distance,
        terminal_spec(b, turn, pieces),
        status_spec(b, turn, pieces) == Status::P1Win,
{
}

/// The mirror image: player 2 occupying player 1's base has won.
pub proof fn lemma_base_occupation_wins_p2(b: Board, turn: nat, pieces: Seq<u8>)
    requires
        b.wf(),
        p2_half_s(b, pieces) == b.p1_base(),
        d1_s(b, pieces) > b.min_distance,
    ensures
        d2_s(b, pieces) == b.min_distance,
        terminal_spec(b, turn, pieces),
        status_spec(b, turn, pieces) == Status::P2Win,
{
}

/// Past the forced end the smaller distance sum wins, and a tie is a win
/// for player 2.
pub proof fn lemma_turn_limit_outcome(b: Board, turn: nat, pieces: Seq<u8>)
    requires
        turn > b.turn_limit,
    ensures
        terminal_spec(b, turn, pieces),
        d1_s(b, pieces) < d2_s(b, pieces)
            ==> status_spec(b, turn, pieces) == Status::P1Win,
        d2_s(b, pieces) < d1_s(b, pieces)
            ==> status_spec(b, turn, pieces) == Status::P2Win,
        d1_s(b, pieces) == d2_s(b, pieces)
            ==> status_spec(b, turn, pieces) == Status::P2Win,
{
}

/// Relation between a half before and after a move: `from` out, `to` in,
/// sortedness kept, nothing else touched.
pub open spec fn half_replaced(old_half: Seq<u8>, new_half: Seq<u8>, from: u8, to: u8) -> bool {
    &&& new_half.len() == old_half.len()
    &&& strictly_sorted(new_half)
    &&& forall|x: u8| new_half.contains(x) <==> (x == to || (old_half.contains(x) && x != from))
}

pub proof fn lemma_subrange_contains(s: Seq<u8>, lo: int, hi: int, x: u8)
    requires
        0 <= lo <= hi <= s.len(),
        s.subrange(lo, hi).contains(x),
    ensures
        s.contains(x),
{
    let i = choose|i: int| 0 <= i < hi - lo && s.subrange(lo, hi)[i] == x;
    assert(s[lo + i] == x);
}

/// Removing an index from a strictly sorted sequence keeps it strictly
/// sorted and drops exactly that value.
pub proof fn lemma_sorted_remove(s: Seq<u8>, i: int)
    requires
        strictly_sorted(s),
        0 <= i < s.len(),
    ensures
        strictly_sorted(s.remove(i)),
        forall|x: u8| #[trigger] s.remove(i).contains(x) <==> (s.contains(x) && x != s[i]),
{
    let d = s.remove(i);
    assert forall|p: int, q: int| 0 <= p < q < d.len() implies d[p] < d[q] by {
        assert(d[p] == if p < i { s[p] } else { s[p + 1] });
        assert(d[q] == if q < i { s[q] } else { s[q + 1] });
    };
    assert forall|x: u8| #[trigger] d.contains(x) implies s.contains(x) && x != s[i] by {
        let k = choose|k: int| 0 <= k < d.len() && d[k] == x;
        if k < i {
            assert(s[k] == x);
        } else {
            assert(s[k + 1] == x);
        }
    };
    assert forall|x: u8| s.contains(x) && x != s[i] implies #[trigger] d.contains(x) by {
        let k = choose|k: int| 0 <= k < s.len() && s[k] == x;
        if k < i {
            assert(d[k] == x);
        } else {
            assert(k != i);
            assert(d[k - 1] == x);
        }
    };
}

/// Inserting a value at its sorted position keeps a strictly sorted
/// sequence strictly sorted and adds exactly that value.
pub proof fn lemma_sorted_insert(d: Seq<u8>, j: int, v: u8)
    requires
        strictly_sorted(d),
        0 <= j <= d.len(),
        forall|k: int| 0 <= k < j ==> d[k] < v,
        forall|k: int| j <= k < d.len() ==> d[k] > v,
    ensures
        strictly_sorted(d.insert(j, v)),
        forall|x: u8| #[trigger] d.insert(j, v).contains(x) <==> (x == v || d.contains(x)),
{
    let e = d.insert(j, v);
    assert forall|p: int, q: int| 0 <= p < q < e.len() implies e[p] < e[q] by {
        assert(e[p] == if p < j { d[p] } else if p == j { v } else { d[p - 1] });
        assert(e[q] == if q < j { d[q] } else if q == j { v } else { d[q - 1] });
    };
    assert forall|x: u8| #[trigger] e.contains(x) implies x == v || d.contains(x) by {
        let k = choose|k: int| 0 <= k < e.len() && e[k] == x;
        if k < j {
            assert(d[k] == x);
        } else if k > j {
            assert(d[k - 1] == x);
        }
    };
    assert forall|x: u8| x == v || d.contains(x) implies #[trigger] e.contains(x) by {
        if x == v {
            assert(e[j] == x);
        } else {
            let k = choose|k: int| 0 <= k < d.len() && d[k] == x;
            if k < j {
                assert(e[k] == x);
            } else {
                assert(e[k + 1] == x);
            }
        }
    };
}

/// The slice `v[lo..hi]` with `from` taken out and `to` put in at its
/// sorted position.
fn replace_sorted(v: &Vec<u8>, lo: usize, hi: usize, from: u8, to: u8) -> (nh: Vec<u8>)
    requires
        lo <= hi <= v@.len(),
        strictly_sorted(v@.subrange(lo as int, hi as int)),
        v@.subrange(lo as int, hi as int).contains(from),
        !v@.subrange(lo as int, hi as int).contains(to),
    ensures
        half_replaced(v@.subrange(lo as int, hi as int), nh@, from, to),
{
    let ghost sub = v@.subrange(lo as int, hi as int);
    let mut nh: Vec<u8> = Vec::new();
    let mut i: usize = lo;
    while i < hi
        invariant
            lo <= i <= hi <= v@.len(),
            sub == v@.subrange(lo as int, hi as int),
            nh@ == sub.take(i - lo),
        decreases hi - i,
    {
        nh.push(v[i]);
        assert(nh@ =~= sub.take(i + 1 - lo));
        i = i + 1;
    }
    assert(nh@ =~= sub);

    let mut idx: usize = 0;
    while idx < nh.len() && nh[idx] != from
        invariant
            idx <= nh@.len(),
            nh@ == sub,
            sub.contains(from),
            forall|k: int| 0 <= k < idx ==> sub[k] != from,
        decreases nh@.len() - idx,
    {
        idx = idx + 1;
    }
    proof {
        let w = choose|w: int| 0 <= w < sub.len() && sub[w] == from;
        assert(idx < nh@.len());
        assert(sub[idx as int] == from);
    }
    nh.remove(idx);
    let ghost d = sub.remove(idx as int);
    proof {
        lemma_sorted_remove(sub, idx as int);
    }

    let mut j: usize = 0;
    while j < nh.len() && nh[j] < to
        invariant
            j <= nh@.len(),
            nh@ == d,
            forall|k: int| 0 <= k < j ==> d[k] < to,
        decreases nh@.len() - j,
    {
        j = j + 1;
    }
    proof {
        assert forall|k: int| j <= k < d.len() implies d[k] > to by {
            assert(d.contains(d[k]));
            assert(d[k] != to);
            assert(d[j as int] <= d[k]);
        };
        lemma_sorted_insert(d, j as int, to);
    }
    nh.insert(j, to);
    proof {
        assert(sub.len() > 0);
        assert forall|x: u8| nh@.contains(x)
            implies (x == to || (sub.contains(x) && x != from)) by {
            assert(d.insert(j as int, to).contains(x));
        };
        assert forall|x: u8| x == to || (sub.contains(x) && x != from)
            implies #[trigger] nh@.contains(x) by {
            if x != to {
                assert(d.contains(x));
            }
            assert(d.insert(j as int, to).contains(x));
        };
    }
    nh
}

impl Game {
    /// Player 1's half of the piece list.
    pub open spec fn p1_half(self) -> Seq<u8> {
        self.pieces@.take(self.board.n_pieces as int)
    }

    /// Player 2's half of the piece list.
    pub open spec fn p2_half(self) -> Seq<u8> {
        self.pieces@.skip(self.board.n_pieces as int)
    }

    /// The half of the side to move.
    pub open spec fn moving_half(self) -> Seq<u8> {
        if self.turn % 2 == 0 {
            self.p1_half()
        } else {
            self.p2_half()
        }
    }

    /// Well-formedness: a well-formed board, and both halves sorted,
    /// disjoint, and on the board.
    pub open spec fn wf(self) -> bool {
        &&& self.board.wf()
        &&& self.pieces.len() == 2 * self.board.n_pieces
        &&& strictly_sorted(self.p1_half())
        &&& strictly_sorted(self.p2_half())
        &&& all_on_board(self.pieces@, self.board.board_size as int)
        &&& seqs_disjoint(self.p1_half(), self.p2_half())
    }

    /// A fresh game on `board`: turn 0, both players in their bases.
    pub fn new(board: Board) -> (g: Game)
        requires
            board.wf(),
        ensures
            g.wf(),
            *g.board == board,
            g.turn == 0,
            g.pieces@ == board.starting@,
    {
        let pieces = copy_bytes(&board.starting);
        let g = Game { board: Rc::new(board), turn: 0, pieces };
        proof {
            assert(g.p1_half() =~= g.board.p1_base());
            assert(g.p2_half() =~= g.board.p2_base());
        }
        g
    }

    pub fn is_p1_moving_next(&self) -> (r: bool)
        ensures
            r == (self.turn % 2 == 0),
    {
        self.turn % 2 == 0
    }

    pub fn is_p2_moving_next(&self) -> (r: bool)
        ensures
            r == (self.turn % 2 == 1),
    {
        self.turn % 2 == 1
    }

    /// Player 1's pieces, as a slice of the sorted list.
    pub fn p1_pieces_slice(&self) -> (r: &[u8])
        requires
            self.board.n_pieces <= self.pieces@.len(),
        ensures
            r@ == self.p1_half(),
    {
        let r = &self.pieces[0..self.board.n_pieces];
        assert(r@ =~= self.p1_half());
        r
    }

    /// Player 2's pieces, as a slice of the sorted list.
    pub fn p2_pieces_slice(&self) -> (r: &[u8])
        requires
            self.board.n_pieces <= self.pieces@.len(),
        ensures
            r@ == self.p2_half(),
    {
        let r = &self.pieces[self.board.n_pieces..self.pieces.len()];
        assert(r@ =~= self.p2_half());
        r
    }

    /// Overwrites player 1's half with `vals`.
    pub fn p1_pieces_slice_mut(&mut self, vals: &[u8])
        requires
            old(self).board.n_pieces <= old(self).pieces@.len(),
            vals@.len() == old(self).board.n_pieces,
        ensures
            final(self).board == old(self).board,
            final(self).turn == old(self).turn,
            final(self).p1_half() == vals@,
            final(self).p2_half() == old(self).p2_half(),
            final(self).pieces@.len() == old(self).pieces@.len(),
    {
        let mut i: usize = 0;
        while i < vals.len()
            invariant
                i <= vals@.len(),
                vals@.len() <= self.pieces@.len(),
                self.board == old(self).board,
                self.turn == old(self).turn,
                self.pieces@.len() == old(self).pieces@.len(),
                forall|k: int| 0 <= k < i ==> self.pieces@[k] == vals@[k],
                forall|k: int| i <= k < self.pieces@.len() ==> self.pieces@[k] == old(self).pieces@[k],
            decreases vals@.len() - i,
        {
            let v = vals[i];
            self.pieces.set(i, v);
            i = i + 1;
        }
        proof {
            assert(final(self).p1_half() =~= vals@);
            assert(final(self).p2_half() =~= old(self).p2_half());
        }
    }

    /// Overwrites player 2's half with `vals`.
    pub fn p2_pieces_slice_mut(&mut self, vals: &[u8])
        requires
            old(self).pieces@.len() == 2 * old(self).board.n_pieces,
            vals@.len() == old(self).board.n_pieces,
        ensures
            final(self).board == old(self).board,
            final(self).turn == old(self).turn,
            final(self).p2_half() == vals@,
            final(self).p1_half() == old(self).p1_half(),
            final(self).pieces@.len() == old(self).pieces@.len(),
    {
        let n = self.board.n_pieces;
        let mut i: usize = 0;
        while i < vals.len()
            invariant
                i <= vals@.len(),
                n == self.board.n_pieces,
                vals@.len() == n,
                self.pieces@.len() == 2 * n,
                self.board == old(self).board,
                self.turn == old(self).turn,
                forall|k: int| 0 <= k < i ==> self.pieces@[n + k] == vals@[k],
                forall|k: int| 0 <= k < self.pieces@.len() && !(n <= k < n + i)
                    ==> self.pieces@[k] == old(self).pieces@[k],
            decreases vals@.len() - i,
        {
            let v = vals[i];
            let len = self.pieces.len();
            assert(n + i < len);
            self.pieces.set(n + i, v);
            i = i + 1;
        }
        proof {
            assert(final(self).p2_half() =~= vals@);
            assert(final(self).p1_half() =~= old(self).p1_half());
        }
    }

    /// True iff some piece of either player stands on `piece`.
    pub fn has_piece(&self, piece: u8) -> (r: bool)
        ensures
            r == self.pieces@.contains(piece),
    {
        let mut i: usize = 0;
        while i < self.pieces.len()
            invariant
                i <= self.pieces@.len(),
                forall|k: int| 0 <= k < i ==> self.pieces@[k] != piece,
            decreases self.pieces@.len() - i,
        {
            if self.pieces[i] == piece {
                return true;
            }
            i = i + 1;
        }
        false
    }

    /// Player 1's distance sum.
    pub open spec fn p1_distance_spec(self) -> int {
        sum_dist(self.board.p1_distance_map@, self.p1_half())
    }

    /// Player 2's distance sum.
    pub open spec fn p2_distance_spec(self) -> int {
        sum_dist(self.board.p2_distance_map@, self.p2_half())
    }

    pub fn p1_distance(&self) -> (r: u64)
        requires
            self.wf(),
        ensures
            r == self.p1_distance_spec(),
            r <= self.board.n_pieces * MAX_CELL_DISTANCE,
    {
        proof {
            lemma_sum_dist_bound(self.board.p1_distance_map@, self.p1_half());
        }
        sum_distances(&self.board.p1_distance_map, &self.pieces, 0, self.board.n_pieces)
    }

    pub fn p2_distance(&self) -> (r: u64)
        requires
            self.wf(),
        ensures
            r == self.p2_distance_spec(),
            r <= self.board.n_pieces * MAX_CELL_DISTANCE,
    {
        proof {
            lemma_sum_dist_bound(self.board.p2_distance_map@, self.p2_half());
        }
        let r = sum_distances(
            &self.board.p2_distance_map,
            &self.pieces,
            self.board.n_pieces,
            self.pieces.len(),
        );
        assert(self.pieces@.subrange(
            self.board.n_pieces as int,
            self.pieces@.len() as int,
        ) =~= self.p2_half());
        r
    }

    /// Player 1's distance sum with the winning clamp applied.
    pub open spec fn p1_clamped(self) -> int {
        if self.p1_distance_spec() <= self.board.min_distance {
            0
        } else {
            self.p1_distance_spec()
        }
    }

    /// Player 2's distance sum with the winning clamp applied.
    pub open spec fn p2_clamped(self) -> int {
        if self.p2_distance_spec() <= self.board.min_distance {
            0
        } else {
            self.p2_distance_spec()
        }
    }

    /// The static evaluation: positive favours player 1.
    pub open spec fn heuristic_spec(self) -> int {
        self.p2_clamped() - self.p1_clamped()
    }

    /// Static evaluation; clamping a winning side's distance to zero widens
    /// the reward gap at terminal positions.
    pub fn heuristic(&self) -> (r: i64)
        requires
            self.wf(),
        ensures
            r == self.heuristic_spec(),
            r > 0 ==> self.p1_clamped() < self.p2_clamped(),
    {
        let mut d1 = self.p1_distance();
        if d1 <= self.board.min_distance {
            d1 = 0;
        }
        let mut d2 = self.p2_distance();
        if d2 <= self.board.min_distance {
            d2 = 0;
        }
        (d2 as i64) - (d1 as i64)
    }


    /// The successor position after moving the piece on `from` to the empty
    /// cell `to`.  The caller guarantees the move's legality; the turn
    /// counter strictly increases, so no move can be taken back within the
    /// same turn.
    pub fn move_to(&self, from: u8, to: u8) -> (r: Game)
        requires
            self.wf(),
            self.moving_half().contains(from),
            !self.pieces@.contains(to),
            (to as int) < self.board.board_size,
            self.turn < usize::MAX,
        ensures
            r.wf(),
            r.board == self.board,
            r.turn == self.turn + 1,
            self.turn % 2 == 0 ==> r.p2_half() == self.p2_half()
                && half_replaced(self.p1_half(), r.p1_half(), from, to),
            self.turn % 2 == 1 ==> r.p1_half() == self.p1_half()
                && half_replaced(self.p2_half(), r.p2_half(), from, to),
    {
        let n = self.board.n_pieces;
        let len = self.pieces.len();
        let p1_moving = self.turn % 2 == 0;
        let (lo, hi) = if p1_moving { (0usize, n) } else { (n, len) };
        proof {
            if p1_moving {
                assert(self.pieces@.subrange(0, n as int) =~= self.p1_half());
            } else {
                assert(self.pieces@.subrange(n as int, len as int) =~= self.p2_half());
            }
            if self.pieces@.subrange(lo as int, hi as int).contains(to) {
                lemma_subrange_contains(self.pieces@, lo as int, hi as int, to);
            }
        }
        let nh = replace_sorted(&self.pieces, lo, hi, from, to);
        let mut np: Vec<u8> = Vec::new();
        let mut i: usize = 0;
        if p1_moving {
            let mut j: usize = 0;
            while j < nh.len()
                invariant
                    j <= nh@.len(),
                    np@ == nh@.take(j as int),
                decreases nh@.len() - j,
            {
                np.push(nh[j]);
                assert(np@ =~= nh@.take(j + 1));
                j = j + 1;
            }
            assert(nh@.take(j as int) =~= nh@);
            i = n;
            while i < len
                invariant
                    n <= i <= len,
                    len == self.pieces@.len(),
                    np@ == nh@ + self.pieces@.subrange(n as int, i as int),
                decreases len - i,
            {
                np.push(self.pieces[i]);
                assert(np@ =~= nh@ + self.pieces@.subrange(n as int, i + 1));
                i = i + 1;
            }
        } else {
            while i < n
                invariant
                    i <= n <= self.pieces@.len(),
                    np@ == self.pieces@.subrange(0, i as int),
                decreases n - i,
            {
                np.push(self.pieces[i]);
                assert(np@ =~= self.pieces@.subrange(0, i + 1));
                i = i + 1;
            }
            let mut j: usize = 0;
            while j < nh.len()
                invariant
                    j <= nh@.len(),
                    np@ == self.pieces@.subrange(0, n as int) + nh@.take(j as int),
                decreases nh@.len() - j,
            {
                np.push(nh[j]);
                assert(np@ =~= self.pieces@.subrange(0, n as int) + nh@.take(j + 1));
                j = j + 1;
            }
            assert(nh@.take(nh@.len() as int) =~= nh@);
        }
        let r = Game {
            board: Rc::clone(&self.board),
            turn: self.turn + 1,
            pieces: np,
        };
        proof {
            if p1_moving {
                assert(r.p1_half() =~= nh@);
                assert(r.p2_half() =~= self.p2_half());
            } else {
                assert(r.p1_half() =~= self.p1_half());
                assert(r.p2_half() =~= nh@);
            }
            let ghost old_half = if p1_moving { self.p1_half() } else { self.p2_half() };
            let ghost new_half = if p1_moving { r.p1_half() } else { r.p2_half() };
            let ghost keep_half = if p1_moving { r.p2_half() } else { r.p1_half() };
            assert(half_replaced(old_half, new_half, from, to));
            assert forall|k: int| 0 <= k < r.pieces@.len()
                implies (r.pieces@[k] as int) < r.board.board_size by {
                if p1_moving {
                    if k < n {
                        assert(new_half.contains(new_half[k])) by {
                            assert(new_half[k] == r.pieces@[k]);
                        }
                        let x = r.pieces@[k];
                        assert(new_half.contains(x));
                        if x != to {
                            assert(old_half.contains(x));
                            lemma_subrange_contains(self.pieces@, 0, n as int, x);
                            let m = choose|m: int| 0 <= m < self.pieces@.len()
                                && self.pieces@[m] == x;
                            assert((self.pieces@[m] as int) < self.board.board_size);
                        }
                    } else {
                        assert(r.pieces@[k] == self.pieces@[k]);
                    }
                } else {
                    if k < n {
                        assert(r.pieces@[k] == self.pieces@[k]);
                    } else {
                        let x = r.pieces@[k];
                        assert(new_half[k - n] == x);
                        assert(new_half.contains(x));
                        if x != to {
                            assert(old_half.contains(x));
                            lemma_subrange_contains(
                                self.pieces@, n as int, self.pieces@.len() as int, x);
                        }
                    }
                }
            };
            assert forall|p: int, q: int|
                0 <= p < r.p1_half().len() && 0 <= q < r.p2_half().len()
                implies r.p1_half()[p] != r.p2_half()[q] by {
                let a = r.p1_half()[p];
                let bq = r.p2_half()[q];
                if p1_moving {
                    assert(new_half.contains(a)) by { assert(new_half[p] == a); }
                    if a == to {
                        if self.p2_half().contains(bq) && bq == to {
                            lemma_subrange_contains(
                                self.pieces@, n as int, self.pieces@.len() as int, to);
                        }
                        assert(self.p2_half()[q] == bq);
                        assert(self.p2_half().contains(bq));
                        if bq == to {
                            lemma_subrange_contains(
                                self.pieces@, n as int, self.pieces@.len() as int, to);
                        }
                    } else {
                        assert(old_half.contains(a));
                        assert(self.p2_half().contains(bq)) by {
                            assert(self.p2_half()[q] == bq);
                        }
                        assert(a != bq);
                    }
                } else {
                    assert(new_half.contains(bq)) by { assert(new_half[q] == bq); }
                    assert(self.p1_half().contains(a)) by {
                        assert(self.p1_half()[p] == a);
                    }
                    if bq == to {
                        if a == to {
                            lemma_subrange_contains(self.pieces@, 0, n as int, to);
                        }
                    } else {
                        assert(old_half.contains(bq));
                        assert(a != bq);
                    }
                }
            };
        }
        r
    }


    /// All successor positions of the side to move, each paired (when
    /// `record_actions` is set) with the move that produced it and the
    /// predecessor map it was read from.  Empty exactly at terminal
    /// positions: a side at the winning distance, the forced end passed, or
    /// no legal move.
    pub fn expand(&self, record_actions: bool) -> (r: (Vec<Game>, Vec<Action>))
        requires
            self.wf(),
        ensures
            terminal_spec(*self.board, self.turn as nat, self.pieces@)
                ==> r.0@.len() == 0 && r.1@.len() == 0,
            !terminal_spec(*self.board, self.turn as nat, self.pieces@) ==> {
                let prs = pairs_spec(*self.board, self.turn as nat, self.pieces@);
                &&& r.0@.len() == prs.len()
                &&& forall|i: int| 0 <= i < prs.len() ==> {
                    let s = #[trigger] r.0@[i];
                    &&& s.wf()
                    &&& s.board == self.board
                    &&& s.turn == self.turn + 1
                    &&& s.pieces@ == moved_pieces(*self.board, self.turn as nat,
                        self.pieces@, prs[i].0, prs[i].1)
                }
                &&& record_actions ==> r.1@.len() == prs.len()
                    && forall|i: int| 0 <= i < prs.len()
                        ==> (#[trigger] r.1@[i]).from == prs[i].0
                            && r.1@[i].to == prs[i].1
                            && reach_map_ok(*self.board, self.pieces@, prs[i].0,
                                r.1@[i].path@)
                &&& !record_actions ==> r.1@.len() == 0
            },
    {
        let bref: &Board = &*self.board;
        let ghost b = *bref;
        let ghost ps = self.pieces@;
        let ghost tn = self.turn as nat;
        let d1 = self.p1_distance();
        let d2 = self.p2_distance();
        if d1 == self.board.min_distance || d2 == self.board.min_distance
            || self.turn > self.board.turn_limit
        {
            let states: Vec<Game> = Vec::new();
            let actions: Vec<Action> = Vec::new();
            return (states, actions);
        }
        let n = self.board.n_pieces;
        let len = self.pieces.len();
        let p1_moving = self.turn % 2 == 0;
        let (lo, hi) = if p1_moving { (0usize, n) } else { (n, len) };
        let ghost half = moving_half_s(b, tn, ps);
        proof {
            if p1_moving {
                assert(half =~= ps.subrange(lo as int, hi as int));
            } else {
                assert(half =~= ps.subrange(lo as int, hi as int));
            }
        }
        let mut states: Vec<Game> = Vec::new();
        let mut actions: Vec<Action> = Vec::new();
        let mut k: usize = 0;
        while k < hi - lo
            invariant
                self.wf(),
                b == *self.board,
                ps == self.pieces@,
                tn == self.turn as nat,
                lo <= hi <= ps.len(),
                hi - lo == half.len(),
                (if self.turn % 2 == 0 { (0int, self.board.n_pieces as int) }
                    else { (self.board.n_pieces as int, ps.len() as int) })
                    == (lo as int, hi as int),
                half == moving_half_s(b, tn, ps),
                half == ps.subrange(lo as int, hi as int),
                k <= hi - lo,
                self.turn <= self.board.turn_limit,
                states@.len() == pairs_upto(b, tn, ps, k as int).len(),
                forall|i: int| 0 <= i < states@.len() ==> {
                    let s = #[trigger] states@[i];
                    let prs = pairs_upto(b, tn, ps, k as int);
                    &&& s.wf()
                    &&& s.board == self.board
                    &&& s.turn == self.turn + 1
                    &&& s.pieces@ == moved_pieces(b, tn, ps, prs[i].0, prs[i].1)
                },
                record_actions ==> actions@.len() == states@.len()
                    && forall|i: int| 0 <= i < actions@.len() ==> {
                        let prs = pairs_upto(b, tn, ps, k as int);
                        &&& (#[trigger] actions@[i]).from == prs[i].0
                        &&& actions@[i].to == prs[i].1
                        &&& reach_map_ok(b, ps, prs[i].0, actions@[i].path@)
                    },
                !record_actions ==> actions@.len() == 0,
            decreases hi - lo - k,
        {
            let piece = self.pieces[lo + k];
            proof {
                assert(half[k as int] == piece);
            }
            let paths = self.possible_moves_with_path(piece);
            let bs = self.board.board_size;
            let ghost prs_k = pairs_upto(b, tn, ps, k as int);
            let mut dest: usize = 0;
            while dest < bs
                invariant
                    self.wf(),
                    b == *self.board,
                    ps == self.pieces@,
                    tn == self.turn as nat,
                    bs == self.board.board_size,
                    lo <= hi <= ps.len(),
                    hi - lo == half.len(),
                    half == moving_half_s(b, tn, ps),
                    half == ps.subrange(lo as int, hi as int),
                    k < hi - lo,
                    half[k as int] == piece,
                    (piece as int) < bs,
                    dest <= bs,
                    self.turn <= self.board.turn_limit,
                    reach_map_ok(b, ps, piece, paths@),
                    prs_k == pairs_upto(b, tn, ps, k as int),
                    states@.len() == prs_k.len()
                        + dests_upto(b, ps, piece, dest as int).len(),
                    forall|i: int| 0 <= i < states@.len() ==> {
                        let s = #[trigger] states@[i];
                        let prs = prs_k + dests_upto(b, ps, piece, dest as int)
                            .map_values(|d: u8| (piece, d));
                        &&& s.wf()
                        &&& s.board == self.board
                        &&& s.turn == self.turn + 1
                        &&& s.pieces@ == moved_pieces(b, tn, ps, prs[i].0, prs[i].1)
                    },
                    record_actions ==> actions@.len() == states@.len()
                        && forall|i: int| 0 <= i < actions@.len() ==> {
                            let prs = prs_k + dests_upto(b, ps, piece, dest as int)
                                .map_values(|d: u8| (piece, d));
                            &&& (#[trigger] actions@[i]).from == prs[i].0
                            &&& actions@[i].to == prs[i].1
                            &&& reach_map_ok(b, ps, prs[i].0, actions@[i].path@)
                        },
                    !record_actions ==> actions@.len() == 0,
                decreases bs - dest,
            {
                let ghost old_dests = dests_upto(b, ps, piece, dest as int);
                let ghost new_dests = dests_upto(b, ps, piece, dest + 1);
                if paths[dest] != INVALID_POSITION && dest as u8 != piece {
                    proof {
                        assert(cell_reached(b, ps, piece, dest as u8));
                        assert(is_dest(b, ps, piece, dest as int));
                        assert(new_dests == old_dests.push(dest as u8));
                        lemma_reached_empty(b, ps, piece, dest as u8);
                        assert(self.moving_half().contains(piece)) by {
                            assert(self.moving_half() == half);
                            assert(half[k as int] == piece);
                        }
                        assert(self.turn < usize::MAX);
                    }
                    let s = self.move_to(piece, dest as u8);
                    proof {
                        let ghost oldh = if tn % 2 == 0 { self.p1_half() }
                            else { self.p2_half() };
                        let ghost newh = if tn % 2 == 0 { s.p1_half() }
                            else { s.p2_half() };
                        assert(half_replaced(oldh, newh, piece, dest as u8));
                        assert(!oldh.contains(dest as u8)) by {
                            if oldh.contains(dest as u8) {
                                if tn % 2 == 0 {
                                    lemma_subrange_contains(ps, 0,
                                        b.n_pieces as int, dest as u8);
                                } else {
                                    lemma_subrange_contains(ps, b.n_pieces as int,
                                        ps.len() as int, dest as u8);
                                }
                            }
                        }
                        lemma_half_replaced_unique(oldh, newh, piece, dest as u8);
                        assert(newh == moved_half(oldh, piece, dest as u8));
                        assert(s.pieces@ =~= s.p1_half() + s.p2_half());
                        assert(s.pieces@ == moved_pieces(b, tn, ps, piece, dest as u8));
                    }
                    let ghost pre_states = states@;
                    states.push(s);
                    if record_actions {
                        let path_copy = copy_bytes(&paths);
                        actions.push(Action { from: piece, to: dest as u8, path: path_copy });
                    }
                    proof {
                        let prs_new = prs_k + new_dests.map_values(|d: u8| (piece, d));
                        let prs_old = prs_k + old_dests.map_values(|d: u8| (piece, d));
                        assert(new_dests.map_values(|d: u8| (piece, d))
                            =~= old_dests.map_values(|d: u8| (piece, d))
                                .push((piece, dest as u8)));
                        assert(prs_new =~= prs_old.push((piece, dest as u8)));
                        assert forall|i: int| 0 <= i < states@.len() implies {
                            let s2 = #[trigger] states@[i];
                            &&& s2.wf()
                            &&& s2.board == self.board
                            &&& s2.turn == self.turn + 1
                            &&& s2.pieces@ == moved_pieces(b, tn, ps, prs_new[i].0,
                                prs_new[i].1)
                        } by {
                            if i < pre_states.len() {
                                assert(states@[i] == pre_states[i]);
                                assert(prs_new[i] == prs_old[i]);
                            } else {
                                assert(states@[i] == s);
                                assert(prs_new[i] == (piece, dest as u8));
                            }
                        };
                    }
                } else {
                    proof {
                        assert(new_dests == old_dests) by {
                            if paths[dest as int] == INVALID_POSITION {
                                assert(!cell_reached(b, ps, piece, dest as u8));
                            }
                        }
                    }
                }
                dest = dest + 1;
            }
            proof {
                assert(dests_upto(b, ps, piece, bs as int) == dests_for(b, ps, piece));
                assert(pairs_upto(b, tn, ps, k + 1)
                    == pairs_upto(b, tn, ps, k as int)
                        + dests_for(b, ps, piece).map_values(|d: u8| (piece, d)));
            }
            k = k + 1;
        }
        proof {
            assert(pairs_upto(b, tn, ps, (hi - lo) as int) == pairs_spec(b, tn, ps));
        }
        if states.len() == 0 {
            return (states, actions);
        }
        (states, actions)
    }

    /// The outcome at this position: unfinished while moves remain, else
    /// decided by the distance sums, ties at the forced end going to
    /// player 2.
    pub fn status(&self) -> (r: Status)
        requires
            self.wf(),
        ensures
            r == status_spec(*self.board, self.turn as nat, self.pieces@),
    {
        let bref: &Board = &*self.board;
        let (states, _actions) = self.expand(false);
        if states.len() > 0 {
            proof {
                if terminal_spec(*bref, self.turn as nat, self.pieces@) {
                    assert(false);
                }
            }
            return Status::Unfinished;
        }
        proof {
            if !terminal_spec(*bref, self.turn as nat, self.pieces@) {
                assert(pairs_spec(*bref, self.turn as nat, self.pieces@).len()
                    == states@.len());
            }
        }
        let d1 = self.p1_distance();
        let d2 = self.p2_distance();
        if d1 < d2 {
            Status::P1Win
        } else if d2 < d1 {
            Status::P2Win
        } else if self.turn > self.board.turn_limit {
            Status::P2Win
        } else {
            Status::Tie
        }
    }


    /// An equal position value of its own: same board, same turn, same
    /// piece list.
    pub fn duplicate(&self) -> (g: Game)
        ensures
            g.board == self.board,
            g.turn == self.turn,
            g.pieces@ == self.pieces@,
    {
        Game {
            board: Rc::clone(&self.board),
            turn: self.turn,
            pieces: copy_bytes(&self.pieces),
        }
    }

    /// The value-table key: the piece bytes alone.  The turn is left out
    /// on purpose, so that positions reached by transposition share their
    /// statistics.
    pub fn table_key(&self) -> (r: Vec<u8>)
        ensures
            r@ == self.pieces@,
    {
        copy_bytes(&self.pieces)
    }

    /// The score-map key: one turn byte, then the piece list.
    pub fn key(&self) -> (r: Vec<u8>)
        ensures
            r@ == seq![(self.turn % 256) as u8] + self.pieces@,
    {
        let mut r: Vec<u8> = Vec::new();
        r.push((self.turn % 256) as u8);
        let mut i: usize = 0;
        while i < self.pieces.len()
            invariant
                i <= self.pieces@.len(),
                r@ == seq![((self.turn % 256) as u8)] + self.pieces@.take(i as int),
            decreases self.pieces@.len() - i,
        {
            r.push(self.pieces[i]);
            assert(r@ =~= seq![((self.turn % 256) as u8)] + self.pieces@.take(i + 1));
            i = i + 1;
        }
        assert(self.pieces@.take(i as int) =~= self.pieces@);
        r
    }

    /// Rebuilds a game from a key, borrowing the board from `proto`.
    pub fn from_key(proto: &Game, key: &[u8]) -> (g: Game)
        requires
            key@.len() >= 1,
        ensures
            g.board == proto.board,
            g.turn == key@[0],
            g.pieces@ == key@.skip(1),
    {
        let board = Rc::clone(&proto.board);
        let turn = key[0] as usize;
        let pieces_slice = &key[1..key.len()];
        let mut pieces: Vec<u8> = Vec::new();
        let mut i: usize = 0;
        while i < pieces_slice.len()
            invariant
                i <= pieces_slice@.len(),
                pieces@ == pieces_slice@.take(i as int),
            decreases pieces_slice@.len() - i,
        {
            pieces.push(pieces_slice[i]);
            assert(pieces@ =~= pieces_slice@.take(i + 1));
            i = i + 1;
        }
        assert(pieces_slice@.take(i as int) =~= pieces_slice@);
        assert(pieces_slice@ =~= key@.skip(1));
        Game { board, turn, pieces }
    }

    /// The same board and turn with a different piece list.
    pub fn clone_with_pieces(&self, pieces: &[u8]) -> (g: Game)
        ensures
            g.board == self.board,
            g.turn == self.turn,
            g.pieces@ == pieces@,
    {
        let board = Rc::clone(&self.board);
        let mut np: Vec<u8> = Vec::new();
        let mut i: usize = 0;
        while i < pieces.len()
            invariant
                i <= pieces@.len(),
                np@ == pieces@.take(i as int),
            decreases pieces@.len() - i,
        {
            np.push(pieces[i]);
            assert(np@ =~= pieces@.take(i + 1));
            i = i + 1;
        }
        assert(pieces@.take(i as int) =~= pieces@);
        Game { board, turn: self.turn, pieces: np }
    }
}

} // verus!
