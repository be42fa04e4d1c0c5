//! The jump/hop reachability kernel: for one piece, the map from every cell
//! to its predecessor on a valid route, or the sentinel when unreachable.
use vstd::prelude::*;
use crate::INVALID_POSITION;
use crate::game::Game;
use crate::board::Board;
use vstd::set_lib::{set_int_range, lemma_int_range, lemma_len_subset};

verus! {

/// A cell that blocks the walk: occupied by any piece other than the moving
/// one (the moving piece's own cell counts as empty).
pub open spec fn occ(pieces: Seq<u8>, origin: u8, c: u8) -> bool {
    c != origin && pieces.contains(c)
}

/// The scan outward from `cur` along `dir`, as the rules state it: empty
/// cells are counted until the pivot, then the same count of empty cells
/// must follow before the landing; a second obstacle or the rim stops the
/// scan.  `fuel` bounds the walk; a straight line on a board revisits no
/// cell, so `board_size` steps always suffice.
pub open spec fn walk(
    b: Board,
    pieces: Seq<u8>,
    origin: u8,
    cur: u8,
    dir: int,
    steps: nat,
    hopping: bool,
    fuel: nat,
) -> Option<u8>
    decreases fuel,
{
    if fuel == 0 {
        None
    } else {
        let next = b.adj_of(cur as int, dir);
        if next == INVALID_POSITION {
            None
        } else if occ(pieces, origin, next) {
            if hopping {
                None
            } else {
                walk(b, pieces, origin, next, dir, steps, true, (fuel - 1) as nat)
            }
        } else if hopping && steps == 0 {
            Some(next)
        } else if hopping {
            walk(b, pieces, origin, next, dir, (steps - 1) as nat, true, (fuel - 1) as nat)
        } else {
            walk(b, pieces, origin, next, dir, (steps + 1) as nat, false, (fuel - 1) as nat)
        }
    }
}

/// Where a jump from `pos` in direction `dir` lands, if anywhere.
pub open spec fn jump_landing(b: Board, pieces: Seq<u8>, origin: u8, pos: u8, dir: int) -> Option<u8> {
    walk(b, pieces, origin, pos, dir, 0, false, b.board_size as nat)
}

/// A single slide: an empty cell adjacent to the origin.
pub open spec fn slide_ok(b: Board, pieces: Seq<u8>, origin: u8, c: u8) -> bool {
    exists|dir: int|
        0 <= dir < 6 && #[trigger] b.adj_of(origin as int, dir) == c
            && !pieces.contains(c)
}

/// One jump: some direction's landing from `a` is `b`.
pub open spec fn jump_edge(b: Board, pieces: Seq<u8>, origin: u8, x: u8, y: u8) -> bool {
    exists|dir: int|
        0 <= dir < 6 && #[trigger] jump_landing(b, pieces, origin, x, dir) == Some(y)
}

/// A chain of jumps starting at the origin.
pub open spec fn is_jump_chain(b: Board, pieces: Seq<u8>, origin: u8, chain: Seq<u8>) -> bool {
    &&& chain.len() >= 1
    &&& chain[0] == origin
    &&& forall|i: int| 0 <= i < chain.len() - 1
        ==> #[trigger] jump_edge(b, pieces, origin, chain[i], chain[i + 1])
}

/// A cell that some chain of jumps reaches from the origin.
pub open spec fn jump_reachable(b: Board, pieces: Seq<u8>, origin: u8, c: u8) -> bool {
    exists|chain: Seq<u8>|
        #[trigger] is_jump_chain(b, pieces, origin, chain) && chain.last() == c
}

/// A cell the moving piece may end its move on (including the origin
/// itself, which carries its own mark in the map).
pub open spec fn cell_reached(b: Board, pieces: Seq<u8>, origin: u8, c: u8) -> bool {
    c == origin || jump_reachable(b, pieces, origin, c) || slide_ok(b, pieces, origin, c)
}

/// Following predecessors from `c` arrives at the origin within `fuel`
/// steps.
pub open spec fn pred_chain_reaches(r: Seq<u8>, origin: u8, c: u8, fuel: nat) -> bool
    decreases fuel,
{
    if c == origin {
        true
    } else if fuel == 0 {
        false
    } else if !(c < r.len()) {
        false
    } else if r[c as int] == INVALID_POSITION {
        false
    } else {
        pred_chain_reaches(r, origin, r[c as int], (fuel - 1) as nat)
    }
}

/// A marked non-slide cell records a jump: its predecessor is marked and
/// some direction's landing from it is the cell itself.
pub open spec fn jump_mark_ok(b: Board, pieces: Seq<u8>, origin: u8, r: Seq<u8>, c: int) -> bool {
    &&& (r[c] as int) < r.len()
    &&& r[r[c] as int] != INVALID_POSITION
    &&& exists|dir: int|
        0 <= dir < 6
            && #[trigger] jump_landing(b, pieces, origin, r[c], dir) == Some(c as u8)
}

/// What `possible_moves_with_path` returns: the marked cells are exactly
/// those the rules allow, a slide's mark points at the origin, every other
/// mark records a jump from its predecessor, and every predecessor chain
/// walks back to the origin in at most `board_size` steps.
pub open spec fn reach_map_ok(b: Board, pieces: Seq<u8>, origin: u8, r: Seq<u8>) -> bool {
    &&& r.len() == b.board_size
    &&& origin < r.len() && r[origin as int] == origin
    &&& (forall|c: int| 0 <= c < r.len()
        ==> (r[c] != INVALID_POSITION <==> cell_reached(b, pieces, origin, c as u8)))
    &&& (forall|c: int| 0 <= c < r.len() && slide_ok(b, pieces, origin, c as u8)
        ==> r[c] == origin)
    &&& (forall|c: int| 0 <= c < r.len() && r[c] != INVALID_POSITION && c != origin
            && !slide_ok(b, pieces, origin, c as u8)
        ==> #[trigger] jump_mark_ok(b, pieces, origin, r, c))
    &&& (forall|c: int| 0 <= c < r.len() && r[c] != INVALID_POSITION
        ==> pred_chain_reaches(r, origin, c as u8, r.len() as nat))
}

/// The indices that carry a mark.
pub open spec fn marked_set(r: Seq<u8>) -> Set<int> {
    Set::new(|c: int| 0 <= c < r.len() && r[c] != INVALID_POSITION)
}


/// A reachable cell other than the origin is never occupied: a slide goes
/// to an empty neighbour and a jump lands on an empty cell.
pub proof fn lemma_reached_empty(b: Board, pieces: Seq<u8>, origin: u8, c: u8)
    requires
        b.wf(),
        (origin as int) < b.board_size,
        cell_reached(b, pieces, origin, c),
        c != origin,
        c != INVALID_POSITION,
    ensures
        (c as int) < b.board_size,
        !pieces.contains(c),
{
    if slide_ok(b, pieces, origin, c) {
        let dir = choose|dir: int|
            0 <= dir < 6 && #[trigger] b.adj_of(origin as int, dir) == c
                && !pieces.contains(c);
        assert(6 * origin + dir < b.adj@.len());
    } else {
        let chain = choose|chain: Seq<u8>|
            #[trigger] is_jump_chain(b, pieces, origin, chain) && chain.last() == c;
        lemma_chain_last_empty(b, pieces, origin, chain);
    }
}

/// The last cell of a jump chain is on the board and, unless it is the
/// origin, empty.
pub proof fn lemma_chain_last_empty(b: Board, pieces: Seq<u8>, origin: u8, chain: Seq<u8>)
    requires
        b.wf(),
        (origin as int) < b.board_size,
        is_jump_chain(b, pieces, origin, chain),
    ensures
        (chain.last() as int) < b.board_size,
        chain.last() != origin ==> !pieces.contains(chain.last()),
    decreases chain.len(),
{
    if chain.len() == 1 {
        assert(chain.last() == origin);
    } else {
        let front = chain.drop_last();
        assert(is_jump_chain(b, pieces, origin, front)) by {
            assert(front[0] == chain[0]);
            assert forall|i: int| 0 <= i < front.len() - 1
                implies #[trigger] jump_edge(b, pieces, origin, front[i], front[i + 1]) by {
                assert(front[i] == chain[i] && front[i + 1] == chain[i + 1]);
                assert(jump_edge(b, pieces, origin, chain[i], chain[i + 1]));
            };
        }
        lemma_chain_last_empty(b, pieces, origin, front);
        let n = chain.len() - 2;
        assert(front.last() == chain[n]);
        assert(jump_edge(b, pieces, origin, chain[n], chain[n + 1]));
        let dd = choose|dd: int|
            0 <= dd < 6 && #[trigger] jump_landing(b, pieces, origin, chain[n], dd)
                == Some(chain[n + 1]);
        lemma_walk_landing(b, pieces, origin, chain[n], dd, 0, false,
            b.board_size as nat, chain[n + 1]);
        assert(!occ(pieces, origin, chain.last()));
    }
}

/// A landing is always an empty cell on the board.
pub proof fn lemma_walk_landing(
    b: Board,
    pieces: Seq<u8>,
    origin: u8,
    cur: u8,
    dir: int,
    steps: nat,
    hopping: bool,
    fuel: nat,
    c: u8,
)
    requires
        b.wf(),
        (cur as int) < b.board_size,
        0 <= dir < 6,
        walk(b, pieces, origin, cur, dir, steps, hopping, fuel) == Some(c),
    ensures
        (c as int) < b.board_size,
        !occ(pieces, origin, c),
    decreases fuel,
{
    let next = b.adj_of(cur as int, dir);
    assert(6 * cur + dir < b.adj@.len());
    if next != INVALID_POSITION && !(occ(pieces, origin, next) && hopping)
        && !(!occ(pieces, origin, next) && hopping && steps == 0) {
        if occ(pieces, origin, next) {
            lemma_walk_landing(b, pieces, origin, next, dir, steps, true,
                (fuel - 1) as nat, c);
        } else if hopping {
            lemma_walk_landing(b, pieces, origin, next, dir, (steps - 1) as nat, true,
                (fuel - 1) as nat, c);
        } else {
            lemma_walk_landing(b, pieces, origin, next, dir, (steps + 1) as nat, false,
                (fuel - 1) as nat, c);
        }
    }
}

/// More fuel never hurts a predecessor chain.
pub proof fn lemma_pred_chain_mono(r: Seq<u8>, origin: u8, c: u8, f1: nat, f2: nat)
    requires
        pred_chain_reaches(r, origin, c, f1),
        f1 <= f2,
    ensures
        pred_chain_reaches(r, origin, c, f2),
    decreases f1,
{
    if c != origin {
        lemma_pred_chain_mono(r, origin, r[c as int], (f1 - 1) as nat, (f2 - 1) as nat);
    }
}

/// A predecessor chain survives marking fresh cells: any map that agrees on
/// the already-marked cells carries the same chain.
pub proof fn lemma_pred_chain_agree(r1: Seq<u8>, r2: Seq<u8>, origin: u8, c: u8, fuel: nat)
    requires
        pred_chain_reaches(r1, origin, c, fuel),
        r1.len() == r2.len(),
        forall|x: int| 0 <= x < r1.len() && r1[x] != INVALID_POSITION ==> r2[x] == r1[x],
    ensures
        pred_chain_reaches(r2, origin, c, fuel),
    decreases fuel,
{
    if c != origin {
        lemma_pred_chain_agree(r1, r2, origin, r1[c as int], (fuel - 1) as nat);
    }
}

/// Redirecting one cell's predecessor straight to the origin breaks no
/// chain.
pub proof fn lemma_pred_chain_redirect(r: Seq<u8>, origin: u8, c: int, x: u8, fuel: nat)
    requires
        pred_chain_reaches(r, origin, x, fuel),
        0 <= c < r.len(),
        origin != INVALID_POSITION,
    ensures
        pred_chain_reaches(r.update(c, origin), origin, x, fuel),
    decreases fuel,
{
    let r2 = r.update(c, origin);
    if x != origin {
        if x == c {
            assert(r2[x as int] == origin);
            assert(pred_chain_reaches(r2, origin, origin, (fuel - 1) as nat));
        } else {
            assert(r2[x as int] == r[x as int]);
            lemma_pred_chain_redirect(r, origin, c, r[x as int], (fuel - 1) as nat);
        }
    }
}

/// A jump chain may be extended by one more landing.
pub proof fn lemma_jump_chain_extend(b: Board, pieces: Seq<u8>, origin: u8, pos: u8, dir: int, d: u8)
    requires
        jump_reachable(b, pieces, origin, pos),
        0 <= dir < 6,
        jump_landing(b, pieces, origin, pos, dir) == Some(d),
    ensures
        jump_reachable(b, pieces, origin, d),
{
    let chain = choose|chain: Seq<u8>|
        #[trigger] is_jump_chain(b, pieces, origin, chain) && chain.last() == pos;
    let chain2 = chain.push(d);
    assert(is_jump_chain(b, pieces, origin, chain2)) by {
        assert(chain2[0] == chain[0]);
        assert forall|i: int| 0 <= i < chain2.len() - 1
            implies #[trigger] jump_edge(b, pieces, origin, chain2[i], chain2[i + 1]) by {
            if i < chain.len() - 1 {
                assert(chain2[i] == chain[i] && chain2[i + 1] == chain[i + 1]);
            } else {
                assert(chain2[i] == pos && chain2[i + 1] == d);
                assert(jump_landing(b, pieces, origin, chain2[i], dir)
                    == Some(chain2[i + 1]));
            }
        };
    }
    assert(chain2.last() == d);
}

/// The origin reaches itself by the one-cell chain.
pub proof fn lemma_jump_reachable_origin(b: Board, pieces: Seq<u8>, origin: u8)
    ensures
        jump_reachable(b, pieces, origin, origin),
{
    let chain = seq![origin];
    assert(is_jump_chain(b, pieces, origin, chain));
    assert(chain.last() == origin);
}

/// Every cell a jump chain reaches carries a mark in a map that is closed
/// under single jumps.
pub proof fn lemma_chain_marked(b: Board, pieces: Seq<u8>, origin: u8, r: Seq<u8>, chain: Seq<u8>)
    requires
        b.wf(),
        is_jump_chain(b, pieces, origin, chain),
        r.len() == b.board_size,
        origin < r.len(),
        r[origin as int] != INVALID_POSITION,
        forall|c: u8, dir: int|
            (c as int) < r.len() && r[c as int] != INVALID_POSITION && 0 <= dir < 6
                && (#[trigger] jump_landing(b, pieces, origin, c, dir)).is_some()
            ==> {
                let d = jump_landing(b, pieces, origin, c, dir).unwrap();
                (d as int) < r.len() && r[d as int] != INVALID_POSITION
            },
    ensures
        (chain.last() as int) < r.len(),
        r[chain.last() as int] != INVALID_POSITION,
    decreases chain.len(),
{
    if chain.len() == 1 {
        assert(chain.last() == origin);
    } else {
        let front = chain.drop_last();
        assert(is_jump_chain(b, pieces, origin, front)) by {
            assert(front[0] == chain[0]);
            assert forall|i: int| 0 <= i < front.len() - 1
                implies #[trigger] jump_edge(b, pieces, origin, front[i], front[i + 1]) by {
                assert(front[i] == chain[i] && front[i + 1] == chain[i + 1]);
                assert(jump_edge(b, pieces, origin, chain[i], chain[i + 1]));
            };
        }
        lemma_chain_marked(b, pieces, origin, r, front);
        let n = chain.len() - 2;
        assert(jump_edge(b, pieces, origin, chain[n], chain[n + 1]));
        let dd = choose|dd: int|
            0 <= dd < 6 && #[trigger] jump_landing(b, pieces, origin, chain[n], dd)
                == Some(chain[n + 1]);
        assert(front.last() == chain[n]);
        assert((chain[n] as int) < r.len());
        assert(r[chain[n] as int] != INVALID_POSITION);
        lemma_walk_landing(b, pieces, origin, chain[n], dd, 0, false,
            b.board_size as nat, chain[n + 1]);
        assert(jump_landing(b, pieces, origin, chain[n], dd).is_some());
    }
}


/// The marks form a finite set no larger than the board.
pub proof fn lemma_marked_card(r: Seq<u8>)
    ensures
        marked_set(r).finite(),
        marked_set(r).len() <= r.len(),
{
    lemma_int_range(0, r.len() as int);
    lemma_len_subset(marked_set(r), set_int_range(0, r.len() as int));
}

/// Marking one fresh cell grows the mark set by exactly one.
pub proof fn lemma_mark_increases(r: Seq<u8>, c: int, v: u8)
    requires
        0 <= c < r.len(),
        r[c] == INVALID_POSITION,
        v != INVALID_POSITION,
    ensures
        marked_set(r.update(c, v)) == marked_set(r).insert(c),
        marked_set(r.update(c, v)).len() == marked_set(r).len() + 1,
{
    assert(marked_set(r.update(c, v)) =~= marked_set(r).insert(c));
    lemma_marked_card(r);
    assert(!marked_set(r).contains(c));
    vstd::set::axiom_set_insert_len(marked_set(r), c);
}

impl Board {
    /// The neighbour of `cell` in direction `dir`.
    pub fn adjacent(&self, cell: u8, dir: usize) -> (r: u8)
        requires
            self.wf(),
            (cell as int) < self.board_size,
            dir < 6,
        ensures
            r == self.adj_of(cell as int, dir as int),
            r != INVALID_POSITION ==> (r as int) < self.board_size,
    {
        let idx = 6 * (cell as usize) + dir;
        self.adj[idx]
    }
}

/// Walks outward from `pos` along `dir` and returns the landing cell of a
/// jump, if the rules allow one.
fn scan_direction(g: &Game, origin: u8, pos: u8, dir: usize) -> (r: Option<u8>)
    requires
        g.wf(),
        (pos as int) < g.board.board_size,
        dir < 6,
    ensures
        r == jump_landing(*g.board, g.pieces@, origin, pos, dir as int),
{
    let bs = g.board.board_size;
    let mut cur = pos;
    let mut steps: usize = 0;
    let mut hopping = false;
    let mut fuel: usize = bs;
    loop
        invariant
            g.wf(),
            bs == g.board.board_size,
            (cur as int) < bs,
            dir < 6,
            fuel <= bs,
            steps <= bs - fuel,
            jump_landing(*g.board, g.pieces@, origin, pos, dir as int)
                == walk(*g.board, g.pieces@, origin, cur, dir as int, steps as nat, hopping, fuel as nat),
        decreases fuel,
    {
        if fuel == 0 {
            return None;
        }
        let next = g.board.adjacent(cur, dir);
        if next == INVALID_POSITION {
            return None;
        }
        let occupied = next != origin && g.has_piece(next);
        proof {
            assert(occupied == occ(g.pieces@, origin, next));
        }
        if occupied {
            if hopping {
                return None;
            }
            hopping = true;
        } else if hopping && steps == 0 {
            return Some(next);
        } else if hopping {
            steps = steps - 1;
        } else {
            steps = steps + 1;
        }
        cur = next;
        fuel = fuel - 1;
    }
}

impl Game {
    /// The predecessor map of every cell the piece on `piece` may move to:
    /// a breadth-first closure of the jump rule, then the single slides,
    /// which always win the tie for an adjacent cell.
    #[verifier::rlimit(100)]
    pub fn possible_moves_with_path(&self, piece: u8) -> (r: Vec<u8>)
        requires
            self.wf(),
            (piece as int) < self.board.board_size,
        ensures
            reach_map_ok(*self.board, self.pieces@, piece, r@),
    {
        let bref: &Board = &*self.board;
        let bs = self.board.board_size;
        let mut r: Vec<u8> = vec![INVALID_POSITION; bs];
        r.set(piece as usize, piece);
        let mut queue: Vec<u8> = Vec::new();
        queue.push(piece);
        proof {
            lemma_jump_reachable_origin(*bref, self.pieces@, piece);
            lemma_marked_card(r@);
            assert(marked_set(r@).contains(piece as int));
            if marked_set(r@).len() == 0 {
                assert(false);
            }
            assert(pred_chain_reaches(r@, piece, piece, marked_set(r@).len() as nat));
            assert(queue@.contains(piece)) by {
                assert(queue@[0] == piece);
            }
        }
        while queue.len() > 0
            invariant
                self.wf(),
                *bref == *self.board,
                bs == self.board.board_size,
                (piece as int) < bs,
                r@.len() == bs,
                r@[piece as int] == piece,
                marked_set(r@).len() <= bs,
                forall|k: int| 0 <= k < queue@.len()
                    ==> (queue@[k] as int) < bs && r@[queue@[k] as int] != INVALID_POSITION,
                forall|c: int| 0 <= c < bs && r@[c] != INVALID_POSITION
                    ==> jump_reachable(*self.board, self.pieces@, piece, c as u8),
                forall|c: int| 0 <= c < bs && #[trigger] r@[c] != INVALID_POSITION
                        && c != piece
                    ==> (r@[c] as int) < bs && r@[r@[c] as int] != INVALID_POSITION
                        && jump_edge(*self.board, self.pieces@, piece, r@[c], c as u8),
                forall|c: u8, dir: int|
                    (c as int) < bs && r@[c as int] != INVALID_POSITION
                        && !queue@.contains(c) && 0 <= dir < 6
                        && (#[trigger] jump_landing(*self.board, self.pieces@, piece, c, dir)).is_some()
                    ==> {
                        let d = jump_landing(*self.board, self.pieces@, piece, c, dir).unwrap();
                        (d as int) < bs && r@[d as int] != INVALID_POSITION
                    },
                forall|c: int| 0 <= c < bs && r@[c] != INVALID_POSITION
                    ==> pred_chain_reaches(r@, piece, c as u8, marked_set(r@).len() as nat),
            decreases 7 * (bs - marked_set(r@).len()) + queue@.len(),
        {
            let ghost pre_queue = queue@;
            let pos = queue.pop().unwrap();
            assert(pre_queue[pre_queue.len() - 1] == pos);
            let ghost m0 = marked_set(r@).len();
            let ghost q0 = queue@.len();
            proof {
                assert forall|c: u8| #[trigger] pre_queue.contains(c) && c != pos
                    implies queue@.contains(c) by {
                    let k = choose|k: int| 0 <= k < pre_queue.len() && pre_queue[k] == c;
                    assert(k < pre_queue.len() - 1);
                    assert(queue@[k] == c);
                };
                assert forall|c: u8| #[trigger] queue@.contains(c)
                    implies pre_queue.contains(c) by {
                    let k = choose|k: int| 0 <= k < queue@.len() && queue@[k] == c;
                    assert(pre_queue[k] == c);
                };
            }
            let mut dir: usize = 0;
            while dir < 6
                invariant
                    self.wf(),
                    *bref == *self.board,
                    bs == self.board.board_size,
                    (piece as int) < bs,
                    (pos as int) < bs,
                    r@[pos as int] != INVALID_POSITION,
                    dir <= 6,
                    r@.len() == bs,
                    r@[piece as int] == piece,
                    marked_set(r@).len() <= bs,
                    forall|k: int| 0 <= k < queue@.len()
                        ==> (queue@[k] as int) < bs
                            && r@[queue@[k] as int] != INVALID_POSITION,
                    forall|c: int| 0 <= c < bs && r@[c] != INVALID_POSITION
                        ==> jump_reachable(*self.board, self.pieces@, piece, c as u8),
                    forall|c: int| 0 <= c < bs && #[trigger] r@[c] != INVALID_POSITION
                            && c != piece
                        ==> (r@[c] as int) < bs && r@[r@[c] as int] != INVALID_POSITION
                            && jump_edge(*self.board, self.pieces@, piece, r@[c], c as u8),
                    forall|c: u8, dd: int|
                        (c as int) < bs && r@[c as int] != INVALID_POSITION
                            && !queue@.contains(c) && c != pos && 0 <= dd < 6
                            && (#[trigger] jump_landing(*self.board, self.pieces@, piece, c, dd)).is_some()
                        ==> {
                            let d = jump_landing(*self.board, self.pieces@, piece, c, dd).unwrap();
                            (d as int) < bs && r@[d as int] != INVALID_POSITION
                        },
                    forall|dd: int|
                        0 <= dd < dir
                            && (#[trigger] jump_landing(*self.board, self.pieces@, piece, pos, dd)).is_some()
                        ==> {
                            let d = jump_landing(*self.board, self.pieces@, piece, pos, dd).unwrap();
                            (d as int) < bs && r@[d as int] != INVALID_POSITION
                        },
                    forall|c: int| 0 <= c < bs && r@[c] != INVALID_POSITION
                        ==> pred_chain_reaches(r@, piece, c as u8,
                            marked_set(r@).len() as nat),
                    marked_set(r@).len() >= m0,
                    queue@.len() + m0 == q0 + marked_set(r@).len(),
                decreases 6 - dir,
            {
                let landing_opt = scan_direction(self, piece, pos, dir);
                if let Some(d) = landing_opt {
                    proof {
                        lemma_walk_landing(*bref, self.pieces@, piece, pos, dir as int, 0, false,
                            bs as nat, d);
                    }
                    if r[d as usize] == INVALID_POSITION {
                        let ghost r_old = r@;
                        let ghost q_old = queue@;
                        let ghost count_old = marked_set(r@).len();
                        assert(pos != d);
                        r.set(d as usize, pos);
                        queue.push(d);
                        proof {
                            assert forall|c: u8| #[trigger] q_old.contains(c)
                                implies queue@.contains(c) by {
                                let k = choose|k: int|
                                    0 <= k < q_old.len() && q_old[k] == c;
                                assert(queue@[k] == c);
                            };
                            assert(queue@.contains(d)) by {
                                assert(queue@[queue@.len() - 1] == d);
                            }
                            assert forall|c: u8| #[trigger] queue@.contains(c)
                                implies q_old.contains(c) || c == d by {
                                let k = choose|k: int|
                                    0 <= k < queue@.len() && queue@[k] == c;
                                if k < q_old.len() {
                                    assert(q_old[k] == c);
                                }
                            };
                            lemma_mark_increases(r_old, d as int, pos);
                            assert forall|c: int|
                                0 <= c < bs && r@[c] != INVALID_POSITION && c != piece
                                implies (r@[c] as int) < bs
                                    && r@[r@[c] as int] != INVALID_POSITION
                                    && jump_edge(*self.board, self.pieces@, piece, r@[c], c as u8) by {
                                if c == d as int {
                                    assert(r@[c] == pos);
                                    assert(jump_landing(*self.board, self.pieces@, piece, pos, dir as int)
                                        == Some(d));
                                } else {
                                    assert(r@[c] == r_old[c]);
                                    assert(r_old[c] != INVALID_POSITION);
                                    assert((r_old[c] as int) < bs
                                        && r_old[r_old[c] as int] != INVALID_POSITION
                                        && jump_edge(*self.board, self.pieces@, piece, r_old[c], c as u8));
                                    assert(r_old[c] as int != d as int);
                                    assert(r@[r@[c] as int] == r_old[r_old[c] as int]);
                                }
                            };
                            lemma_marked_card(r@);
                            assert forall|c: int| 0 <= c < bs && r@[c] != INVALID_POSITION
                                implies jump_reachable(*self.board, self.pieces@, piece, c as u8) by {
                                if c == d as int {
                                    lemma_jump_chain_extend(*bref, self.pieces@, piece, pos,
                                        dir as int, d);
                                }
                            };
                            assert(jump_landing(*self.board, self.pieces@, piece, pos, dir as int)
                                == Some(d));
                            assert(jump_edge(*self.board, self.pieces@, piece, pos, d));
                            assert forall|c: int|
                                0 <= c < bs && r@[c] != INVALID_POSITION
                                implies pred_chain_reaches(r@, piece, c as u8,
                                    marked_set(r@).len() as nat) by {
                                if c == d as int {
                                    lemma_pred_chain_agree(r_old, r@, piece, pos,
                                        count_old as nat);
                                    assert(pred_chain_reaches(r@, piece, pos,
                                        count_old as nat));
                                    assert(r@[d as int] == pos);
                                } else {
                                    lemma_pred_chain_agree(r_old, r@, piece, c as u8,
                                        count_old as nat);
                                    lemma_pred_chain_mono(r@, piece, c as u8,
                                        count_old as nat, marked_set(r@).len() as nat);
                                }
                            };
                        }
                    }
                }
                dir = dir + 1;
            }
            proof {
                assert forall|c: u8, dd: int|
                    (c as int) < bs && r@[c as int] != INVALID_POSITION
                        && !queue@.contains(c) && 0 <= dd < 6
                        && (#[trigger] jump_landing(*self.board, self.pieces@, piece, c, dd)).is_some()
                    implies {
                        let d = jump_landing(*self.board, self.pieces@, piece, c, dd).unwrap();
                        (d as int) < bs && r@[d as int] != INVALID_POSITION
                    } by {
                    if c != pos {
                        assert((c as int) < bs && r@[c as int] != INVALID_POSITION
                            && !queue@.contains(c) && c != pos
                            && jump_landing(*self.board, self.pieces@, piece, c, dd).is_some());
                    }
                };
            }
        }
        let ghost r_bfs = r@;
        proof {
            lemma_marked_card(r_bfs);
            assert forall|c: int| 0 <= c < bs && r@[c] != INVALID_POSITION
                implies pred_chain_reaches(r@, piece, c as u8, bs as nat) by {
                lemma_pred_chain_mono(r@, piece, c as u8,
                    marked_set(r@).len() as nat, bs as nat);
            };
        }
        let mut dir: usize = 0;
        while dir < 6
            invariant
                self.wf(),
                *bref == *self.board,
                bs == self.board.board_size,
                (piece as int) < bs,
                dir <= 6,
                r@.len() == bs,
                r_bfs.len() == bs,
                r@[piece as int] == piece,
                forall|c: int| 0 <= c < bs && r_bfs[c] != INVALID_POSITION
                    ==> r@[c] != INVALID_POSITION,
                forall|c: int| 0 <= c < bs && #[trigger] r_bfs[c] != INVALID_POSITION
                        && c != piece
                    ==> (r_bfs[c] as int) < bs
                        && r_bfs[r_bfs[c] as int] != INVALID_POSITION
                        && jump_edge(*self.board, self.pieces@, piece, r_bfs[c], c as u8),
                forall|c: int| 0 <= c < bs && r@[c] != INVALID_POSITION
                    ==> r_bfs[c] != INVALID_POSITION || slide_ok(*self.board, self.pieces@, piece, c as u8),
                forall|c: int| 0 <= c < bs && !slide_ok(*self.board, self.pieces@, piece, c as u8)
                    ==> r@[c] == r_bfs[c],
                forall|c: int| 0 <= c < bs && slide_ok(*self.board, self.pieces@, piece, c as u8)
                    ==> r@[c] == r_bfs[c] || r@[c] == piece,
                forall|dd: int| 0 <= dd < dir ==> {
                    let next = #[trigger] self.board.adj_of(piece as int, dd);
                    next == INVALID_POSITION || self.pieces@.contains(next)
                        || r@[next as int] == piece
                },
                forall|c: int| 0 <= c < bs && r@[c] != INVALID_POSITION
                    ==> pred_chain_reaches(r@, piece, c as u8, bs as nat),
            decreases 6 - dir,
        {
            let next = self.board.adjacent(piece, dir);
            if !(next == INVALID_POSITION || self.has_piece(next)) {
                let ghost r_old = r@;
                r.set(next as usize, piece);
                proof {
                    assert(slide_ok(*self.board, self.pieces@, piece, next)) by {
                        assert(self.board.adj_of(piece as int, dir as int) == next);
                    }
                    assert forall|c: int| 0 <= c < bs && r@[c] != INVALID_POSITION
                        implies pred_chain_reaches(r@, piece, c as u8, bs as nat) by {
                        if c == next as int {
                            assert(r@[c] == piece);
                            assert(bs >= 1);
                            if next != piece {
                                assert(pred_chain_reaches(r@, piece, piece,
                                    (bs - 1) as nat));
                            }
                        } else {
                            lemma_pred_chain_redirect(r_old, piece, next as int,
                                c as u8, bs as nat);
                        }
                    };
                }
            }
            dir = dir + 1;
        }
        proof {
            assert forall|c: int| 0 <= c < bs
                implies (r@[c] != INVALID_POSITION
                    <==> cell_reached(*self.board, self.pieces@, piece, c as u8)) by {
                if r@[c] != INVALID_POSITION {
                    if r_bfs[c] != INVALID_POSITION {
                        assert(jump_reachable(*self.board, self.pieces@, piece, c as u8));
                    } else {
                        assert(slide_ok(*self.board, self.pieces@, piece, c as u8));
                    }
                }
                if cell_reached(*self.board, self.pieces@, piece, c as u8) {
                    if c == piece as int {
                        assert(r@[c] != INVALID_POSITION);
                    } else if jump_reachable(*self.board, self.pieces@, piece, c as u8) {
                        let chain = choose|chain: Seq<u8>|
                            #[trigger] is_jump_chain(*self.board, self.pieces@, piece, chain)
                                && chain.last() == c as u8;
                        lemma_chain_marked(*bref, self.pieces@, piece, r_bfs, chain);
                        assert(r_bfs[c] != INVALID_POSITION);
                    } else {
                        assert(slide_ok(*self.board, self.pieces@, piece, c as u8));
                        let dd = choose|dd: int|
                            0 <= dd < 6
                                && #[trigger] self.board.adj_of(piece as int, dd)
                                    == c as u8
                                && !self.pieces@.contains(c as u8);
                        assert(r@[c] == piece);
                    }
                }
            };
            assert forall|c: int|
                0 <= c < r@.len() && r@[c] != INVALID_POSITION && c != piece
                    && !slide_ok(*self.board, self.pieces@, piece, c as u8)
                implies #[trigger] jump_mark_ok(*self.board, self.pieces@, piece, r@, c) by {
                assert(r@[c] == r_bfs[c]);
                assert((r_bfs[c] as int) < bs
                    && r_bfs[r_bfs[c] as int] != INVALID_POSITION
                    && jump_edge(*self.board, self.pieces@, piece, r_bfs[c], c as u8));
                let dir = choose|dir: int|
                    0 <= dir < 6 && #[trigger] jump_landing(*self.board, self.pieces@, piece, r_bfs[c], dir)
                        == Some(c as u8);
                assert(jump_landing(*self.board, self.pieces@, piece, r@[c], dir) == Some(c as u8));
            };
            assert forall|c: int| 0 <= c < bs && slide_ok(*self.board, self.pieces@, piece, c as u8)
                implies r@[c] == piece by {
                let dd = choose|dd: int|
                    0 <= dd < 6
                        && #[trigger] self.board.adj_of(piece as int, dd) == c as u8
                        && !self.pieces@.contains(c as u8);
            };
        }
        r
    }
}

} // verus!
