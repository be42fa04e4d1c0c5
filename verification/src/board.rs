//! Static description of one star-shaped board: adjacency, starting
//! arrangement, per-cell distance tables and the winning threshold.
use vstd::prelude::*;
use crate::INVALID_POSITION;

verus! {

/// Upper bound on a single cell's distance value; keeps distance sums far
/// away from any integer overflow.
pub const MAX_CELL_DISTANCE: u64 = 1000000;

/// Upper bound on a board's forced-end turn; keeps turn arithmetic trivially
/// within `usize`.
pub const MAX_TURN_LIMIT: usize = 1000000;

/// A board that games are played on.  `adj` is a flattened `board_size x 6`
/// table: entry `6 * cell + dir` is the neighbour of `cell` in direction
/// `dir`, or `INVALID_POSITION` at the rim.  The first half of `starting`
/// is player 1's base (sorted), the second half player 2's.
pub struct Board {
    pub n_pieces: usize,
    pub board_size: usize,
    pub turn_limit: usize,
    pub min_distance: u64,
    pub adj: Vec<u8>,
    pub p1_distance_map: Vec<u64>,
    pub p2_distance_map: Vec<u64>,
    pub starting: Vec<u8>,
}

/// Every consecutive pair is strictly increasing.
pub open spec fn sorted_adjacent(s: Seq<u8>) -> bool {
    forall|k: int| 0 <= k && k + 1 < s.len() ==> #[trigger] s[k] < s[k + 1]
}

/// Every pair of positions is strictly increasing.
pub open spec fn strictly_sorted(s: Seq<u8>) -> bool {
    forall|i: int, j: int| 0 <= i < j < s.len() ==> s[i] < s[j]
}

pub proof fn lemma_sorted_chain(s: Seq<u8>, i: int, j: int)
    requires
        sorted_adjacent(s),
        0 <= i < j < s.len(),
    ensures
        s[i] < s[j],
    decreases j - i,
{
    if i + 1 < j {
        lemma_sorted_chain(s, i, j - 1);
    }
}

pub proof fn lemma_adjacent_implies_sorted(s: Seq<u8>)
    requires
        sorted_adjacent(s),
    ensures
        strictly_sorted(s),
{
    assert forall|i: int, j: int| 0 <= i < j < s.len() implies s[i] < s[j] by {
        lemma_sorted_chain(s, i, j);
    }
}

/// No position occurs in both sequences.
pub open spec fn seqs_disjoint(a: Seq<u8>, b: Seq<u8>) -> bool {
    forall|i: int, j: int| 0 <= i < a.len() && 0 <= j < b.len() ==> a[i] != b[j]
}

/// All positions lie on a board with `board_size` cells.
pub open spec fn all_on_board(s: Seq<u8>, board_size: int) -> bool {
    forall|i: int| 0 <= i < s.len() ==> (s[i] as int) < board_size
}

/// Sum of the distance values of `pieces` under the table `map`.
pub open spec fn sum_dist(map: Seq<u64>, pieces: Seq<u8>) -> int
    decreases pieces.len(),
{
    if pieces.len() == 0 {
        0
    } else {
        sum_dist(map, pieces.drop_last()) + map[pieces.last() as int]
    }
}

pub proof fn lemma_sum_dist_bound(map: Seq<u64>, pieces: Seq<u8>)
    requires
        forall|i: int| 0 <= i < pieces.len() ==> (pieces[i] as int) < map.len(),
        forall|c: int| 0 <= c < map.len() ==> map[c] <= MAX_CELL_DISTANCE,
    ensures
        0 <= sum_dist(map, pieces) <= pieces.len() * MAX_CELL_DISTANCE,
    decreases pieces.len(),
{
    if pieces.len() > 0 {
        lemma_sum_dist_bound(map, pieces.drop_last());
        assert(pieces.len() * MAX_CELL_DISTANCE
            == (pieces.len() - 1) * MAX_CELL_DISTANCE + MAX_CELL_DISTANCE)
            by (nonlinear_arith);
    }
}

impl Board {
    /// The half of `starting` that belongs to player 1: their own base.
    pub open spec fn p1_base(self) -> Seq<u8> {
        self.starting@.take(self.n_pieces as int)
    }

    /// The half of `starting` that belongs to player 2: their own base.
    pub open spec fn p2_base(self) -> Seq<u8> {
        self.starting@.skip(self.n_pieces as int)
    }

    /// The neighbour table entry for `cell` in direction `dir`.
    pub open spec fn adj_of(self, cell: int, dir: int) -> u8 {
        self.adj@[6 * cell + dir]
    }

    /// Well-formedness of a board description.
    pub open spec fn wf(self) -> bool {
        &&& 1 <= self.n_pieces
        &&& 2 * self.n_pieces <= self.board_size
        &&& self.board_size <= 255
        &&& self.turn_limit <= MAX_TURN_LIMIT
        &&& self.adj.len() == 6 * self.board_size
        &&& (forall|i: int| 0 <= i < self.adj@.len()
            ==> self.adj@[i] == INVALID_POSITION || (self.adj@[i] as int) < self.board_size)
        &&& self.p1_distance_map.len() == self.board_size
        &&& self.p2_distance_map.len() == self.board_size
        &&& (forall|c: int| 0 <= c < self.board_size ==> self.p1_distance_map@[c] <= MAX_CELL_DISTANCE)
        &&& (forall|c: int| 0 <= c < self.board_size ==> self.p2_distance_map@[c] <= MAX_CELL_DISTANCE)
        &&& self.starting.len() == 2 * self.n_pieces
        &&& strictly_sorted(self.p1_base())
        &&& strictly_sorted(self.p2_base())
        &&& all_on_board(self.starting@, self.board_size as int)
        &&& seqs_disjoint(self.p1_base(), self.p2_base())
        &&& sum_dist(self.p1_distance_map@, self.p2_base()) == self.min_distance
        &&& sum_dist(self.p2_distance_map@, self.p1_base()) == self.min_distance
    }

    /// Checked constructor: accepts exactly the well-formed descriptions.
    pub fn new(
        n_pieces: usize,
        board_size: usize,
        turn_limit: usize,
        min_distance: u64,
        adj: Vec<u8>,
        p1_distance_map: Vec<u64>,
        p2_distance_map: Vec<u64>,
        starting: Vec<u8>,
    ) -> (r: Option<Board>)
        ensures
            match r {
                Some(b) => {
                    &&& b.wf()
                    &&& b.n_pieces == n_pieces
                    &&& b.board_size == board_size
                    &&& b.turn_limit == turn_limit
                    &&& b.min_distance == min_distance
                    &&& b.adj@ == adj@
                    &&& b.p1_distance_map@ == p1_distance_map@
                    &&& b.p2_distance_map@ == p2_distance_map@
                    &&& b.starting@ == starting@
                },
                None => !(Board {
                    n_pieces, board_size, turn_limit, min_distance,
                    adj, p1_distance_map, p2_distance_map, starting,
                }).wf(),
            },
    {
        let b = Board {
            n_pieces, board_size, turn_limit, min_distance,
            adj, p1_distance_map, p2_distance_map, starting,
        };
        if b.check_wf() {
            Some(b)
        } else {
            None
        }
    }

    /// Runtime check that decides `wf` exactly.
    #[verifier::rlimit(60)]
    fn check_wf(&self) -> (r: bool)
        ensures
            r == self.wf(),
    {
        if !(1 <= self.n_pieces
            && self.n_pieces <= 127
            && 2 * self.n_pieces <= self.board_size
            && self.board_size <= 255
            && self.turn_limit <= MAX_TURN_LIMIT
            && self.adj.len() == 6 * self.board_size
            && self.p1_distance_map.len() == self.board_size
            && self.p2_distance_map.len() == self.board_size
            && self.starting.len() == 2 * self.n_pieces)
        {
            return false;
        }
        if !check_cells_valid(&self.adj, self.board_size) {
            return false;
        }
        if !check_distances_bounded(&self.p1_distance_map)
            || !check_distances_bounded(&self.p2_distance_map)
        {
            return false;
        }
        let n = self.n_pieces;
        if !check_all_below(&self.starting, self.board_size) {
            return false;
        }
        if !check_half_sorted(&self.starting, 0, n) || !check_half_sorted(&self.starting, n, 2 * n) {
            return false;
        }
        proof {
            if sorted_adjacent(self.p1_base()) {
                lemma_adjacent_implies_sorted(self.p1_base());
            }
            if sorted_adjacent(self.p2_base()) {
                lemma_adjacent_implies_sorted(self.p2_base());
            }
        }
        if !check_halves_disjoint(&self.starting, n) {
            return false;
        }
        proof {
            lemma_sum_dist_bound(self.p1_distance_map@, self.p2_base());
            lemma_sum_dist_bound(self.p2_distance_map@, self.p1_base());
        }
        let s1 = sum_distances(&self.p1_distance_map, &self.starting, n, 2 * n);
        let s2 = sum_distances(&self.p2_distance_map, &self.starting, 0, n);
        s1 == self.min_distance && s2 == self.min_distance
    }
}

/// True iff every entry of `v` is a valid cell or the sentinel.
fn check_cells_valid(v: &Vec<u8>, board_size: usize) -> (r: bool)
    ensures
        r == forall|i: int| 0 <= i < v@.len()
            ==> v@[i] == INVALID_POSITION || (v@[i] as int) < board_size,
{
    let mut i: usize = 0;
    while i < v.len()
        invariant
            i <= v@.len(),
            forall|k: int| 0 <= k < i
                ==> v@[k] == INVALID_POSITION || (v@[k] as int) < board_size,
        decreases v@.len() - i,
    {
        let x = v[i];
        if !(x == INVALID_POSITION || (x as usize) < board_size) {
            return false;
        }
        i = i + 1;
    }
    true
}

/// True iff every distance value is at most `MAX_CELL_DISTANCE`.
fn check_distances_bounded(v: &Vec<u64>) -> (r: bool)
    ensures
        r == forall|c: int| 0 <= c < v@.len() ==> v@[c] <= MAX_CELL_DISTANCE,
{
    let mut i: usize = 0;
    while i < v.len()
        invariant
            i <= v@.len(),
            forall|k: int| 0 <= k < i ==> v@[k] <= MAX_CELL_DISTANCE,
        decreases v@.len() - i,
    {
        if v[i] > MAX_CELL_DISTANCE {
            return false;
        }
        i = i + 1;
    }
    true
}

/// True iff every entry of `v` is below `board_size`.
fn check_all_below(v: &Vec<u8>, board_size: usize) -> (r: bool)
    ensures
        r == all_on_board(v@, board_size as int),
{
    let mut i: usize = 0;
    while i < v.len()
        invariant
            i <= v@.len(),
            forall|k: int| 0 <= k < i ==> (v@[k] as int) < board_size,
        decreases v@.len() - i,
    {
        if !((v[i] as usize) < board_size) {
            return false;
        }
        i = i + 1;
    }
    true
}

/// True iff `v[lo..hi]` is strictly increasing between neighbours.
fn check_half_sorted(v: &Vec<u8>, lo: usize, hi: usize) -> (r: bool)
    requires
        lo <= hi <= v@.len(),
    ensures
        r == sorted_adjacent(v@.subrange(lo as int, hi as int)),
{
    let ghost half = v@.subrange(lo as int, hi as int);
    if hi - lo < 2 {
        return true;
    }
    let mut i: usize = lo;
    while i + 1 < hi
        invariant
            lo <= i,
            i + 1 <= hi,
            hi <= v@.len(),
            half == v@.subrange(lo as int, hi as int),
            forall|k: int| 0 <= k < i - lo ==> #[trigger] half[k] < half[k + 1],
        decreases hi - i,
    {
        if !(v[i] < v[i + 1]) {
            assert(half[i - lo] == v@[i as int] && half[i - lo + 1] == v@[i + 1]);
            return false;
        }
        i = i + 1;
    }
    true
}

/// True iff `v[0..n]` and `v[n..]` share no position.
fn check_halves_disjoint(v: &Vec<u8>, n: usize) -> (r: bool)
    requires
        n <= v@.len(),
    ensures
        r == seqs_disjoint(v@.subrange(0, n as int), v@.subrange(n as int, v@.len() as int)),
{
    let ghost a = v@.subrange(0, n as int);
    let ghost b = v@.subrange(n as int, v@.len() as int);
    let mut i: usize = 0;
    while i < n
        invariant
            i <= n <= v@.len(),
            a == v@.subrange(0, n as int),
            b == v@.subrange(n as int, v@.len() as int),
            forall|p: int, q: int| 0 <= p < i && 0 <= q < b.len() ==> a[p] != b[q],
        decreases n - i,
    {
        let mut j: usize = n;
        while j < v.len()
            invariant
                i < n <= j <= v@.len(),
                a == v@.subrange(0, n as int),
                b == v@.subrange(n as int, v@.len() as int),
                forall|q: int| 0 <= q < j - n ==> a[i as int] != b[q],
            decreases v@.len() - j,
        {
            if v[i] == v[j] {
                assert(a[i as int] == v@[i as int] && b[j - n] == v@[j as int]);
                return false;
            }
            j = j + 1;
        }
        i = i + 1;
    }
    true
}

/// Sum of `map` over the positions `v[lo..hi]`; the bound on single values
/// keeps the sum well inside `u64`.
pub fn sum_distances(map: &Vec<u64>, v: &Vec<u8>, lo: usize, hi: usize) -> (r: u64)
    requires
        lo <= hi <= v@.len(),
        forall|i: int| lo <= i < hi ==> (v@[i] as int) < map@.len(),
        forall|c: int| 0 <= c < map@.len() ==> map@[c] <= MAX_CELL_DISTANCE,
        (hi - lo) * MAX_CELL_DISTANCE < u64::MAX,
    ensures
        r == sum_dist(map@, v@.subrange(lo as int, hi as int)),
{
    let ghost full = v@.subrange(lo as int, hi as int);
    let mut acc: u64 = 0;
    let mut i: usize = lo;
    while i < hi
        invariant
            lo <= i <= hi <= v@.len(),
            full == v@.subrange(lo as int, hi as int),
            forall|k: int| lo <= k < hi ==> (v@[k] as int) < map@.len(),
            forall|c: int| 0 <= c < map@.len() ==> map@[c] <= MAX_CELL_DISTANCE,
            (hi - lo) * MAX_CELL_DISTANCE < u64::MAX,
            acc == sum_dist(map@, v@.subrange(lo as int, i as int)),
            acc <= (i - lo) * MAX_CELL_DISTANCE,
        decreases hi - i,
    {
        let ghost pre = v@.subrange(lo as int, i as int);
        let ghost post = v@.subrange(lo as int, i + 1);
        proof {
            assert(post.drop_last() =~= pre);
            assert(post.last() == v@[i as int]);
            assert((i - lo) * MAX_CELL_DISTANCE + MAX_CELL_DISTANCE
                == (i + 1 - lo) * MAX_CELL_DISTANCE) by (nonlinear_arith);
            assert((i + 1 - lo) * MAX_CELL_DISTANCE <= (hi - lo) * MAX_CELL_DISTANCE)
                by (nonlinear_arith)
                requires i + 1 <= hi, MAX_CELL_DISTANCE > 0;
        }
        acc = acc + map[v[i] as usize];
        i = i + 1;
    }
    assert(v@.subrange(lo as int, i as int) == full);
    acc
}

} // verus!
