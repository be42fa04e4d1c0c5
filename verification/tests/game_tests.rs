use cc0::board::Board;
use cc0::boards::small_board;
use cc0::game::{Game, Status};
use cc0::INVALID_POSITION;

fn small_game() -> Game {
    Game::new(small_board())
}

#[test]
fn game_test_1() {
    let mut game = small_game();
    game.p1_pieces_slice_mut(&[3, 4, 5, 9, 10, 11]);
    let possible_moves = game.possible_moves_with_path(4);
    println!("{:?}", possible_moves);
}

#[test]
fn reach_includes_adjacent_slides() {
    // From the starting position, piece 4's empty neighbours 10 and 11 are
    // single slides, recorded with predecessor 4.
    let game = small_game();
    let r = game.possible_moves_with_path(4);
    assert_eq!(r[10], 4);
    assert_eq!(r[11], 4);
    // Occupied neighbours of 4 carry no slide mark from 4.
    assert_eq!(r[4], 4);
}

#[test]
fn reach_slide_has_origin_predecessor() {
    // Piece 0 with empty surroundings: each adjacent slide appears with
    // predecessor 0.
    let game = small_game();
    let game = game.clone_with_pieces(&[0, 30, 31, 32, 33, 34, 67, 68, 69, 70, 71, 72]);
    let r = game.possible_moves_with_path(0);
    assert_eq!(r[1], 0);
    assert_eq!(r[2], 0);
}

#[test]
fn expand_matches_reachability_counts() {
    // Every successor of the start has turn 1, an unchanged second half,
    // and the successor count is the sum over player 1's pieces of their
    // reachable destinations.
    let game = small_game();
    let (states, actions) = game.expand(true);
    assert!(!states.is_empty());
    assert_eq!(states.len(), actions.len());
    let mut expected = 0usize;
    for k in 0..6 {
        let piece = game.pieces[k];
        let paths = game.possible_moves_with_path(piece);
        for dest in 0..paths.len() {
            if paths[dest] != INVALID_POSITION && dest as u8 != piece {
                expected += 1;
            }
        }
    }
    assert_eq!(states.len(), expected);
    for s in &states {
        assert_eq!(s.turn, 1);
        assert_eq!(&s.pieces[6..], &game.pieces[6..]);
        // exactly one cell of the first half differs
        let diff: Vec<u8> = s.pieces[..6]
            .iter()
            .filter(|p| !game.pieces[..6].contains(p))
            .cloned()
            .collect();
        assert_eq!(diff.len(), 1);
        assert!(s.pieces != game.pieces);
    }
}

#[test]
fn move_to_increases_turn() {
    // After a move the turn strictly increases, so the side that moved is
    // never to move again within the same turn.
    let game = small_game();
    assert!(game.is_p1_moving_next());
    let next = game.move_to(4, 10);
    assert_eq!(next.turn, 1);
    assert!(next.is_p2_moving_next());
    assert!(!next.is_p1_moving_next());
}

#[test]
fn move_to_keeps_halves_sorted() {
    let game = small_game();
    let next = game.move_to(0, 12);
    for w in next.pieces[..6].windows(2) {
        assert!(w[0] < w[1]);
    }
    for w in next.pieces[6..].windows(2) {
        assert!(w[0] < w[1]);
    }
    for p in &next.pieces[..6] {
        assert!(!next.pieces[6..].contains(p));
    }
}

#[test]
fn heuristic_positive_means_p1_ahead() {
    let game = small_game();
    // Push one player-1 piece forward: player 1's clamped distance drops
    // below player 2's, and the heuristic turns positive.
    let game = game.clone_with_pieces(&[40, 41, 42, 43, 44, 45, 67, 68, 69, 70, 71, 72]);
    let h = game.heuristic();
    assert!(h > 0);
    let d1 = game.p1_distance();
    let d2 = game.p2_distance();
    let c1 = if d1 <= 8 { 0 } else { d1 };
    let c2 = if d2 <= 8 { 0 } else { d2 };
    assert!(c1 < c2);
    assert_eq!(h, c2 as i64 - c1 as i64);
}

#[test]
fn heuristic_start_is_even() {
    let game = small_game();
    assert_eq!(game.heuristic(), 0);
}

#[test]
fn status_start_unfinished() {
    let game = small_game();
    assert_eq!(game.status(), Status::Unfinished);
}

#[test]
fn status_occupied_base_wins() {
    // Every player-1 piece on the opposite base: player 1 has won.
    let game = small_game();
    let game = game.clone_with_pieces(&[67, 68, 69, 70, 71, 72, 6, 7, 8, 16, 17, 18]);
    assert_eq!(game.p1_distance(), 8);
    assert_eq!(game.status(), Status::P1Win);
}

#[test]
fn status_turn_limit_smaller_distance_wins() {
    // Past the forced end the side with the smaller distance wins.
    let game = small_game();
    let mut ahead = game.clone_with_pieces(&[40, 41, 42, 43, 44, 45, 67, 68, 69, 70, 71, 72]);
    ahead.turn = 37; // turn_limit is 36
    assert!(ahead.p1_distance() < ahead.p2_distance());
    assert_eq!(ahead.status(), Status::P1Win);
}

#[test]
fn status_turn_limit_tie_goes_to_p2() {
    // The starting arrangement is symmetric; a tie past the forced end is
    // a win for player 2.
    let game = small_game();
    let mut even = game.clone_with_pieces(&[0, 1, 2, 3, 4, 5, 67, 68, 69, 70, 71, 72]);
    even.turn = 37;
    assert_eq!(even.p1_distance(), even.p2_distance());
    assert_eq!(even.status(), Status::P2Win);
}

#[test]
fn key_round_trip() {
    let game = small_game();
    let key = game.key();
    assert_eq!(key.len(), 13);
    assert_eq!(key[0], 0);
    assert_eq!(&key[1..], &game.pieces[..]);
    let back = Game::from_key(&game, &key);
    assert_eq!(back.turn, game.turn);
    assert_eq!(back.pieces, game.pieces);
}

#[test]
fn board_constructor_rejects_bad_data() {
    // An unsorted first half of the starting arrangement is refused.
    let b = small_board();
    let bad = Board::new(
        b.n_pieces,
        b.board_size,
        b.turn_limit,
        b.min_distance,
        b.adj,
        b.p1_distance_map,
        b.p2_distance_map,
        vec![5, 4, 3, 2, 1, 0, 67, 68, 69, 70, 71, 72],
    );
    assert!(bad.is_none());
    // A wrong winning threshold is refused too.
    let b = small_board();
    let bad = Board::new(
        b.n_pieces,
        b.board_size,
        b.turn_limit,
        b.min_distance + 1,
        b.adj,
        b.p1_distance_map,
        b.p2_distance_map,
        b.starting,
    );
    assert!(bad.is_none());
}

#[test]
fn predecessor_chains_reach_the_origin() {
    // Every reached cell walks back to the origin in at most board_size
    // predecessor steps.
    let game = small_game();
    let origin = 4u8;
    let r = game.possible_moves_with_path(origin);
    for c in 0..r.len() {
        if r[c] == INVALID_POSITION {
            continue;
        }
        let mut cur = c as u8;
        let mut steps = 0usize;
        while cur != origin {
            cur = r[cur as usize];
            steps += 1;
            assert!(steps <= r.len());
        }
    }
}

#[test]
fn shipped_boards_carry_their_tables() {
    let b = small_board();
    assert_eq!(b.n_pieces, 6);
    assert_eq!(b.board_size, 73);
    // row 4 of the adjacency table: the neighbours of cell 4
    assert_eq!(&b.adj[24..30], &[10, 11, 5, 2, 1, 3]);
    assert_eq!(b.p1_distance_map[72], 0);
    assert_eq!(b.p2_distance_map[0], 0);
    let s = cc0::boards::standard_board();
    assert_eq!(s.n_pieces, 10);
    assert_eq!(s.board_size, 121);
    let g = Game::new(s);
    assert_eq!(g.pieces.len(), 20);
    assert_eq!(g.status(), Status::Unfinished);
}
