use cc0::alphabeta::alphabeta;
use cc0::boards::small_board;
use cc0::game::Game;
use cc0::mcts::{chroot, mcts, mcts_poll, new_session, DEFAULT_EXPLORATION_CENTI, SCALE};
use cc0::scores::ScoreMap;
use cc0::alphabeta::alphabeta_poll;
use cc0::rng::{random_shuffle, Rng};

fn small_game() -> Game {
    Game::new(small_board())
}

#[test]
fn alphabeta_finds_forced_win() {
    // Player 1 has five pieces home and one a single slide away; depth 3
    // must play the winning entry into the base, whatever the random
    // tie-breaking does and whatever window the helper search opens with.
    let game = small_game();
    let position = game.clone_with_pieces(&[61, 68, 69, 70, 71, 72, 6, 7, 8, 16, 17, 18]);
    for seed in 1..4u32 {
        let mut rng = Rng::new(seed);
        let (next, action) = alphabeta(&position, 3, &mut rng);
        assert_eq!((action.from, action.to), (61, 67));
        assert_eq!(next.p1_distance(), 8);
    }
}

#[test]
fn alphabeta_returns_legal_move() {
    let game = small_game();
    let mut rng = Rng::new(7);
    let (next, action) = alphabeta(&game, 2, &mut rng);
    assert!(game.pieces[..6].contains(&action.from));
    let replay = game.move_to(action.from, action.to);
    assert_eq!(replay.pieces, next.pieces);
    assert_eq!(next.turn, 1);
}

#[test]
fn mcts_returns_legal_move() {
    let game = small_game();
    let mut rng = Rng::new(11);
    let (next, action) = mcts(&game, 50, &mut rng);
    assert!(game.pieces[..6].contains(&action.from));
    let replay = game.move_to(action.from, action.to);
    assert_eq!(replay.pieces, next.pieces);
    assert_eq!(next.turn, 1);
}

#[test]
fn mcts_poll_counts_root_visits() {
    // Drive the polling search by hand, scoring every missing key with the
    // neutral value; when it completes, the root has exactly the asked-for
    // number of visits.
    let game = small_game();
    let (mut root, mut scores) = new_session(game.duplicate());
    let mut rng = Rng::new(5);
    let iterations = 40usize;
    let result = loop {
        match mcts_poll(&game, iterations, &mut root, &scores, DEFAULT_EXPLORATION_CENTI, &mut rng) {
            Ok(pair) => break pair,
            Err(keys) => {
                assert!(!keys.is_empty());
                for k in keys {
                    scores.insert(k, SCALE / 2);
                }
            }
        }
    };
    assert_eq!(root.n_visits, iterations as u64);
    assert!(game.pieces[..6].contains(&result.1.from));
}

#[test]
fn shuffle_keeps_elements() {
    let mut rng = Rng::new(123);
    let mut v: Vec<u32> = (0..20).collect();
    random_shuffle(&mut rng, &mut v);
    let mut sorted = v.clone();
    sorted.sort();
    let expected: Vec<u32> = (0..20).collect();
    assert_eq!(sorted, expected);
}

#[test]
fn rng_is_deterministic_for_a_seed() {
    let mut a = Rng::new(99);
    let mut b = Rng::new(99);
    for _ in 0..10 {
        assert_eq!(a.next_u32(), b.next_u32());
    }
    let mut v1: Vec<u8> = (0..10).collect();
    let mut v2: Vec<u8> = (0..10).collect();
    let mut r1 = Rng::new(4242);
    let mut r2 = Rng::new(4242);
    random_shuffle(&mut r1, &mut v1);
    random_shuffle(&mut r2, &mut v2);
    assert_eq!(v1, v2);
}

#[test]
fn mcts_poll_subtree_reuse_accounting() {
    // Search, commit the chosen move by re-rooting at its child, then ask
    // for more visits: the new root ends with exactly the kept child's
    // visits plus the extra rollouts.
    let game = small_game();
    let (mut root, mut scores) = new_session(game.duplicate());
    let mut rng = Rng::new(21);
    let first = 20usize;
    let chosen = loop {
        match mcts_poll(&game, first, &mut root, &scores, DEFAULT_EXPLORATION_CENTI, &mut rng) {
            Ok(pair) => break pair,
            Err(keys) => {
                for k in keys {
                    scores.insert(k, SCALE / 2);
                }
            }
        }
    };
    let mut root = chroot(root, chosen.1.from, chosen.1.to).unwrap();
    let kept = root.n_visits;
    let target = kept as usize + 15;
    loop {
        match mcts_poll(&chosen.0, target, &mut root, &scores, DEFAULT_EXPLORATION_CENTI, &mut rng) {
            Ok(_) => break,
            Err(keys) => {
                for k in keys {
                    scores.insert(k, SCALE / 2);
                }
            }
        }
    }
    assert_eq!(root.n_visits, target as u64);
}

#[test]
fn alphabeta_poll_reports_missing_then_solves() {
    // The polling search yields the keys it cannot score; once the host
    // has filled them all, it returns a legal move.
    let game = small_game();
    let mut scores = ScoreMap::new();
    let mut rng = Rng::new(3);
    let mut rounds = 0usize;
    let result = loop {
        match alphabeta_poll(&game, 2, &scores, &mut rng) {
            Ok(pair) => break pair,
            Err(keys) => {
                assert!(!keys.is_empty());
                rounds += 1;
                assert!(rounds < 10000);
                for k in keys {
                    scores.insert(k, 0);
                }
            }
        }
    };
    assert!(game.pieces[..6].contains(&result.1.from));
    let replay = game.move_to(result.1.from, result.1.to);
    assert_eq!(replay.pieces, result.0.pieces);
}
