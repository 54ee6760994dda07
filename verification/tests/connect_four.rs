use mcts::connect_four::{Board, Checker};
use mcts::GameState;

#[test]
fn empty_board_starts_with_red() {
    let board = Board::default();
    assert_eq!(board.current_player(), Some(Checker::Red));
    assert_eq!(board.available_moves().len(), 7);
}

#[test]
fn checkers_stack_from_the_bottom() {
    let board = Board::default();
    let board = board.play_move(Checker::Red, 3).unwrap();
    // the bottom row is cells 35..41, so column 3 fills cell 38 first
    assert_eq!(board.cells()[38], Some(Checker::Red));
    let board = board.play_move(Checker::Yellow, 3).unwrap();
    assert_eq!(board.cells()[31], Some(Checker::Yellow));
    assert_eq!(board.current_player(), Some(Checker::Red));
}

#[test]
fn full_column_refuses_a_move() {
    let mut board = Board::default();
    for k in 0..6 {
        let colour = if k % 2 == 0 { Checker::Red } else { Checker::Yellow };
        board = board.play_move(colour, 0).unwrap();
    }
    assert!(board.play_move(Checker::Red, 0).is_none());
    assert_eq!(board.available_moves().len(), 6);
}

#[test]
fn vertical_four_wins() {
    let moves = vec![
        (Checker::Red, 0),
        (Checker::Yellow, 1),
        (Checker::Red, 0),
        (Checker::Yellow, 1),
        (Checker::Red, 0),
        (Checker::Yellow, 1),
        (Checker::Red, 0),
    ];
    let board = Board::from_moves(&moves).unwrap();
    assert!(board.has_four(Checker::Red));
    assert!(!board.has_four(Checker::Yellow));
    let outcome = board.outcome().unwrap();
    assert_eq!(outcome.get(Checker::Red.id()), 1);
    assert_eq!(outcome.get(Checker::Yellow.id()), 0);
}

#[test]
fn horizontal_four_wins() {
    let moves = vec![
        (Checker::Red, 0),
        (Checker::Yellow, 0),
        (Checker::Red, 1),
        (Checker::Yellow, 1),
        (Checker::Red, 2),
        (Checker::Yellow, 2),
        (Checker::Red, 3),
    ];
    let board = Board::from_moves(&moves).unwrap();
    assert!(board.has_four(Checker::Red));
    assert!(board.outcome().is_some());
}

#[test]
fn diagonal_four_wins() {
    let moves = vec![
        (Checker::Red, 0),
        (Checker::Yellow, 1),
        (Checker::Red, 1),
        (Checker::Yellow, 2),
        (Checker::Red, 2),
        (Checker::Yellow, 3),
        (Checker::Red, 2),
        (Checker::Yellow, 3),
        (Checker::Red, 3),
        (Checker::Yellow, 6),
        (Checker::Red, 3),
    ];
    let board = Board::from_moves(&moves).unwrap();
    assert!(board.has_four(Checker::Red));
}

#[test]
fn open_board_has_no_outcome() {
    let board = Board::default();
    assert!(board.outcome().is_none());
    assert!(board.terminal_reward().is_none());
}

#[test]
fn from_moves_refuses_a_bad_column() {
    let moves = vec![(Checker::Red, 9)];
    assert!(Board::from_moves(&moves).is_none());
}

#[test]
fn play_random_plays_the_only_move() {
    // fill six of the seven columns completely; only column 6 stays open
    let mut board = Board::default();
    for col in 0..6 {
        for k in 0..6 {
            let colour = if k % 2 == 0 { Checker::Red } else { Checker::Yellow };
            board = board.play_move(colour, col).unwrap();
        }
    }
    assert_eq!(board.available_moves().len(), 1);
    let mut rng = mcts::rng::rng_from_seed(5);
    let after = board.play_random(&mut rng).unwrap();
    // the single open column received the checker at its bottom cell
    assert_eq!(after.cells()[41], Some(board.current_player().unwrap()));
}

#[test]
fn engine_searches_connect_four() {
    let mut tree = mcts::MonteCarloTree::seed_from_u64(Board::default(), 99);
    let completed = tree.run(2, 20);
    assert_eq!(completed, 20);
    let action = tree.best_action(mcts::NodeId(0));
    assert!(action.is_some());
    assert!(action.unwrap() < 7);
}

#[test]
fn replaying_no_moves_gives_the_empty_board() {
    let board = Board::from_moves(&Vec::new()).unwrap();
    assert!(board.cells().iter().all(Option::is_none));
}
