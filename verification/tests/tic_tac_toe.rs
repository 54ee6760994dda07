use mcts::tic_tac_toe::{Game, Player};
use mcts::GameState;

#[test]
fn setup_default_game() {
    let game = Game::default();
    assert_eq!(game.board().as_slice(), [None; 9]);
    assert_eq!(game.player(), Player::X);
}

#[test]
fn test_is_complete() {
    let board = vec![
        Some(Player::X),
        Some(Player::X),
        Some(Player::X),
        Some(Player::O),
        None,
        Some(Player::O),
        None,
        Some(Player::O),
        None,
    ];
    let game = Game::new(board, Player::O);
    assert!(game.is_complete());
}

#[test]
fn winner_takes_the_whole_reward() {
    let board = vec![
        Some(Player::X),
        Some(Player::X),
        Some(Player::X),
        Some(Player::O),
        None,
        Some(Player::O),
        None,
        Some(Player::O),
        None,
    ];
    let game = Game::new(board, Player::O);
    let reward = game.terminal_reward().unwrap();
    assert_eq!(reward.get(Player::X.id()), 1);
    assert_eq!(reward.get(Player::O.id()), 0);
}

#[test]
fn draw_rewards_nobody() {
    let board = vec![
        Some(Player::X),
        Some(Player::O),
        Some(Player::X),
        Some(Player::X),
        Some(Player::O),
        Some(Player::O),
        Some(Player::O),
        Some(Player::X),
        Some(Player::X),
    ];
    let game = Game::new(board, Player::O);
    assert!(game.is_complete());
    let reward = game.terminal_reward().unwrap();
    assert_eq!(reward.get(Player::X.id()), 0);
    assert_eq!(reward.get(Player::O.id()), 0);
}

#[test]
fn open_game_has_no_reward_yet() {
    let game = Game::default();
    assert!(game.terminal_reward().is_none());
    assert!(!game.is_complete());
}

#[test]
fn empty_board_offers_nine_actions() {
    let game = Game::default();
    let actions = game.legal_actions();
    assert_eq!(actions.len(), 9);
    for (k, action) in actions.iter().enumerate() {
        assert_eq!(*action, (Player::X.id(), k as u64));
    }
}

#[test]
fn won_game_offers_no_actions() {
    let board = vec![
        Some(Player::X),
        Some(Player::X),
        Some(Player::X),
        Some(Player::O),
        None,
        Some(Player::O),
        None,
        Some(Player::O),
        None,
    ];
    let game = Game::new(board, Player::O);
    assert!(game.legal_actions().is_empty());
}

#[test]
fn apply_places_the_mark_and_flips_the_turn() {
    let game = Game::default();
    let next = game.apply(Player::X.id(), 4);
    assert_eq!(next.board()[4], Some(Player::X));
    assert_eq!(next.player(), Player::O);
    assert_eq!(next.board().iter().filter(|c| c.is_some()).count(), 1);
    // the receiver is untouched
    assert_eq!(game.board().as_slice(), [None; 9]);
}

#[test]
fn open_indices_lists_empty_cells() {
    let board = vec![
        Some(Player::X),
        None,
        Some(Player::O),
        None,
        None,
        Some(Player::X),
        None,
        Some(Player::O),
        None,
    ];
    let game = Game::new(board, Player::X);
    assert_eq!(game.open_indices(), vec![1, 3, 4, 6, 8]);
}
