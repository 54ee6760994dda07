use mcts::digit_party::DigitGame;
use mcts::GameState;

#[test]
fn dealt_game_starts_empty_with_digits_in_range() {
    let game = DigitGame::seed_from_u64(17);
    assert_eq!(game.seed(), 17);
    assert!(game.board().iter().all(Option::is_none));
    assert!(!game.is_complete());
    assert_eq!(game.open_indices().len(), 25);
    let first = game.digit_current();
    assert!((1..=9).contains(&first));
    assert!(game.digit_next().is_some());
}

#[test]
fn step_places_the_current_digit() {
    let game = DigitGame::seed_from_u64(17);
    let digit = game.digit_current();
    let next = game.step(7);
    assert_eq!(next.board()[7], Some(digit));
    assert_eq!(next.open_indices().len(), 24);
    // the receiver is untouched
    assert!(game.board().iter().all(Option::is_none));
}

#[test]
fn score_matches_the_connection_table() {
    // fill the whole board in cell order, then check the score against the
    // sum over the 8-neighbour connection pairs of the 5-by-5 grid
    let mut game = DigitGame::seed_from_u64(23);
    for idx in 0..25 {
        game = game.step(idx);
    }
    assert!(game.is_complete());
    let mut connections: Vec<(usize, usize)> = Vec::new();
    for row in 0..5 {
        for col in 0..5 {
            let a = row * 5 + col;
            if col < 4 {
                connections.push((a, a + 1));
            }
            if row < 4 {
                connections.push((a, a + 5));
                if col < 4 {
                    connections.push((a, a + 6));
                }
                if col > 0 {
                    connections.push((a, a + 4));
                }
            }
        }
    }
    assert_eq!(connections.len(), 72);
    let board = game.board();
    let expected: u32 = connections
        .iter()
        .map(|(a, b)| match (board[*a], board[*b]) {
            (Some(x), Some(y)) if x == y => x as u32,
            _ => 0,
        })
        .sum();
    assert_eq!(game.score(), expected);
    let reward = game.terminal_reward().unwrap();
    assert_eq!(reward.get(0), expected as u64);
}

#[test]
fn engine_searches_the_puzzle() {
    let mut tree = mcts::MonteCarloTree::seed_from_u64(DigitGame::seed_from_u64(23), 5);
    let completed = tree.run(2, 15);
    assert_eq!(completed, 15);
    let action = tree.best_action(mcts::NodeId(0));
    assert!(action.is_some());
    assert!(action.unwrap() < 25);
}

#[test]
fn incomplete_game_has_no_reward() {
    let game = DigitGame::seed_from_u64(1);
    assert!(game.terminal_reward().is_none());
    assert_eq!(game.legal_actions().len(), 25);
}

#[test]
fn random_agent_plays_to_completion() {
    let mut agent = mcts::digit_party::RandomAgent::seed_from_u64(9);
    let finished = agent.play(DigitGame::seed_from_u64(23));
    assert!(finished.is_complete());
    assert!(finished.board().iter().all(Option::is_some));
}

#[test]
fn random_agent_step_names_an_open_cell() {
    let mut agent = mcts::digit_party::RandomAgent::seed_from_u64(9);
    let game = DigitGame::seed_from_u64(23).step(0).step(1).step(2);
    let idx = agent.step(&game).unwrap();
    assert!(idx < 25);
    assert!(game.board()[idx].is_none());
}
