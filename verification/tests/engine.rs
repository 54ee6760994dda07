use mcts::tic_tac_toe::{Game, Player};
use mcts::{GameScore, MonteCarloTree, NodeId};

fn seven_filled_board() -> Game {
    // no line is complete, cells 6 and 7 are open, and X is to move
    let board = vec![
        Some(Player::X),
        Some(Player::O),
        Some(Player::X),
        Some(Player::X),
        Some(Player::O),
        Some(Player::O),
        None,
        None,
        Some(Player::X),
    ];
    Game::new(board, Player::X)
}

#[test]
fn build_default_tree() {
    let tree = MonteCarloTree::seed_from_u64(Game::default(), 7);
    let root = tree.tree().get(NodeId(0)).unwrap();
    assert_eq!(tree.tree().len(), 1);
    assert_eq!(root.data().visits(), 0);
    assert_eq!(root.data().reward().get(0), 0);
    assert!(root.data().state().board().iter().all(Option::is_none));
}

#[test]
fn expand_default_tree() {
    let mut tree = MonteCarloTree::seed_from_u64(Game::default(), 7);
    tree.expand(NodeId(0)).unwrap();
    assert_eq!(tree.tree().len(), 10);
    let node = tree.select(2, NodeId(0)).unwrap();
    tree.expand(node).unwrap();
    assert_eq!(tree.tree().len(), 18);
}

#[test]
fn root_visits_equal_iterations() {
    let mut tree = MonteCarloTree::seed_from_u64(Game::default(), 11);
    let completed = tree.run(2, 25);
    assert_eq!(completed, 25);
    let root = tree.tree().get(NodeId(0)).unwrap();
    assert_eq!(root.data().visits(), 25);
}

#[test]
fn backpropagation_conserves_reward() {
    let mut tree = MonteCarloTree::seed_from_u64(seven_filled_board(), 3);
    tree.expand(NodeId(0)).unwrap();
    assert_eq!(tree.tree().len(), 3);
    let mut outcome = GameScore::new();
    outcome.insert(0, 3);
    outcome.insert(1, 2);
    tree.backpropagate(NodeId(1), &outcome).unwrap();
    let root = tree.tree().get(NodeId(0)).unwrap();
    let child = tree.tree().get(NodeId(1)).unwrap();
    // the whole rollout reward, and nothing more, reached the root
    assert_eq!(root.data().reward().get(0), 3);
    assert_eq!(root.data().reward().get(1), 2);
    assert_eq!(child.data().reward().get(0), 3);
    assert_eq!(child.data().reward().get(1), 2);
    // the untouched sibling kept nothing
    let sibling = tree.tree().get(NodeId(2)).unwrap();
    assert_eq!(sibling.data().reward().get(0), 0);
    assert_eq!(sibling.data().visits(), 0);
    assert_eq!(root.data().visits(), 1);
    assert_eq!(child.data().visits(), 1);
}

#[test]
fn fresh_child_is_selected_first() {
    // one child has a visit and a reward; its never-visited sibling must
    // still win selection, whatever the exploration constant
    let mut tree = MonteCarloTree::seed_from_u64(seven_filled_board(), 3);
    tree.expand(NodeId(0)).unwrap();
    let mut outcome = GameScore::new();
    outcome.insert(0, 1);
    outcome.insert(1, 1);
    tree.backpropagate(NodeId(1), &outcome).unwrap();
    for c in [0u64, 1, 1000000] {
        let picked = tree.select(c, NodeId(0)).unwrap();
        let visits = tree.tree().get(picked).unwrap().data().visits();
        assert_eq!(visits, 0);
        assert_eq!(picked, NodeId(2));
    }
}

#[test]
fn best_action_prefers_higher_mean() {
    // two children with one visit each, rewards zero and one: the second
    // child's action must come out, and selection at zero exploration
    // agrees
    let mut tree = MonteCarloTree::seed_from_u64(seven_filled_board(), 3);
    tree.expand(NodeId(0)).unwrap();
    assert_eq!(tree.tree().len(), 3);
    let zero = GameScore::new();
    tree.backpropagate(NodeId(1), &zero).unwrap();
    let mut one = GameScore::new();
    one.insert(0, 1);
    one.insert(1, 1);
    tree.backpropagate(NodeId(2), &one).unwrap();
    // children were expanded from open cells 6 and 7 in that order
    assert_eq!(tree.best_action(NodeId(0)), Some(7));
    assert_eq!(tree.select(0, NodeId(0)), Some(NodeId(2)));
}

#[test]
fn best_action_is_idempotent() {
    let mut tree = MonteCarloTree::seed_from_u64(Game::default(), 19);
    tree.run(2, 30);
    let first = tree.best_action(NodeId(0));
    let second = tree.best_action(NodeId(0));
    assert!(first.is_some());
    assert_eq!(first, second);
}

#[test]
fn best_action_fails_on_unexpanded_node() {
    let tree = MonteCarloTree::seed_from_u64(Game::default(), 19);
    assert_eq!(tree.best_action(NodeId(0)), None);
    assert_eq!(tree.best_action(NodeId(42)), None);
}

#[test]
fn uct_of_visited_child() {
    let mut tree = MonteCarloTree::seed_from_u64(seven_filled_board(), 3);
    tree.expand(NodeId(0)).unwrap();
    let mut one = GameScore::new();
    one.insert(0, 1);
    one.insert(1, 1);
    tree.backpropagate(NodeId(1), &one).unwrap();
    // mean reward one at one visit, parent visits one: the exploration
    // term is zero (log2(1) == 0), so the score is exactly the scale
    assert_eq!(tree.uct(NodeId(1), 5), Some(1000000u128));
    // the root has no parent, and the unvisited sibling has no number
    assert_eq!(tree.uct(NodeId(0), 5), None);
    assert_eq!(tree.uct(NodeId(2), 5), None);
}

#[test]
fn select_fails_on_missing_node() {
    let tree = MonteCarloTree::seed_from_u64(Game::default(), 19);
    assert_eq!(tree.select(2, NodeId(9)), None);
    assert_eq!(tree.select(2, NodeId(0)), Some(NodeId(0)));
}

#[test]
fn same_seed_same_search() {
    let mut a = MonteCarloTree::seed_from_u64(Game::default(), 123);
    let mut b = MonteCarloTree::seed_from_u64(Game::default(), 123);
    a.run(2, 40);
    b.run(2, 40);
    assert_eq!(a.tree().len(), b.tree().len());
    assert_eq!(a.best_action(NodeId(0)), b.best_action(NodeId(0)));
}

#[test]
fn mutating_a_missing_node_changes_nothing() {
    let mut tree = MonteCarloTree::seed_from_u64(Game::default(), 4);
    assert_eq!(tree.expand(NodeId(5)), None);
    assert_eq!(tree.tree().len(), 1);
    let outcome = GameScore::new();
    assert_eq!(tree.backpropagate(NodeId(5), &outcome), None);
    assert_eq!(tree.tree().get(NodeId(0)).unwrap().data().visits(), 0);
}
