use mcts::GameScore;

#[test]
fn game_score_add_ok() {
    let a = {
        let mut score = GameScore::new();
        score.insert(0, 0);
        score.insert(1, 5);
        score.insert(2, 75);
        score.insert(3, 25);
        score.insert(4, 100);
        score
    };
    let b = {
        let mut score = GameScore::new();
        score.insert(0, 50);
        score.insert(2, 50);
        score.insert(4, 25);
        score.insert(5, 75);
        score
    };
    let sum = a.merge(&b);
    assert_eq!(sum.get(0), 50);
    assert_eq!(sum.get(1), 5);
    assert_eq!(sum.get(2), 125);
    assert_eq!(sum.get(3), 25);
    assert_eq!(sum.get(4), 125);
    assert_eq!(sum.get(5), 75);
    assert_eq!(sum.get(6), 0);
}

#[test]
fn merge_is_commutative_on_values() {
    let mut a = GameScore::new();
    a.insert(7, 3);
    let mut b = GameScore::new();
    b.insert(7, 4);
    b.insert(9, 1);
    let ab = a.merge(&b);
    let ba = b.merge(&a);
    for player in [7u64, 9, 10] {
        assert_eq!(ab.get(player), ba.get(player));
    }
}

#[test]
fn insert_accumulates() {
    let mut score = GameScore::new();
    assert_eq!(score.get(3), 0);
    score.insert(3, 2);
    score.insert(3, 5);
    assert_eq!(score.get(3), 7);
    assert_eq!(score.get(4), 0);
}
