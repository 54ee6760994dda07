use mcts::wordle::Clue::{Correct as C, Incorrect as I, Misplaced as M};
use mcts::wordle::{calculate_word_pairs, evaluate_guess, Word};

#[test]
fn test_evaluate_guess() {
    let cases = [
        ("leave", "close", [M, I, I, I, C]),
        ("cooks", "close", [C, I, C, I, M]),
        ("cheer", "close", [C, I, M, I, I]),
        ("kills", "skill", [M, M, M, C, M]),
        ("mosso", "misos", [C, M, C, M, I]),
    ];
    for (guess, secret, response) in cases {
        let guess = Word::new(guess).unwrap();
        let secret = Word::new(secret).unwrap();
        assert_eq!(*evaluate_guess(&guess, &secret).clues(), response.to_vec());
    }
}

#[test]
fn word_needs_five_letters() {
    assert!(Word::new("four").is_none());
    assert!(Word::new("sixsix").is_none());
    let word = Word::new("gamer").unwrap();
    assert_eq!(*word.letters(), b"gamer".to_vec());
}

#[test]
fn word_pairs_cross_every_guess_with_every_secret() {
    let guesses = vec![Word::new("leave").unwrap(), Word::new("cooks").unwrap()];
    let solutions = vec![Word::new("close").unwrap(), Word::new("skill").unwrap()];
    let pairs = calculate_word_pairs(&guesses, &solutions);
    assert_eq!(pairs.len(), 4);
    assert_eq!(*pairs[0].0.letters(), b"leave".to_vec());
    assert_eq!(*pairs[0].1.letters(), b"close".to_vec());
    assert_eq!(*pairs[0].2.clues(), vec![M, I, I, I, C]);
    assert_eq!(*pairs[1].1.letters(), b"skill".to_vec());
    assert_eq!(*pairs[2].0.letters(), b"cooks".to_vec());
    assert_eq!(*pairs[2].2.clues(), vec![C, I, C, I, M]);
    assert_eq!(*pairs[3].1.letters(), b"skill".to_vec());
}

#[test]
fn all_correct_and_all_incorrect() {
    let word = Word::new("close").unwrap();
    let same = Word::new("close").unwrap();
    assert_eq!(*evaluate_guess(&word, &same).clues(), vec![C, C, C, C, C]);
    let other = Word::new("dummy").unwrap();
    assert_eq!(*evaluate_guess(&word, &other).clues(), vec![I, I, I, I, I]);
}
