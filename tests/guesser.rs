use rowdle::guesser::GuessResult;
use rowdle::Guessable;

#[test]
fn guesser_test_guess() {
    let guess = "world".to_string();
    let correct = "hello".to_string();
    let res = guess.guess(&correct);
    assert_eq!(
        res.guess,
        vec![
            GuessResult::Incorrect('w'),
            GuessResult::Misplaced('o'),
            GuessResult::Incorrect('r'),
            GuessResult::Correct('l'),
            GuessResult::Incorrect('d')
        ]
    );

    let guess = "flour".to_string();
    let correct = "level".to_string();
    let res = guess.guess(&correct);
    assert_eq!(
        res.guess,
        vec![
            GuessResult::Incorrect('f'),
            GuessResult::Misplaced('l'),
            GuessResult::Incorrect('o'),
            GuessResult::Incorrect('u'),
            GuessResult::Incorrect('r')
        ]
    );

    let guess = "level".to_string();
    let correct = "flour".to_string();

    let res = guess.guess(&correct);
    assert_eq!(
        res.guess,
        vec![
            GuessResult::Misplaced('l'),
            GuessResult::Incorrect('e'),
            GuessResult::Incorrect('v'),
            GuessResult::Incorrect('e'),
            GuessResult::Incorrect('l')
        ]
    );
}

#[test]
fn score_of_target_is_all_correct() {
    let word = "hello".to_string();
    let res = word.guess(&word);
    assert_eq!(res.word, "hello");
    assert_eq!(
        res.guess,
        vec![
            GuessResult::Correct('h'),
            GuessResult::Correct('e'),
            GuessResult::Correct('l'),
            GuessResult::Correct('l'),
            GuessResult::Correct('o')
        ]
    );
}

#[test]
fn score_is_deterministic() {
    let guess = "flour".to_string();
    let target = "level".to_string();
    let first = guess.guess(&target);
    let second = guess.guess(&target);
    assert_eq!(first, second);
}

#[test]
fn scores_world_against_hello() {
    let res = "world".to_string().guess(&"hello".to_string());
    assert_eq!(res.word, "world");
    assert_eq!(
        res.guess,
        vec![
            GuessResult::Incorrect('w'),
            GuessResult::Misplaced('o'),
            GuessResult::Incorrect('r'),
            GuessResult::Correct('l'),
            GuessResult::Incorrect('d')
        ]
    );
}

#[test]
fn scores_flour_against_level() {
    let res = "flour".to_string().guess(&"level".to_string());
    assert_eq!(
        res.guess,
        vec![
            GuessResult::Incorrect('f'),
            GuessResult::Misplaced('l'),
            GuessResult::Incorrect('o'),
            GuessResult::Incorrect('u'),
            GuessResult::Incorrect('r')
        ]
    );
}

#[test]
fn earlier_duplicate_wins_the_misplaced_mark() {
    let res = "bobby".to_string().guess(&"abbey".to_string());
    assert_eq!(
        res.guess,
        vec![
            GuessResult::Misplaced('b'),
            GuessResult::Incorrect('o'),
            GuessResult::Correct('b'),
            GuessResult::Incorrect('b'),
            GuessResult::Correct('y')
        ]
    );
}

#[test]
fn misplaced_marks_stay_within_unclaimed_target_atoms() {
    let cases = [("level", "flour"), ("bobby", "abbey"), ("eerie", "where"), ("llama", "hello")];
    for (guess, target) in cases {
        let res = guess.to_string().guess(&target.to_string());
        for c in guess.chars() {
            let misplaced = res.guess.iter().filter(|r| **r == GuessResult::Misplaced(c)).count();
            let correct = res.guess.iter().filter(|r| **r == GuessResult::Correct(c)).count();
            let in_target = target.chars().filter(|t| *t == c).count();
            assert!(misplaced + correct <= in_target);
        }
    }
}

#[test]
fn eerie_against_where() {
    let res = "eerie".to_string().guess(&"where".to_string());
    assert_eq!(
        res.guess,
        vec![
            GuessResult::Misplaced('e'),
            GuessResult::Incorrect('e'),
            GuessResult::Misplaced('r'),
            GuessResult::Incorrect('i'),
            GuessResult::Correct('e')
        ]
    );
}

#[test]
fn scores_characters_not_bytes() {
    let res = "rübe".to_string().guess(&"über".to_string());
    assert_eq!(
        res.guess,
        vec![
            GuessResult::Misplaced('r'),
            GuessResult::Misplaced('ü'),
            GuessResult::Misplaced('b'),
            GuessResult::Misplaced('e')
        ]
    );
}

#[test]
fn empty_word_scores_to_no_cells() {
    let res = String::new().guess(&String::new());
    assert!(res.guess.is_empty());
    assert_eq!(res.word, "");
}
