use wordle_solver::Model;
use wordle_solver::guess_word;
use wordle_solver::guess_word_method_2;
use wordle_solver::mimic_user_input;
use wordle_solver::retain_valid;
use wordle_solver::update_available_letters;
use wordle_solver::word_is_valid;

fn word(s: &str) -> Vec<char> {
    s.chars().collect()
}

fn words(ss: &[&str]) -> Vec<Vec<char>> {
    ss.iter().map(|s| word(s)).collect()
}

#[test]
fn test_classify_scenario() {
    // classify("later", "alter"): 'a' and 'l' are present but misplaced,
    // while 't', 'e' and 'r' sit at their own positions in both words.
    let got = mimic_user_input(&word("later"), &word("alter"));
    let expected = vec![('a', 'y'), ('l', 'y'), ('t', 'g'), ('e', 'g'), ('r', 'g')];
    assert_eq!(expected, got);
}

#[test]
fn test_classify_all_green_and_all_black() {
    let all_green = mimic_user_input(&word("crimp"), &word("crimp"));
    assert!(all_green.iter().all(|&(_, m)| m == 'g'));
    let all_black = mimic_user_input(&word("crimp"), &word("towel"));
    assert!(all_black.iter().all(|&(_, m)| m == 'b'));
}

#[test]
fn test_classify_never_filters_target() {
    // Self-consistency on concrete values: the feedback a target generates
    // never removes the target itself from the working list.
    let targets = ["later", "alter", "crimp", "aaaaa", "robot"];
    let pool = ["later", "alter", "crimp", "aaaaa", "robot", "tonic", "sonar"];
    for target in targets {
        for guess in pool {
            let model = Model::all_open();
            let clues = mimic_user_input(&word(target), &word(guess));
            let (model, exclusions) = update_available_letters(&clues, &model);
            assert!(
                word_is_valid(&word(target), &model, &exclusions),
                "{} was filtered out after guessing {}",
                target,
                guess
            );
        }
    }
}

#[test]
fn test_retain_valid_idempotent() {
    // Filtering an already-filtered list with the same model and exclusions
    // changes nothing.
    let model = Model::all_open();
    let clues = mimic_user_input(&word("later"), &word("tonic"));
    let (model, exclusions) = update_available_letters(&clues, &model);
    let mut list = words(&["later", "alter", "crimp", "tonic", "aaaaa"]);
    retain_valid(&mut list, &model, &exclusions);
    let once = list.clone();
    retain_valid(&mut list, &model, &exclusions);
    assert_eq!(once, list);
}

#[test]
fn test_retain_valid_shrinks() {
    let model = Model::all_open();
    let clues = mimic_user_input(&word("later"), &word("tonic"));
    let (model, exclusions) = update_available_letters(&clues, &model);
    let before = words(&["later", "alter", "crimp", "tonic", "aaaaa"]);
    let mut after = before.clone();
    retain_valid(&mut after, &model, &exclusions);
    assert!(after.len() <= before.len());
    for w in &after {
        assert!(before.contains(w));
    }
}

#[test]
fn test_guess_word_top_ranked_target() {
    // The adaptive strategy finds a target that is the best-ranked word in
    // one round.
    let list = words(&["later", "sonic", "crimp"]);
    assert_eq!(1, guess_word(&word("later"), &list));
}

#[test]
fn test_guess_word_two_rounds() {
    // "later" is guessed first and its feedback eliminates it, leaving
    // "alter" as the next guess.
    let list = words(&["later", "alter"]);
    assert_eq!(2, guess_word(&word("alter"), &list));
}

#[test]
fn test_guess_word_unreachable_target() {
    // A target outside the dictionary: the strategy stops once no candidate
    // is consistent, charging the round that revealed it.
    let list = words(&["aaaaa", "bbbbb"]);
    let got = guess_word(&word("ccccc"), &list);
    assert!((1..=21).contains(&got));
}

#[test]
fn test_guess_word_method_2_first_openers() {
    // Fixed openers: "later" then the first word sharing no letter with it.
    let list = words(&["later", "sonic", "crimp"]);
    assert_eq!(1, guess_word_method_2(&word("later"), &list));
    assert_eq!(2, guess_word_method_2(&word("sonic"), &list));
}

#[test]
fn test_guess_word_method_2_narrowed_after_first_round() {
    // Neither opener hits, but the first round's feedback already narrows the
    // list to a single word: reported as solved in two.
    let list = words(&["later", "sonic", "crimp"]);
    assert_eq!(2, guess_word_method_2(&word("crimp"), &list));
}

#[test]
fn test_guess_word_method_2_narrowed_after_second_round() {
    // Two words survive the first opener's feedback and one survives the
    // second's: reported as solved in three.
    let list = words(&["later", "sonic", "crimp", "primp"]);
    assert_eq!(3, guess_word_method_2(&word("crimp"), &list));
}

#[test]
fn test_guess_word_method_2_adaptive_tail() {
    // Both openers leave two candidates; the adaptive tail guesses the wrong
    // one first and the target on the fourth guess.
    let list = words(&["later", "sonic", "crimp", "cirmp"]);
    assert_eq!(4, guess_word_method_2(&word("cirmp"), &list));
}
