use wordle_solver::Model;
use wordle_solver::update_available_letters;
use wordle_solver::word_is_valid;

fn word(s: &str) -> Vec<char> {
    s.chars().collect()
}

#[test]
fn test_update_1() {
    let word_options = Model::all_open();

    let input_letters = vec![('a', 'b'), ('b', 'g'), ('c', 'y'), ('d', 'b'), ('e', 'g')];
    let expected: Vec<Vec<char>> = vec![
        "bcefghijklmnopqrstuvwxyz".chars().collect(),
        vec!['b'],
        "befghijklmnopqrstuvwxyz".chars().collect(),
        "bcefghijklmnopqrstuvwxyz".chars().collect(),
        vec!['e'],
    ];

    let (got, _) = update_available_letters(&input_letters, &word_options);
    for (idx, expected_letters) in expected.iter().enumerate() {
        for c in "abcdefghijklmnopqrstuvwxyz".chars() {
            assert_eq!(
                expected_letters.contains(&c),
                got.allows(idx, c),
                "index {} did not match",
                idx
            );
        }
    }
}

#[test]
fn test_update_exclusion_record() {
    let word_options = Model::all_open();
    let input_letters = vec![('a', 'b'), ('b', 'g'), ('c', 'y'), ('d', 'b'), ('e', 'g')];
    let (_, exclusions) = update_available_letters(&input_letters, &word_options);
    assert_eq!(exclusions, vec![(2, 'c')]);
}

#[test]
fn test_update_green_overrides_black() {
    // The same letter black at one position and green at another: green wins
    // at its own position, black removes it everywhere else.
    let word_options = Model::all_open();
    let input_letters = vec![('a', 'b'), ('a', 'g'), ('x', 'b'), ('y', 'b'), ('z', 'b')];
    let (got, _) = update_available_letters(&input_letters, &word_options);
    assert!(got.allows(1, 'a'));
    assert!(!got.allows(0, 'a'));
    assert!(!got.allows(2, 'a'));
    assert!(!got.allows(3, 'x'));
    assert!(!got.allows(4, 'z'));
}

#[test]
fn test_update_monotonic_shrink() {
    // A candidate set never grows under a round of feedback.
    let word_options = Model::all_open();
    let input_letters = vec![('q', 'y'), ('w', 'b'), ('e', 'g'), ('r', 'y'), ('t', 'b')];
    let (got, _) = update_available_letters(&input_letters, &word_options);
    for idx in 0..5 {
        let mut before = 0;
        let mut after = 0;
        for c in "abcdefghijklmnopqrstuvwxyz".chars() {
            if word_options.allows(idx, c) {
                before += 1;
            }
            if got.allows(idx, c) {
                after += 1;
            }
        }
        assert!(after <= before, "index {} grew", idx);
    }
}

#[test]
fn test_word_is_valid_scenario() {
    // "arose" against the model of test_update_1 with exclusion [(2, 'c')]:
    // invalid, because position 2 is restricted by a green clue to 'e'.
    let word_options = Model::all_open();
    let input_letters = vec![('a', 'b'), ('b', 'g'), ('c', 'y'), ('d', 'b'), ('e', 'g')];
    let (model, exclusions) = update_available_letters(&input_letters, &word_options);
    assert!(!word_is_valid(&word("arose"), &model, &exclusions));
    // A word meeting every constraint passes: 'c' away from position 2,
    // 'b' and 'e' at their green positions, no 'a' or 'd' anywhere.
    assert!(word_is_valid(&word("cbxbe"), &model, &exclusions));
    // The excluded letter only at its excluded position fails.
    assert!(!word_is_valid(&word("xbcbe"), &model, &exclusions));
}
