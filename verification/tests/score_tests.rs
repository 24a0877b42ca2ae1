use wordle_solver::FreqTable;
use wordle_solver::letter_counts;
use wordle_solver::rank_words;
use wordle_solver::score_word;
use wordle_solver::score_word_checked;

fn word(s: &str) -> Vec<char> {
    s.chars().collect()
}

fn table_from(pairs: &[(char, usize)]) -> FreqTable {
    let mut t = FreqTable::new();
    for &(c, w) in pairs {
        t.insert(c, w);
    }
    t
}

fn english_counts() -> FreqTable {
    table_from(&[
        ('e', 1233),
        ('a', 979),
        ('r', 899),
        ('o', 754),
        ('t', 729),
        ('l', 719),
        ('i', 671),
        ('s', 669),
        ('n', 575),
        ('c', 477),
        ('u', 467),
        ('y', 425),
        ('d', 393),
        ('h', 389),
        ('p', 367),
        ('m', 316),
        ('g', 311),
        ('b', 281),
        ('f', 230),
        ('k', 210),
        ('w', 195),
        ('v', 153),
        ('z', 40),
        ('x', 37),
        ('q', 29),
        ('j', 27),
    ])
}

#[test]
fn test_score_word_1() {
    let letter_frequency = english_counts();
    let w = word("hello");
    let got = score_word(&w, &letter_frequency);
    let expected: usize = 1233 + 389 + 719 + 754;
    assert_eq!(expected, got);
}

#[test]
fn test_score_word_distinct_letters() {
    // Scoring counts each distinct letter once: the two l's of "hello" are
    // one term of the sum (weights scaled from per-hundred frequencies).
    let t = table_from(&[('e', 5688), ('h', 1531), ('l', 2798), ('o', 3651)]);
    let got = score_word(&word("hello"), &t);
    assert_eq!(1531 + 5688 + 2798 + 3651, got);
    assert_eq!(got, 13668);
}

#[test]
fn test_score_word_checked_unknown_letter() {
    let t = table_from(&[('h', 1), ('e', 2), ('l', 3)]);
    let got = score_word_checked(&word("hello"), &t);
    match got {
        Err(e) => assert_eq!(e.letter, 'o'),
        Ok(_) => panic!("an unknown letter must be reported"),
    }
}

#[test]
fn test_score_word_checked_matches_score_word() {
    let t = english_counts();
    let w = word("later");
    assert_eq!(Ok(score_word(&w, &t)), score_word_checked(&w, &t));
}

#[test]
fn test_letter_counts_small_dictionary() {
    let words = vec![word("aabbc"), word("cabba")];
    let t = letter_counts(&words);
    assert_eq!(t.get('a'), Some(4));
    assert_eq!(t.get('b'), Some(4));
    assert_eq!(t.get('c'), Some(2));
    assert_eq!(t.get('d'), None);
}

#[test]
fn test_rank_words_orders_by_score() {
    // The lowest-scoring word first in the input: ranking must rearrange.
    let t = table_from(&[
        ('z', 1),
        ('e', 10),
        ('a', 10),
        ('r', 10),
        ('o', 10),
        ('t', 10),
        ('s', 5),
        ('n', 5),
        ('i', 5),
        ('c', 5),
    ]);
    let words = vec![word("zzzzz"), word("sonic"), word("orate")];
    let ranked = rank_words(&words, &t);
    assert_eq!(ranked.len(), 3);
    assert_eq!(ranked[0], word("orate"));
    assert_eq!(ranked[1], word("sonic"));
    assert_eq!(ranked[2], word("zzzzz"));
}

#[test]
fn test_ranked_dictionary_top_word_in_one_round() {
    // The full pipeline: build the frequency table from the dictionary, rank
    // it, and simulate the adaptive strategy on the top-ranked word: one
    // round suffices.
    let words = vec![
        word("later"),
        word("alter"),
        word("sonic"),
        word("crimp"),
        word("arose"),
    ];
    let t = letter_counts(&words);
    let ranked = rank_words(&words, &t);
    assert_eq!(1, wordle_solver::guess_word(&ranked[0], &ranked));
}
