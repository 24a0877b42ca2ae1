use vstd::prelude::*;

use crate::feedback::lemma_self_consistency;
use crate::feedback::mimic_user_input;
use crate::feedback::spec_classify;
use crate::feedback::word_contains;
use crate::filter::lemma_filter_subset;
use crate::filter::retain_valid;
use crate::filter::valid_pred;
use crate::filter::word_ok;
use crate::filter::words_view;
use crate::model::Model;
use crate::model::full_model;
use crate::model::spec_update_model;
use crate::model::spec_yellows;
use crate::model::update_available_letters;

verus! {

/// Are two words the same?
pub fn words_equal(a: &Vec<char>, b: &Vec<char>) -> (r: bool)
    ensures
        r == (a@ == b@),
{
    if a.len() != b.len() {
        return false;
    }
    let mut i: usize = 0;
    while i < a.len()
        invariant
            i <= a@.len(),
            a@.len() == b@.len(),
            forall|j: int| 0 <= j < i ==> a@[j] == b@[j],
        decreases a@.len() - i,
    {
        if a[i] != b[i] {
            return false;
        }
        i += 1;
    }
    proof {
        assert(a@ =~= b@);
    }
    true
}

/// A private working copy of a word list.
fn clone_words(words: &Vec<Vec<char>>) -> (r: Vec<Vec<char>>)
    ensures
        r@.len() == words@.len(),
        forall|k: int| 0 <= k < r@.len() ==> (#[trigger] r@[k])@ == words@[k]@,
        words_view(r@) == words_view(words@),
{
    let mut r: Vec<Vec<char>> = Vec::new();
    let mut i: usize = 0;
    while i < words.len()
        invariant
            i <= words@.len(),
            r@.len() == i,
            forall|k: int| 0 <= k < i ==> (#[trigger] r@[k])@ == words@[k]@,
        decreases words@.len() - i,
    {
        let w = words[i].clone();
        r.push(w);
        i += 1;
    }
    proof {
        assert(words_view(r@) =~= words_view(words@));
    }
    r
}

/// The round count of the adaptive strategy, continued from a session state:
/// `current` is the word about to be guessed, `words` the remaining
/// candidates, `model` the candidate model, and `n` the guesses already
/// spent. Each round guesses `current`, and stops on a hit, when the round
/// cap of twenty is passed, or when no candidate survives the new feedback;
/// otherwise the next guess is the first surviving candidate.
pub open spec fn sim_adaptive(
    target: Seq<char>,
    current: Seq<char>,
    words: Seq<Seq<char>>,
    model: Seq<Set<char>>,
    n: nat,
) -> nat
    decreases 21 - n,
{
    if current == target {
        n + 1
    } else if n + 1 > 20 {
        n + 1
    } else {
        let clues = spec_classify(target, current);
        let m2 = spec_update_model(clues, model);
        let ys = spec_yellows(clues);
        let w2 = words.filter(valid_pred(m2, ys));
        if w2.len() == 0 {
            n + 1
        } else {
            sim_adaptive(target, w2[0], w2, m2, n + 1)
        }
    }
}

/// The adaptive strategy always answers within the round cap: continuing
/// from `n` guesses spent, it reports at least one more guess and at most
/// twenty-one in all.
pub proof fn lemma_sim_adaptive_bounds(
    target: Seq<char>,
    current: Seq<char>,
    words: Seq<Seq<char>>,
    model: Seq<Set<char>>,
    n: nat,
)
    ensures
        n + 1 <= sim_adaptive(target, current, words, model, n),
        sim_adaptive(target, current, words, model, n) <= (if n + 1 > 20 {
            n + 1
        } else {
            21
        }),
    decreases 21 - n,
{
    if current == target {
    } else if n + 1 > 20 {
    } else {
        let clues = spec_classify(target, current);
        let m2 = spec_update_model(clues, model);
        let ys = spec_yellows(clues);
        let w2 = words.filter(valid_pred(m2, ys));
        if w2.len() != 0 {
            lemma_sim_adaptive_bounds(target, w2[0], w2, m2, n + 1);
        }
    }
}

/// Counts the guesses the adaptive strategy spends on a known target: each
/// round it guesses the first remaining word, generates the feedback the
/// player would have entered, updates the model, and filters the remaining
/// words, stopping on a hit, after the twenty-round cap, or when no word
/// survives. The result equals the simulation `sim_adaptive` started on the
/// full word list with an all-open model and no guesses spent.
pub fn guess_word(word_to_guess: &Vec<char>, input_words: &Vec<Vec<char>>) -> (r: u8)
    requires
        input_words@.len() >= 1,
        word_ok(word_to_guess@),
        forall|k: int| 0 <= k < input_words@.len() ==> word_ok((#[trigger] input_words@[k])@),
    ensures
        r as nat == sim_adaptive(
            word_to_guess@,
            input_words@[0]@,
            words_view(input_words@),
            full_model(),
            0,
        ),
        1 <= r <= 21,
        input_words@[0]@ == word_to_guess@ ==> r == 1,
{
    let ghost tv = word_to_guess@;
    let ghost answer = sim_adaptive(
        tv,
        input_words@[0]@,
        words_view(input_words@),
        full_model(),
        0,
    );
    proof {
        lemma_sim_adaptive_bounds(tv, input_words@[0]@, words_view(input_words@), full_model(), 0);
        if input_words@[0]@ == tv {
            assert(answer == 1);
        }
    }

    let mut word_options = Model::all_open();
    let mut valid_words = clone_words(input_words);
    let mut current_guess = valid_words[0].clone();
    let mut n_guesses: u8 = 0;

    loop
        invariant
            word_ok(tv),
            tv == word_to_guess@,
            answer == sim_adaptive(
                tv,
                input_words@[0]@,
                words_view(input_words@),
                full_model(),
                0,
            ),
            input_words@[0]@ == tv ==> answer == 1,
            word_options.wf(),
            n_guesses <= 20,
            forall|k: int| 0 <= k < valid_words@.len() ==> word_ok((#[trigger] valid_words@[k])@),
            word_ok(current_guess@),
            answer == sim_adaptive(
                tv,
                current_guess@,
                words_view(valid_words@),
                word_options@,
                n_guesses as nat,
            ),
            n_guesses as nat + 1 <= answer <= 21,
        decreases 21 - n_guesses,
    {
        let ghost n0 = n_guesses as nat;
        let ghost cur0 = current_guess@;
        let ghost wv0 = words_view(valid_words@);
        let ghost m0 = word_options@;

        n_guesses += 1;

        if words_equal(&current_guess, word_to_guess) {
            proof {
                assert(answer == n0 + 1);
            }
            return n_guesses;
        }

        if n_guesses > 20 {
            proof {
                assert(answer == n0 + 1);
            }
            return n_guesses;
        }

        // Generate what would be the player's feedback for this guess.
        let user_input = mimic_user_input(word_to_guess, &current_guess);

        // Update which letters can still be used where.
        let r = update_available_letters(&user_input, &word_options);
        word_options = r.0;
        let yellow_letters = r.1;

        proof {
            assert forall|m: int| 0 <= m < wv0.len() implies word_ok(#[trigger] wv0[m]) by {
                assert(wv0[m] == (valid_words@[m])@);
            }
        }

        // Keep only the words that remain consistent.
        retain_valid(&mut valid_words, &word_options, &yellow_letters);

        proof {
            let clues = spec_classify(tv, cur0);
            assert(user_input@ == clues);
            assert(word_options@ == spec_update_model(clues, m0));
            assert(yellow_letters@ == spec_yellows(clues));
            assert(words_view(valid_words@) == wv0.filter(
                valid_pred(word_options@, yellow_letters@),
            ));
            assert forall|k: int| 0 <= k < valid_words@.len() implies word_ok(
                (#[trigger] valid_words@[k])@,
            ) by {
                let w = valid_words@[k]@;
                assert(wv0.contains(w));
                let m = choose|m: int| 0 <= m < wv0.len() && wv0[m] == w;
                assert(word_ok(wv0[m]));
            }
        }

        if valid_words.len() == 0 {
            proof {
                assert(answer == n0 + 1);
            }
            return n_guesses;
        }

        current_guess = valid_words[0].clone();

        proof {
            assert(current_guess@ == words_view(valid_words@)[0]);
            assert(answer == sim_adaptive(
                tv,
                current_guess@,
                words_view(valid_words@),
                word_options@,
                n_guesses as nat,
            ));
            lemma_sim_adaptive_bounds(
                tv,
                current_guess@,
                words_view(valid_words@),
                word_options@,
                n_guesses as nat,
            );
        }
    }
}

/// No letter of `a` occurs anywhere in `b`.
pub open spec fn spec_letters_disjoint(a: Seq<char>, b: Seq<char>) -> bool {
    forall|i: int| 0 <= i < a.len() ==> !b.contains(#[trigger] a[i])
}

/// The index of the first word in the list that shares no letter with
/// `first`, or a negative value when there is none: the fixed second opener.
pub open spec fn spec_second_choice(ws: Seq<Seq<char>>, first: Seq<char>) -> int
    decreases ws.len(),
{
    if ws.len() == 0 {
        -1
    } else if spec_letters_disjoint(ws[0], first) {
        0
    } else {
        let rest = spec_second_choice(ws.drop_first(), first);
        if rest < 0 {
            -1
        } else {
            rest + 1
        }
    }
}

proof fn lemma_second_choice_found(ws: Seq<Seq<char>>, first: Seq<char>, i: int)
    requires
        0 <= i < ws.len(),
        spec_letters_disjoint(ws[i], first),
        forall|j: int| 0 <= j < i ==> !spec_letters_disjoint(#[trigger] ws[j], first),
    ensures
        spec_second_choice(ws, first) == i,
    decreases i,
{
    if i > 0 {
        let rest = ws.drop_first();
        assert forall|j: int| 0 <= j < i - 1 implies !spec_letters_disjoint(
            #[trigger] rest[j],
            first,
        ) by {
            assert(rest[j] == ws[j + 1]);
        }
        assert(rest[i - 1] == ws[i]);
        lemma_second_choice_found(rest, first, i - 1);
    }
}

proof fn lemma_second_choice_none(ws: Seq<Seq<char>>, first: Seq<char>)
    requires
        forall|j: int| 0 <= j < ws.len() ==> !spec_letters_disjoint(#[trigger] ws[j], first),
    ensures
        spec_second_choice(ws, first) < 0,
    decreases ws.len(),
{
    if ws.len() > 0 {
        let rest = ws.drop_first();
        assert forall|j: int| 0 <= j < rest.len() implies !spec_letters_disjoint(
            #[trigger] rest[j],
            first,
        ) by {
            assert(rest[j] == ws[j + 1]);
        }
        lemma_second_choice_none(rest, first);
    }
}

/// The chosen second opener shares no letter with the first, and no earlier
/// word does so.
pub proof fn lemma_second_choice_properties(ws: Seq<Seq<char>>, first: Seq<char>)
    ensures
        spec_second_choice(ws, first) >= 0 ==> {
            let i = spec_second_choice(ws, first);
            &&& 0 <= i < ws.len()
            &&& spec_letters_disjoint(ws[i], first)
            &&& forall|j: int| 0 <= j < i ==> !spec_letters_disjoint(#[trigger] ws[j], first)
        },
    decreases ws.len(),
{
    if ws.len() > 0 && !spec_letters_disjoint(ws[0], first) {
        let rest = ws.drop_first();
        lemma_second_choice_properties(rest, first);
        if spec_second_choice(ws, first) >= 0 {
            let i = spec_second_choice(ws, first);
            assert(rest[i - 1] == ws[i]);
            assert forall|j: int| 0 <= j < i implies !spec_letters_disjoint(
                #[trigger] ws[j],
                first,
            ) by {
                if j > 0 {
                    assert(ws[j] == rest[j - 1]);
                }
            }
        }
    }
}

/// Does the candidate word share no letter with `first`?
pub fn letters_disjoint(candidate: &Vec<char>, first: &Vec<char>) -> (r: bool)
    ensures
        r == spec_letters_disjoint(candidate@, first@),
{
    let mut i: usize = 0;
    while i < candidate.len()
        invariant
            i <= candidate@.len(),
            forall|j: int| 0 <= j < i ==> !first@.contains(#[trigger] candidate@[j]),
        decreases candidate@.len() - i,
    {
        if word_contains(first, candidate[i]) {
            return false;
        }
        i += 1;
    }
    true
}

/// Finds the first word of the list that shares no letter with `first`: the
/// fixed second opener, or nothing when every word shares a letter.
pub fn find_second_word(input_words: &Vec<Vec<char>>, first: &Vec<char>) -> (r: Option<usize>)
    ensures
        match r {
            Some(i) => spec_second_choice(words_view(input_words@), first@) == i as int,
            None => spec_second_choice(words_view(input_words@), first@) < 0,
        },
{
    let ghost wv = words_view(input_words@);
    let mut k: usize = 0;
    while k < input_words.len()
        invariant
            k <= input_words@.len(),
            wv == words_view(input_words@),
            forall|j: int| 0 <= j < k ==> !spec_letters_disjoint(#[trigger] wv[j], first@),
        decreases input_words@.len() - k,
    {
        if letters_disjoint(&input_words[k], first) {
            proof {
                assert(wv[k as int] == input_words@[k as int]@);
                lemma_second_choice_found(wv, first@, k as int);
            }
            return Some(k);
        }
        proof {
            assert(wv[k as int] == input_words@[k as int]@);
        }
        k += 1;
    }
    proof {
        lemma_second_choice_none(wv, first@);
    }
    None
}

/// The adaptive tail of the fixed-opener strategy: at most `rounds_left` more
/// rounds, counting from `n` guesses already spent; stops on a hit or when no
/// candidate survives, and otherwise keeps guessing the first survivor.
pub open spec fn sim_fixed_opener_loop(
    target: Seq<char>,
    current: Seq<char>,
    words: Seq<Seq<char>>,
    model: Seq<Set<char>>,
    n: nat,
    rounds_left: nat,
) -> nat
    decreases rounds_left,
{
    if rounds_left == 0 {
        n
    } else if current == target {
        n + 1
    } else {
        let clues = spec_classify(target, current);
        let m2 = spec_update_model(clues, model);
        let ys = spec_yellows(clues);
        let w2 = words.filter(valid_pred(m2, ys));
        if w2.len() == 0 {
            n + 1
        } else {
            sim_fixed_opener_loop(target, w2[0], w2, m2, n + 1, (rounds_left - 1) as nat)
        }
    }
}

/// The adaptive tail spends between zero and `rounds_left` more guesses.
pub proof fn lemma_sim_fixed_opener_loop_bounds(
    target: Seq<char>,
    current: Seq<char>,
    words: Seq<Seq<char>>,
    model: Seq<Set<char>>,
    n: nat,
    rounds_left: nat,
)
    ensures
        n <= sim_fixed_opener_loop(target, current, words, model, n, rounds_left) <= n
            + rounds_left,
    decreases rounds_left,
{
    if rounds_left > 0 && current != target {
        let clues = spec_classify(target, current);
        let m2 = spec_update_model(clues, model);
        let ys = spec_yellows(clues);
        let w2 = words.filter(valid_pred(m2, ys));
        if w2.len() != 0 {
            lemma_sim_fixed_opener_loop_bounds(
                target,
                w2[0],
                w2,
                m2,
                n + 1,
                (rounds_left - 1) as nat,
            );
        }
    }
}

/// The round count of the fixed-opener strategy on the word list `ws`: the
/// first two guesses are the best-ranked word and the first word sharing no
/// letter with it, applied regardless of feedback; a working list narrowed to
/// a single word is charged as solved on the next guess; afterwards the
/// adaptive tail runs for up to four more rounds.
pub open spec fn spec_fixed_opener_rounds(target: Seq<char>, ws: Seq<Seq<char>>) -> nat {
    let best = ws[0];
    let second = ws[spec_second_choice(ws, best)];
    if best == target {
        1
    } else if second == target {
        2
    } else {
        let c1 = spec_classify(target, best);
        let m1 = spec_update_model(c1, full_model());
        let w1 = ws.filter(valid_pred(m1, spec_yellows(c1)));
        if w1.len() == 1 {
            2
        } else {
            let c2 = spec_classify(target, second);
            let m2 = spec_update_model(c2, m1);
            let w2 = w1.filter(valid_pred(m2, spec_yellows(c2)));
            if w2.len() == 1 {
                3
            } else {
                sim_fixed_opener_loop(target, w2[0], w2, m2, 2, 4)
            }
        }
    }
}

/// The fixed-opener strategy consults the working list's first word after its
/// two openers; this asks that a word is then left to consult, unless an
/// earlier stop made the question moot.
pub open spec fn spec_fixed_opener_defined(target: Seq<char>, ws: Seq<Seq<char>>) -> bool {
    let best = ws[0];
    let second = ws[spec_second_choice(ws, best)];
    best != target && second != target ==> {
        let c1 = spec_classify(target, best);
        let m1 = spec_update_model(c1, full_model());
        let w1 = ws.filter(valid_pred(m1, spec_yellows(c1)));
        w1.len() == 1 || {
            let c2 = spec_classify(target, second);
            let m2 = spec_update_model(c2, m1);
            let w2 = w1.filter(valid_pred(m2, spec_yellows(c2)));
            w2.len() >= 1
        }
    }
}

/// A target that the word list holds keeps the fixed-opener simulation
/// supplied with candidates: by self-consistency the target survives every
/// filtering round driven by its own feedback, so the working list never
/// empties before the strategy's bookkeeping is done.
pub proof fn lemma_target_keeps_fixed_opener_defined(target: Seq<char>, ws: Seq<Seq<char>>)
    requires
        ws.len() >= 1,
        word_ok(target),
        forall|k: int| 0 <= k < ws.len() ==> word_ok(#[trigger] ws[k]),
        ws.contains(target),
        spec_second_choice(ws, ws[0]) >= 0,
    ensures
        spec_fixed_opener_defined(target, ws),
{
    let best = ws[0];
    let si = spec_second_choice(ws, best);
    lemma_second_choice_properties(ws, best);
    let second = ws[si];
    if best != target && second != target {
        let c1 = spec_classify(target, best);
        let m1 = spec_update_model(c1, full_model());
        let ys1 = spec_yellows(c1);
        let w1 = ws.filter(valid_pred(m1, ys1));
        assert forall|i: int| 0 <= i < 5 implies (#[trigger] full_model()[i]).contains(
            target[i],
        ) by {}
        lemma_self_consistency(target, best, full_model());
        assert(valid_pred(m1, ys1)(target));
        let ti = choose|ti: int| 0 <= ti < ws.len() && ws[ti] == target;
        Seq::lemma_filter_contains(ws, valid_pred(m1, ys1), ti);
        assert(w1.contains(target));
        if w1.len() != 1 {
            let c2 = spec_classify(target, second);
            let m2 = spec_update_model(c2, m1);
            let ys2 = spec_yellows(c2);
            let w2 = w1.filter(valid_pred(m2, ys2));
            assert(m1.len() == 5);
            lemma_self_consistency(target, second, m1);
            assert(valid_pred(m2, ys2)(target));
            let ti1 = choose|ti1: int| 0 <= ti1 < w1.len() && w1[ti1] == target;
            Seq::lemma_filter_contains(w1, valid_pred(m2, ys2), ti1);
            assert(w2.contains(target));
            assert(w2.len() >= 1);
        }
    }
}

/// Counts the guesses of the fixed-opener strategy on a known target: the
/// best-ranked word first, then the first word sharing no letter with it,
/// each applied with its feedback regardless of outcome, then the adaptive
/// strategy for up to four more rounds. The result equals the simulation
/// `spec_fixed_opener_rounds` on the word list. The list must hold a word
/// disjoint from its first word, and `spec_fixed_opener_defined` must hold so
/// that a candidate is left when the strategy consults the working list; a
/// target the list itself holds always satisfies that (see
/// `lemma_target_keeps_fixed_opener_defined`).
pub fn guess_word_method_2(word_to_guess: &Vec<char>, input_words: &Vec<Vec<char>>) -> (r: u8)
    requires
        input_words@.len() >= 1,
        word_ok(word_to_guess@),
        forall|k: int| 0 <= k < input_words@.len() ==> word_ok((#[trigger] input_words@[k])@),
        spec_second_choice(words_view(input_words@), input_words@[0]@) >= 0,
        spec_fixed_opener_defined(word_to_guess@, words_view(input_words@)),
    ensures
        r as nat == spec_fixed_opener_rounds(word_to_guess@, words_view(input_words@)),
        1 <= r <= 6,
        input_words@[0]@ == word_to_guess@ <==> r == 1,
{
    let ghost tv = word_to_guess@;
    let ghost wv = words_view(input_words@);
    let ghost answer = spec_fixed_opener_rounds(tv, wv);

    let mut valid_words = clone_words(input_words);
    let mut word_options = Model::all_open();

    // The two fixed openers: the best-ranked word, then the first word that
    // shares no letter with it.
    let best_starting_word = input_words[0].clone();
    let second_idx: usize = match find_second_word(input_words, &best_starting_word) {
        Some(i) => i,
        None => 0,
    };
    proof {
        assert(wv[0] == input_words@[0]@);
        assert(second_idx as int == spec_second_choice(wv, wv[0]));
        lemma_second_choice_properties(wv, wv[0]);
    }
    let second_word = input_words[second_idx].clone();
    let ghost si = spec_second_choice(wv, wv[0]);
    proof {
        assert(second_word@ == wv[si]);
    }

    // A hit on either opener ends the game there.
    if words_equal(&best_starting_word, word_to_guess) {
        return 1;
    }
    if words_equal(&second_word, word_to_guess) {
        return 2;
    }

    // First opener: generate its feedback and narrow the working list.
    let user_input = mimic_user_input(word_to_guess, &best_starting_word);
    let r1 = update_available_letters(&user_input, &word_options);
    word_options = r1.0;
    let yellow_letters = r1.1;
    proof {
        assert forall|m: int| 0 <= m < wv.len() implies word_ok(#[trigger] wv[m]) by {
            assert(wv[m] == (input_words@[m])@);
        }
        assert(words_view(valid_words@) == wv);
    }
    retain_valid(&mut valid_words, &word_options, &yellow_letters);
    let ghost c1 = spec_classify(tv, wv[0]);
    let ghost m1 = spec_update_model(c1, full_model());
    let ghost w1 = wv.filter(valid_pred(m1, spec_yellows(c1)));
    proof {
        assert(user_input@ == c1);
        assert(word_options@ == m1);
        assert(words_view(valid_words@) == w1);
        assert forall|k: int| 0 <= k < valid_words@.len() implies word_ok(
            (#[trigger] valid_words@[k])@,
        ) by {
            let w = valid_words@[k]@;
            assert(wv.contains(w));
            let m = choose|m: int| 0 <= m < wv.len() && wv[m] == w;
            assert(word_ok(wv[m]));
        }
    }

    // If one word is left, it must be the answer: two guesses in all.
    if valid_words.len() == 1 {
        proof {
            assert(answer == 2);
        }
        return 2;
    }

    // Second opener, regardless of the first round's outcome.
    let user_input = mimic_user_input(word_to_guess, &second_word);
    let r2 = update_available_letters(&user_input, &word_options);
    word_options = r2.0;
    let yellow_letters = r2.1;
    proof {
        let wv1 = words_view(valid_words@);
        assert forall|m: int| 0 <= m < wv1.len() implies word_ok(#[trigger] wv1[m]) by {
            assert(wv1[m] == (valid_words@[m])@);
        }
    }
    retain_valid(&mut valid_words, &word_options, &yellow_letters);
    let ghost c2 = spec_classify(tv, wv[si]);
    let ghost m2 = spec_update_model(c2, m1);
    let ghost w2 = w1.filter(valid_pred(m2, spec_yellows(c2)));
    proof {
        assert(user_input@ == c2);
        assert(word_options@ == m2);
        assert(words_view(valid_words@) == w2);
        assert forall|k: int| 0 <= k < valid_words@.len() implies word_ok(
            (#[trigger] valid_words@[k])@,
        ) by {
            let w = valid_words@[k]@;
            assert(w1.contains(w));
            lemma_filter_subset(wv, valid_pred(m1, spec_yellows(c1)));
            assert(wv.contains(w));
            let m = choose|m: int| 0 <= m < wv.len() && wv[m] == w;
            assert(word_ok(wv[m]));
        }
    }

    if valid_words.len() == 1 {
        proof {
            assert(answer == 3);
        }
        return 3;
    }

    // The strategy's preconditions leave a candidate to consult here.
    proof {
        assert(w2.len() >= 1);
    }
    let mut current_guess = valid_words[0].clone();
    let mut n_guesses: u8 = 2;
    let mut round: u8 = 1;

    proof {
        assert(answer == sim_fixed_opener_loop(
            tv,
            current_guess@,
            words_view(valid_words@),
            word_options@,
            2,
            4,
        ));
        lemma_sim_fixed_opener_loop_bounds(
            tv,
            current_guess@,
            words_view(valid_words@),
            word_options@,
            2,
            4,
        );
    }

    // The adaptive tail: up to four more rounds.
    while round <= 4
        invariant
            1 <= round <= 5,
            n_guesses == round + 1,
            word_ok(tv),
            tv == word_to_guess@,
            answer == spec_fixed_opener_rounds(tv, words_view(input_words@)),
            input_words@[0]@ != tv,
            word_options.wf(),
            forall|k: int| 0 <= k < valid_words@.len() ==> word_ok((#[trigger] valid_words@[k])@),
            word_ok(current_guess@),
            answer == sim_fixed_opener_loop(
                tv,
                current_guess@,
                words_view(valid_words@),
                word_options@,
                n_guesses as nat,
                (5 - round) as nat,
            ),
            n_guesses as nat <= answer <= 6,
        decreases 5 - round,
    {
        let ghost n0 = n_guesses as nat;
        let ghost cur0 = current_guess@;
        let ghost wv0 = words_view(valid_words@);
        let ghost m0 = word_options@;
        let ghost rl0 = (5 - round) as nat;

        n_guesses += 1;

        if words_equal(&current_guess, word_to_guess) {
            proof {
                assert(answer == n0 + 1);
            }
            return n_guesses;
        }

        let user_input = mimic_user_input(word_to_guess, &current_guess);
        let rr = update_available_letters(&user_input, &word_options);
        word_options = rr.0;
        let yellow_letters = rr.1;
        proof {
            assert forall|m: int| 0 <= m < wv0.len() implies word_ok(#[trigger] wv0[m]) by {
                assert(wv0[m] == (valid_words@[m])@);
            }
        }
        retain_valid(&mut valid_words, &word_options, &yellow_letters);
        proof {
            let clues = spec_classify(tv, cur0);
            assert(user_input@ == clues);
            assert(word_options@ == spec_update_model(clues, m0));
            assert(yellow_letters@ == spec_yellows(clues));
            assert(words_view(valid_words@) == wv0.filter(
                valid_pred(word_options@, yellow_letters@),
            ));
            assert forall|k: int| 0 <= k < valid_words@.len() implies word_ok(
                (#[trigger] valid_words@[k])@,
            ) by {
                let w = valid_words@[k]@;
                assert(wv0.contains(w));
                let m = choose|m: int| 0 <= m < wv0.len() && wv0[m] == w;
                assert(word_ok(wv0[m]));
            }
        }

        if valid_words.len() == 0 {
            proof {
                assert(answer == n0 + 1);
            }
            return n_guesses;
        }

        current_guess = valid_words[0].clone();
        proof {
            assert(current_guess@ == words_view(valid_words@)[0]);
            assert(answer == sim_fixed_opener_loop(
                tv,
                current_guess@,
                words_view(valid_words@),
                word_options@,
                n_guesses as nat,
                (rl0 - 1) as nat,
            ));
            lemma_sim_fixed_opener_loop_bounds(
                tv,
                current_guess@,
                words_view(valid_words@),
                word_options@,
                n_guesses as nat,
                (rl0 - 1) as nat,
            );
        }
        round += 1;
    }

    proof {
        assert(answer == n_guesses as nat);
    }
    n_guesses
}

} // verus!
