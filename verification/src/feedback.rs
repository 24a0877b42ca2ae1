use vstd::prelude::*;

use crate::filter::spec_exclusion_ok;
use crate::filter::spec_word_valid;
use crate::model::lemma_yellows_elements;
use crate::model::spec_black;
use crate::model::spec_update_model;
use crate::model::spec_updated_slot;
use crate::model::spec_yellows;

verus! {

/// The feedback a player would get for `guess` against `correct`: per
/// position, green on an exact match, yellow when the letter occurs anywhere
/// in the target, black otherwise. This is a position-only check: duplicate
/// letters spend no budget, so a letter the target holds once can be marked
/// yellow at several positions of one guess.
pub open spec fn spec_classify(correct: Seq<char>, guess: Seq<char>) -> Seq<(char, char)> {
    Seq::new(
        guess.len(),
        |i: int|
            (
                guess[i],
                if guess[i] == correct[i] {
                    'g'
                } else if correct.contains(guess[i]) {
                    'y'
                } else {
                    'b'
                },
            ),
    )
}

/// Does the word hold the character anywhere?
pub fn word_contains(w: &Vec<char>, c: char) -> (r: bool)
    ensures
        r == w@.contains(c),
{
    let mut i: usize = 0;
    while i < w.len()
        invariant
            i <= w@.len(),
            forall|j: int| 0 <= j < i ==> w@[j] != c,
        decreases w@.len() - i,
    {
        if w[i] == c {
            proof {
                assert(w@[i as int] == c);
            }
            return true;
        }
        i += 1;
    }
    false
}

/// Generates the feedback a player would have entered for `current_guess`
/// when the answer is `correct_word` (used by the simulator in place of a
/// live player).
pub fn mimic_user_input(correct_word: &Vec<char>, current_guess: &Vec<char>) -> (r: Vec<(char, char)>)
    requires
        correct_word@.len() == 5,
        current_guess@.len() == 5,
    ensures
        r@ == spec_classify(correct_word@, current_guess@),
{
    let mut r: Vec<(char, char)> = Vec::new();
    let mut i: usize = 0;
    while i < 5
        invariant
            i <= 5,
            correct_word@.len() == 5,
            current_guess@.len() == 5,
            r@.len() == i,
            forall|j: int| 0 <= j < i ==> r@[j] == spec_classify(correct_word@, current_guess@)[j],
        decreases 5 - i,
    {
        let guessed_letter = current_guess[i];
        let correct_letter = correct_word[i];
        if guessed_letter == correct_letter {
            r.push((guessed_letter, 'g'));
        } else if word_contains(correct_word, guessed_letter) {
            r.push((guessed_letter, 'y'));
        } else {
            r.push((guessed_letter, 'b'));
        }
        i += 1;
    }
    proof {
        assert(r@ =~= spec_classify(correct_word@, current_guess@));
    }
    r
}

/// Self-consistency of the engine: feedback generated from a target never
/// filters that target out. If the model still allows the target at every
/// position, then after updating the model with the clues `classify(target,
/// guess)` produces, the target is still a valid word under the new model and
/// the round's exclusion record.
pub proof fn lemma_self_consistency(target: Seq<char>, guess: Seq<char>, model: Seq<Set<char>>)
    requires
        target.len() == 5,
        guess.len() == 5,
        model.len() == 5,
        forall|i: int| 0 <= i < 5 ==> (#[trigger] model[i]).contains(target[i]),
    ensures
        spec_word_valid(
            target,
            spec_update_model(spec_classify(target, guess), model),
            spec_yellows(spec_classify(target, guess)),
        ),
{
    let clues = spec_classify(target, guess);
    let updated = spec_update_model(clues, model);
    let ys = spec_yellows(clues);

    // No clue letter of the target is ever marked black.
    assert forall|c: char| spec_black(clues, c) implies !target.contains(c) by {
        let j = choose|j: int| 0 <= j < clues.len() && clues[j].1 == 'b' && clues[j].0 == c;
        assert(clues[j].0 == guess[j]);
    }

    // Position check: the target's letter survives at every position.
    assert forall|i: int| 0 <= i < updated.len() implies (#[trigger] updated[i]).contains(
        target[i],
    ) by {
        assert(updated[i] == spec_updated_slot(clues, model[i], i));
        if clues[i].1 == 'g' {
            assert(guess[i] == target[i]);
        } else {
            assert(target.contains(target[i]));
            assert(!spec_black(clues, target[i]));
            if clues[i].1 == 'y' {
                assert(guess[i] != target[i]);
                assert(clues[i].0 == guess[i]);
            }
        }
    }

    // Exclusion check: each yellow clue's letter occurs in the target away
    // from the excluded position.
    lemma_yellows_elements(clues);
    assert forall|k: int| 0 <= k < ys.len() implies spec_exclusion_ok(target, #[trigger] ys[k]) by {
        let e = ys[k];
        let p = e.0 as int;
        assert(clues[p].1 == 'y' && clues[p].0 == e.1);
        assert(e.1 == guess[p]);
        assert(guess[p] != target[p]);
        assert(target.contains(guess[p]));
        let w = choose|w: int| 0 <= w < target.len() && target[w] == guess[p];
        assert(w != p);
        assert(0 <= w < target.len() && w != e.0 as int && target[w] == e.1);
    }
}

} // verus!
