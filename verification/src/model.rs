use vstd::prelude::*;

use crate::letters::LetterSet;
use crate::letters::is_letter;
use crate::letters::lemma_card_subset;

verus! {

/// The candidate model: for each of the five positions of the word, the set
/// of letters still allowed there. Its view is the sequence of those five
/// sets of characters.
pub struct Model {
    slots: Vec<LetterSet>,
}

impl Model {
    /// Structural invariant: five slots, each well formed.
    pub closed spec fn wf(self) -> bool {
        &&& self.slots@.len() == 5
        &&& forall|p: int| 0 <= p < 5 ==> (#[trigger] self.slots@[p]).wf()
    }

    /// The candidate letter set at position `p`.
    pub closed spec fn slot(self, p: int) -> LetterSet {
        self.slots@[p]
    }

    /// The model with every letter allowed at every position.
    pub fn all_open() -> (r: Model)
        ensures
            r.wf(),
            r@ == full_model(),
            forall|p: int| 0 <= p < 5 ==> (#[trigger] r.slot(p)).card() == 26,
    {
        let mut slots: Vec<LetterSet> = Vec::new();
        let mut p: usize = 0;
        while p < 5
            invariant
                p <= 5,
                slots@.len() == p,
                forall|q: int| 0 <= q < p ==> (#[trigger] slots@[q]).wf()
                    && slots@[q].card() == 26 && (forall|c: char| slots@[q].has(c) <==> is_letter(
                    c,
                )),
            decreases 5 - p,
        {
            slots.push(LetterSet::full());
            p += 1;
        }
        let r = Model { slots };
        proof {
            assert forall|p: int| 0 <= p < 5 implies r@[p] == full_model()[p] by {
                assert(r.slot(p).chars() =~= Set::new(|c: char| is_letter(c)));
            }
            assert(r@ =~= full_model());
        }
        r
    }

    /// Does position `p` still allow the letter `c`?
    pub fn allows(&self, p: usize, c: char) -> (r: bool)
        requires
            self.wf(),
            p < 5,
        ensures
            r == self@[p as int].contains(c),
    {
        self.slots[p].contains(c)
    }
}

impl View for Model {
    type V = Seq<Set<char>>;

    open spec fn view(&self) -> Seq<Set<char>> {
        Seq::new(5, |p: int| self.slot(p).chars())
    }
}

/// The model with every letter allowed at every position.
pub open spec fn full_model() -> Seq<Set<char>> {
    Seq::new(5, |p: int| Set::new(|c: char| is_letter(c)))
}

/// A letter the feedback marked black somewhere in the round: the puzzle's
/// rules make such a letter wholly absent from the answer.
pub open spec fn spec_black(clues: Seq<(char, char)>, c: char) -> bool {
    exists|j: int| 0 <= j < clues.len() && clues[j].1 == 'b' && clues[j].0 == c
}

/// The exclusion record of a round: the positions and letters of its yellow
/// clues, in position order.
pub open spec fn spec_yellows(clues: Seq<(char, char)>) -> Seq<(usize, char)>
    decreases clues.len(),
{
    if clues.len() == 0 {
        Seq::empty()
    } else {
        spec_yellows(clues.drop_last()) + (if clues.last().1 == 'y' {
            seq![((clues.len() - 1) as usize, clues.last().0)]
        } else {
            Seq::empty()
        })
    }
}

/// What one round of feedback leaves allowed at position `p`: a green clue
/// collapses the slot to its letter; otherwise the black letters are removed
/// everywhere and a yellow clue's letter is removed at its own position.
pub open spec fn spec_updated_slot(clues: Seq<(char, char)>, slot: Set<char>, p: int) -> Set<
    char,
> {
    if clues[p].1 == 'g' {
        Set::new(|c: char| c == clues[p].0)
    } else {
        Set::new(
            |c: char|
                slot.contains(c) && !spec_black(clues, c) && !(clues[p].1 == 'y' && c
                    == clues[p].0),
        )
    }
}

/// The whole model after one round of feedback.
pub open spec fn spec_update_model(clues: Seq<(char, char)>, model: Seq<Set<char>>) -> Seq<
    Set<char>,
> {
    Seq::new(model.len(), |p: int| spec_updated_slot(clues, model[p], p))
}

/// Every entry of the exclusion record is a yellow clue of the round, at its
/// own position.
pub proof fn lemma_yellows_elements(clues: Seq<(char, char)>)
    requires
        clues.len() <= usize::MAX,
    ensures
        forall|k: int|
            0 <= k < spec_yellows(clues).len() ==> {
                let e = #[trigger] spec_yellows(clues)[k];
                &&& (e.0 as int) < clues.len()
                &&& clues[e.0 as int].1 == 'y'
                &&& clues[e.0 as int].0 == e.1
            },
    decreases clues.len(),
{
    if clues.len() > 0 {
        let pre = clues.drop_last();
        lemma_yellows_elements(pre);
        let ys = spec_yellows(clues);
        let pys = spec_yellows(pre);
        assert forall|k: int|
            0 <= k < ys.len() implies {
                let e = #[trigger] ys[k];
                &&& (e.0 as int) < clues.len()
                &&& clues[e.0 as int].1 == 'y'
                &&& clues[e.0 as int].0 == e.1
            } by {
            if k < pys.len() {
                assert(ys[k] == pys[k]);
                let e = pys[k];
                assert(pre[e.0 as int] == clues[e.0 as int]);
            } else {
                assert(clues.last().1 == 'y');
                assert(ys[k] == ((clues.len() - 1) as usize, clues.last().0));
            }
        }
    }
}

/// Applies a round of feedback to the candidate model. Each clue is a pair of
/// the guessed letter and its mark: 'b' for black, 'y' for yellow, 'g' for
/// green; any other mark leaves the model untouched at that position. Returns
/// the updated model together with the round's exclusion record (the yellow
/// clues). Black removal is global, yellow removal per position, and a green
/// clue overrides everything else at its position, so a candidate set can
/// only lose letters — the returned cardinality clause states that shrink.
pub fn update_available_letters(new_words: &Vec<(char, char)>, word_options: &Model) -> (r: (
    Model,
    Vec<(usize, char)>,
))
    requires
        new_words@.len() == 5,
        forall|i: int| 0 <= i < 5 ==> is_letter(#[trigger] new_words@[i].0),
        word_options.wf(),
    ensures
        r.0.wf(),
        r.0@ == spec_update_model(new_words@, word_options@),
        r.1@ == spec_yellows(new_words@),
        forall|p: int|
            0 <= p < 5 && new_words@[p].1 == 'g' ==> (#[trigger] r.0.slot(p)).card() == 1 && (
            forall|c: char| r.0.slot(p).has(c) <==> c == new_words@[p].0),
        forall|p: int|
            0 <= p < 5 && word_options.slot(p).card() >= 1 ==> (#[trigger] r.0.slot(p)).card()
                <= word_options.slot(p).card(),
{
    // Gather the black letters of the round.
    let mut black = LetterSet::empty_set();
    let mut i: usize = 0;
    while i < 5
        invariant
            i <= 5,
            new_words@.len() == 5,
            forall|k: int| 0 <= k < 5 ==> is_letter(#[trigger] new_words@[k].0),
            black.wf(),
            forall|c: char| black.has(c) <==> spec_black(new_words@.take(i as int), c),
        decreases 5 - i,
    {
        let ghost prefix = new_words@.take(i as int);
        if new_words[i].1 == 'b' {
            black.insert(new_words[i].0);
        }
        proof {
            let longer = new_words@.take(i as int + 1);
            assert(longer.drop_last() =~= prefix);
            assert forall|c: char| black.has(c) <==> spec_black(longer, c) by {
                if spec_black(longer, c) {
                    let j = choose|j: int|
                        0 <= j < longer.len() && longer[j].1 == 'b' && longer[j].0 == c;
                    if j < i {
                        assert(spec_black(prefix, c));
                    }
                }
                if spec_black(prefix, c) {
                    let j = choose|j: int|
                        0 <= j < prefix.len() && prefix[j].1 == 'b' && prefix[j].0 == c;
                    assert(longer[j].1 == 'b' && longer[j].0 == c);
                }
                if black.has(c) && !spec_black(prefix, c) {
                    assert(longer[i as int].1 == 'b' && longer[i as int].0 == c);
                }
            }
        }
        i += 1;
    }
    proof {
        assert(new_words@.take(5) =~= new_words@);
    }

    // Gather the yellow clues: the round's exclusion record.
    let mut yellow_letters: Vec<(usize, char)> = Vec::new();
    let mut i: usize = 0;
    while i < 5
        invariant
            i <= 5,
            new_words@.len() == 5,
            yellow_letters@ == spec_yellows(new_words@.take(i as int)),
        decreases 5 - i,
    {
        let ghost prefix = new_words@.take(i as int);
        if new_words[i].1 == 'y' {
            yellow_letters.push((i, new_words[i].0));
        }
        proof {
            let longer = new_words@.take(i as int + 1);
            assert(longer.drop_last() =~= prefix);
            assert(longer.last() == new_words@[i as int]);
            if new_words@[i as int].1 == 'y' {
                assert(yellow_letters@ =~= spec_yellows(longer));
            } else {
                assert(yellow_letters@ =~= spec_yellows(longer));
            }
        }
        i += 1;
    }
    proof {
        assert(new_words@.take(5) =~= new_words@);
    }

    // Rebuild each position's candidate set: black removal first, then the
    // position's own yellow removal, then a green override.
    let mut slots: Vec<LetterSet> = Vec::new();
    let mut p: usize = 0;
    while p < 5
        invariant
            p <= 5,
            new_words@.len() == 5,
            forall|k: int| 0 <= k < 5 ==> is_letter(#[trigger] new_words@[k].0),
            word_options.wf(),
            black.wf(),
            forall|c: char| black.has(c) <==> spec_black(new_words@, c),
            slots@.len() == p,
            forall|q: int|
                0 <= q < p ==> (#[trigger] slots@[q]).wf() && slots@[q].chars()
                    == spec_updated_slot(new_words@, word_options@[q], q),
            forall|q: int|
                0 <= q < p && new_words@[q].1 == 'g' ==> (#[trigger] slots@[q]).card() == 1 && (
                forall|c: char| slots@[q].has(c) <==> c == new_words@[q].0),
            forall|q: int|
                0 <= q < p && word_options.slot(q).card() >= 1 ==> (#[trigger] slots@[q]).card()
                    <= word_options.slot(q).card(),
        decreases 5 - p,
    {
        let mut s = word_options.slots[p].duplicate();
        s.remove_all(&black);
        if new_words[p].1 == 'y' {
            s.remove(new_words[p].0);
        }
        if new_words[p].1 == 'g' {
            s = LetterSet::singleton(new_words[p].0);
        }
        proof {
            let clue = new_words@[p as int];
            let before = word_options@[p as int];
            let target_set = spec_updated_slot(new_words@, before, p as int);
            assert(before == word_options.slot(p as int).chars());
            assert forall|c: char| s.has(c) == target_set.contains(c) by {
                if clue.1 == 'g' {
                    assert(target_set.contains(c) == (c == clue.0));
                } else {
                    assert(target_set.contains(c) == (before.contains(c) && !spec_black(
                        new_words@,
                        c,
                    ) && !(clue.1 == 'y' && c == clue.0)));
                    assert(before.contains(c) == word_options.slot(p as int).has(c));
                }
            }
            assert(s.chars() =~= target_set);
            if clue.1 != 'g' {
                assert forall|c: char| s.has(c) implies word_options.slot(p as int).has(c) by {}
                lemma_card_subset(s, word_options.slot(p as int));
            }
        }
        slots.push(s);
        p += 1;
    }
    let updated = Model { slots };
    proof {
        assert forall|q: int| 0 <= q < 5 implies updated@[q] == spec_update_model(
            new_words@,
            word_options@,
        )[q] by {}
        assert(updated@ =~= spec_update_model(new_words@, word_options@));
    }
    (updated, yellow_letters)
}

} // verus!
