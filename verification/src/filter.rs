use vstd::prelude::*;

use crate::letters::is_letter;
use crate::model::Model;

verus! {

/// A well-formed puzzle word: exactly five lowercase ASCII letters.
pub open spec fn word_ok(w: Seq<char>) -> bool {
    w.len() == 5 && forall|i: int| 0 <= i < 5 ==> is_letter(#[trigger] w[i])
}

/// The word lists as mathematical sequences of character sequences.
pub open spec fn words_view(ws: Seq<Vec<char>>) -> Seq<Seq<char>> {
    ws.map_values(|w: Vec<char>| w@)
}

/// One exclusion entry is met: the letter occurs in the word somewhere other
/// than the excluded position.
pub open spec fn spec_exclusion_ok(w: Seq<char>, e: (usize, char)) -> bool {
    exists|i: int| 0 <= i < w.len() && i != e.0 as int && w[i] == e.1
}

/// A word is consistent with the feedback so far: every exclusion entry's
/// letter appears elsewhere in the word, and every position holds a letter
/// the model still allows there.
pub open spec fn spec_word_valid(w: Seq<char>, model: Seq<Set<char>>, ys: Seq<(usize, char)>) -> bool {
    &&& forall|k: int| 0 <= k < ys.len() ==> spec_exclusion_ok(w, #[trigger] ys[k])
    &&& forall|i: int| 0 <= i < model.len() ==> (#[trigger] model[i]).contains(w[i])
}

/// The word-filtering predicate for a fixed model and exclusion record.
pub open spec fn valid_pred(model: Seq<Set<char>>, ys: Seq<(usize, char)>) -> spec_fn(
    Seq<char>,
) -> bool {
    |w: Seq<char>| spec_word_valid(w, model, ys)
}

/// Decides whether `s` is consistent with the candidate model and the
/// exclusion record: exclusion entries are checked first, then each
/// position's letter against its candidate set.
pub fn word_is_valid(s: &Vec<char>, word_options: &Model, yellow_letters: &Vec<(usize, char)>) -> (r:
    bool)
    requires
        s@.len() == 5,
        word_options.wf(),
    ensures
        r == spec_word_valid(s@, word_options@, yellow_letters@),
{
    // Every yellow letter must appear, and not only at its excluded position.
    let mut k: usize = 0;
    while k < yellow_letters.len()
        invariant
            k <= yellow_letters@.len(),
            s@.len() == 5,
            word_options.wf(),
            forall|m: int| 0 <= m < k ==> spec_exclusion_ok(s@, #[trigger] yellow_letters@[m]),
        decreases yellow_letters@.len() - k,
    {
        let (bad_idx, letter) = yellow_letters[k];
        let mut found = false;
        let mut i: usize = 0;
        while i < 5
            invariant
                i <= 5,
                s@.len() == 5,
                found ==> spec_exclusion_ok(s@, (bad_idx, letter)),
                !found ==> forall|m: int|
                    0 <= m < i && m != bad_idx as int ==> s@[m] != letter,
            decreases 5 - i,
        {
            if i != bad_idx && s[i] == letter {
                found = true;
            }
            i += 1;
        }
        if !found {
            proof {
                assert(!spec_exclusion_ok(s@, yellow_letters@[k as int]));
            }
            return false;
        }
        k += 1;
    }

    // Every position's letter must still be allowed there.
    let mut i: usize = 0;
    while i < 5
        invariant
            i <= 5,
            s@.len() == 5,
            word_options.wf(),
            forall|k: int| 0 <= k < yellow_letters@.len() ==> spec_exclusion_ok(
                s@,
                #[trigger] yellow_letters@[k],
            ),
            forall|m: int| 0 <= m < i ==> (#[trigger] word_options@[m]).contains(s@[m]),
        decreases 5 - i,
    {
        if !word_options.allows(i, s[i]) {
            return false;
        }
        i += 1;
    }
    true
}

/// Keeps exactly the words consistent with the model and the exclusion
/// record, in their original order. The list never grows, and every survivor
/// comes from the input list.
pub fn retain_valid(words: &mut Vec<Vec<char>>, word_options: &Model, yellow_letters: &Vec<(usize, char)>)
    requires
        forall|k: int| 0 <= k < old(words)@.len() ==> (#[trigger] old(words)@[k])@.len() == 5,
        word_options.wf(),
    ensures
        words_view(final(words)@) == words_view(old(words)@).filter(
            valid_pred(word_options@, yellow_letters@),
        ),
        final(words)@.len() <= old(words)@.len(),
        forall|j: int|
            0 <= j < final(words)@.len() ==> words_view(old(words)@).contains(
                (#[trigger] final(words)@[j])@,
            ),
{
    let ghost orig = words@;
    let ghost pred = valid_pred(word_options@, yellow_letters@);
    let mut kept: Vec<Vec<char>> = Vec::new();
    let mut i: usize = 0;
    while i < words.len()
        invariant
            i <= words@.len(),
            words@ == orig,
            word_options.wf(),
            forall|k: int| 0 <= k < orig.len() ==> (#[trigger] orig[k])@.len() == 5,
            pred == valid_pred(word_options@, yellow_letters@),
            words_view(kept@) == words_view(orig.take(i as int)).filter(pred),
            forall|j: int|
                0 <= j < kept@.len() ==> words_view(orig).contains((#[trigger] kept@[j])@),
        decreases words@.len() - i,
    {
        let ghost kept0 = kept@;
        let valid = word_is_valid(&words[i], word_options, yellow_letters);
        if valid {
            let w = words[i].clone();
            kept.push(w);
            proof {
                assert(words_view(orig)[i as int] == orig[i as int]@);
                assert(words_view(orig).contains((kept@[kept@.len() - 1])@));
            }
        }
        proof {
            let w = orig[i as int]@;
            let shorter = words_view(orig.take(i as int));
            let longer = words_view(orig.take(i as int + 1));
            assert(longer =~= shorter + seq![w]);
            Seq::filter_distributes_over_add(shorter, seq![w], pred);
            reveal(Seq::filter);
            assert(seq![w].drop_last() =~= Seq::<Seq<char>>::empty());
            assert(seq![w].filter(pred) == Seq::<Seq<char>>::empty().filter(pred) + (if pred(
                seq![w].last(),
            ) {
                seq![seq![w].last()]
            } else {
                Seq::empty()
            }));
            assert(Seq::<Seq<char>>::empty().filter(pred) =~= Seq::<Seq<char>>::empty());
            assert(pred(w) == valid);
            if valid {
                assert(seq![w].filter(pred) =~= seq![w]);
                assert(words_view(kept@) =~= words_view(kept0).push(w));
                assert(words_view(kept0).push(w) =~= shorter.filter(pred) + seq![w]);
            } else {
                assert(seq![w].filter(pred) =~= Seq::<Seq<char>>::empty());
                assert(words_view(kept@) =~= words_view(kept0));
                assert(longer.filter(pred) =~= shorter.filter(pred));
            }
            assert(words_view(kept@) =~= longer.filter(pred));
        }
        i += 1;
    }
    proof {
        assert(orig.take(words@.len() as int) =~= orig);
        Seq::lemma_filter_len(words_view(orig), pred);
        assert(words_view(orig).len() == orig.len());
    }
    *words = kept;
    proof {
        assert forall|j: int| 0 <= j < words@.len() implies words_view(orig).contains(
            (#[trigger] words@[j])@,
        ) by {
            assert((words@[j])@ == (kept@[j])@);
        }
    }
}

/// Every word a filtered list keeps satisfies the filtering predicate, and a
/// list whose words all satisfy it is kept whole.
pub proof fn lemma_filter_all_hold<A>(s: Seq<A>, pred: spec_fn(A) -> bool)
    requires
        forall|i: int| 0 <= i < s.len() ==> pred(#[trigger] s[i]),
    ensures
        s.filter(pred) == s,
    decreases s.len(),
{
    reveal(Seq::filter);
    if s.len() == 0 {
        assert(s.filter(pred) =~= s);
    } else {
        lemma_filter_all_hold(s.drop_last(), pred);
        assert(s.filter(pred) =~= s);
    }
}

/// Filtering is idempotent: re-applying the word filter with the same model
/// and exclusion record to an already-filtered list returns it unchanged.
pub proof fn lemma_retain_valid_idempotent(
    ws: Seq<Seq<char>>,
    model: Seq<Set<char>>,
    ys: Seq<(usize, char)>,
)
    ensures
        ws.filter(valid_pred(model, ys)).filter(valid_pred(model, ys)) == ws.filter(
            valid_pred(model, ys),
        ),
{
    let pred = valid_pred(model, ys);
    let once = ws.filter(pred);
    assert forall|i: int| 0 <= i < once.len() implies pred(#[trigger] once[i]) by {
        Seq::lemma_filter_pred(ws, pred, i);
    }
    lemma_filter_all_hold(once, pred);
}

/// Everything a filtered list holds, the unfiltered list holds.
pub proof fn lemma_filter_subset<A>(s: Seq<A>, pred: spec_fn(A) -> bool)
    ensures
        forall|x: A| s.filter(pred).contains(x) ==> s.contains(x),
    decreases s.len(),
{
    reveal(Seq::filter);
    if s.len() > 0 {
        lemma_filter_subset(s.drop_last(), pred);
        assert forall|x: A| s.filter(pred).contains(x) implies s.contains(x) by {
            let fs = s.filter(pred);
            let pfs = s.drop_last().filter(pred);
            let k = choose|k: int| 0 <= k < fs.len() && fs[k] == x;
            if k < pfs.len() {
                assert(pfs[k] == x);
                assert(s.drop_last().contains(x));
                let m = choose|m: int| 0 <= m < s.drop_last().len() && s.drop_last()[m] == x;
                assert(s[m] == x);
            } else {
                assert(s[s.len() - 1] == x);
            }
        }
    }
}

} // verus!
