use vstd::prelude::*;

use itertools::Itertools;

use crate::filter::word_ok;
use crate::filter::words_view;
use crate::letters::is_letter;
use crate::letters::letter_index;

verus! {

/// A letter reached the scorer that the frequency table does not know: the
/// table is built from the same dictionary as the words it scores, so this
/// signals inconsistent data, not user error.
#[derive(Debug, Clone, Copy, PartialEq, Eq)]
pub struct UnknownLetterError {
    pub letter: char,
}

/// The letter frequency table: a read-only map from lowercase letters to
/// numeric weights, viewed as a `Map<char, usize>`.
pub struct FreqTable {
    entries: Vec<Option<usize>>,
}

impl FreqTable {
    /// Structural invariant: one entry per letter of the alphabet.
    pub closed spec fn wf(self) -> bool {
        self.entries@.len() == 26
    }

    /// The table with no letters known.
    pub fn new() -> (r: FreqTable)
        ensures
            r.wf(),
            r@ == Map::<char, usize>::empty(),
    {
        let mut entries: Vec<Option<usize>> = Vec::new();
        let mut i: usize = 0;
        while i < 26
            invariant
                i <= 26,
                entries@.len() == i,
                forall|j: int| 0 <= j < i ==> (#[trigger] entries@[j]) is None,
            decreases 26 - i,
        {
            entries.push(None);
            i += 1;
        }
        let r = FreqTable { entries };
        proof {
            assert(r@ =~= Map::<char, usize>::empty());
        }
        r
    }

    /// Sets the weight of the letter `c`.
    pub fn insert(&mut self, c: char, weight: usize)
        requires
            old(self).wf(),
            is_letter(c),
        ensures
            final(self).wf(),
            final(self)@ == old(self)@.insert(c, weight),
    {
        let idx = (c as u32 - 97) as usize;
        self.entries.set(idx, Some(weight));
        proof {
            assert(self@ =~= old(self)@.insert(c, weight));
        }
    }

    /// The weight of the letter `c`, or nothing when the table does not know
    /// it.
    pub fn get(&self, c: char) -> (r: Option<usize>)
        requires
            self.wf(),
        ensures
            r == if self@.dom().contains(c) {
                Some(self@[c])
            } else {
                None::<usize>
            },
    {
        let v = c as u32;
        if 97 <= v && v <= 122 {
            self.entries[(v - 97) as usize]
        } else {
            None
        }
    }
}

impl View for FreqTable {
    type V = Map<char, usize>;

    closed spec fn view(&self) -> Map<char, usize> {
        Map::new(
            |c: char| is_letter(c) && self.entries@[letter_index(c)] is Some,
            |c: char|
                match self.entries@[letter_index(c)] {
                    Some(n) => n,
                    None => 0,
                },
        )
    }
}

/// The frequency score of a word: the table weights of its distinct letters,
/// each counted once, at the letter's first occurrence.
pub open spec fn spec_score(w: Seq<char>, t: Map<char, usize>) -> int
    decreases w.len(),
{
    if w.len() == 0 {
        0
    } else {
        spec_score(w.drop_last(), t) + (if w.drop_last().contains(w.last()) {
            0
        } else {
            t[w.last()] as int
        })
    }
}

/// Scoring one more character adds its weight exactly when it is new.
proof fn lemma_score_step(w: Seq<char>, t: Map<char, usize>, i: int)
    requires
        0 <= i < w.len(),
    ensures
        spec_score(w.take(i + 1), t) == spec_score(w.take(i), t) + (if w.take(i).contains(w[i]) {
            0
        } else {
            t[w[i]] as int
        }),
{
    assert(w.take(i + 1).drop_last() =~= w.take(i));
    assert(w.take(i + 1).last() == w[i]);
}

/// A prefix never scores more than the whole word.
proof fn lemma_score_prefix_le(w: Seq<char>, t: Map<char, usize>, i: int)
    requires
        0 <= i <= w.len(),
    ensures
        spec_score(w.take(i), t) <= spec_score(w, t),
    decreases w.len() - i,
{
    if i == w.len() {
        assert(w.take(i) =~= w);
    } else {
        lemma_score_step(w, t, i);
        lemma_score_prefix_le(w, t, i + 1);
    }
}

/// Sums the frequency weights of the word's distinct letters, each counted
/// once. The table must cover every letter of the word and the sum must fit
/// in a machine word; `score_word_checked` reports a missing letter instead.
pub fn score_word(word: &Vec<char>, letter_frequency: &FreqTable) -> (r: usize)
    requires
        letter_frequency.wf(),
        forall|i: int| 0 <= i < word@.len() ==> letter_frequency@.dom().contains(#[trigger] word@[i]),
        spec_score(word@, letter_frequency@) <= usize::MAX,
    ensures
        r as int == spec_score(word@, letter_frequency@),
{
    let ghost t = letter_frequency@;
    let mut total: usize = 0;
    let mut i: usize = 0;
    while i < word.len()
        invariant
            i <= word@.len(),
            letter_frequency.wf(),
            t == letter_frequency@,
            forall|k: int| 0 <= k < word@.len() ==> t.dom().contains(#[trigger] word@[k]),
            spec_score(word@, t) <= usize::MAX,
            total as int == spec_score(word@.take(i as int), t),
        decreases word@.len() - i,
    {
        // Count the letter only at its first occurrence.
        let mut seen = false;
        let mut j: usize = 0;
        while j < i
            invariant
                j <= i,
                i < word@.len(),
                seen ==> word@.take(i as int).contains(word@[i as int]),
                !seen ==> forall|m: int| 0 <= m < j ==> word@[m] != word@[i as int],
            decreases i - j,
        {
            if word[j] == word[i] {
                proof {
                    assert(word@.take(i as int)[j as int] == word@[i as int]);
                }
                seen = true;
            }
            j += 1;
        }
        proof {
            lemma_score_step(word@, t, i as int);
            lemma_score_prefix_le(word@, t, i as int + 1);
        }
        if !seen {
            proof {
                if word@.take(i as int).contains(word@[i as int]) {
                    let m = choose|m: int|
                        0 <= m < i && word@.take(i as int)[m] == word@[i as int];
                    assert(word@[m] == word@[i as int]);
                }
            }
            let weight = match letter_frequency.get(word[i]) {
                Some(n) => n,
                None => 0,
            };
            total = total + weight;
        }
        i += 1;
    }
    proof {
        assert(word@.take(word@.len() as int) =~= word@);
    }
    total
}

/// Like `score_word`, but reports the first letter the table does not know
/// instead of demanding coverage: the result is the score exactly when every
/// letter of the word is known, and otherwise the error names the first
/// unknown letter.
pub fn score_word_checked(word: &Vec<char>, letter_frequency: &FreqTable) -> (r: Result<
    usize,
    UnknownLetterError,
>)
    requires
        letter_frequency.wf(),
        (forall|i: int|
            0 <= i < word@.len() ==> letter_frequency@.dom().contains(#[trigger] word@[i]))
            ==> spec_score(word@, letter_frequency@) <= usize::MAX,
    ensures
        match r {
            Ok(s) => (forall|i: int|
                0 <= i < word@.len() ==> letter_frequency@.dom().contains(#[trigger] word@[i]))
                && s as int == spec_score(word@, letter_frequency@),
            Err(e) => exists|i: int|
                0 <= i < word@.len() && !letter_frequency@.dom().contains(word@[i]) && e.letter
                    == word@[i] && (forall|j: int|
                    0 <= j < i ==> letter_frequency@.dom().contains(#[trigger] word@[j])),
        },
{
    let mut i: usize = 0;
    while i < word.len()
        invariant
            i <= word@.len(),
            letter_frequency.wf(),
            forall|j: int| 0 <= j < i ==> letter_frequency@.dom().contains(#[trigger] word@[j]),
        decreases word@.len() - i,
    {
        if let None = letter_frequency.get(word[i]) {
            return Err(UnknownLetterError { letter: word[i] });
        }
        i += 1;
    }
    Ok(score_word(word, letter_frequency))
}

/// Occurrences of the character `c` in a word.
pub open spec fn count_char(w: Seq<char>, c: char) -> nat
    decreases w.len(),
{
    if w.len() == 0 {
        0
    } else {
        count_char(w.drop_last(), c) + (if w.last() == c {
            1nat
        } else {
            0nat
        })
    }
}

/// Occurrences of the character `c` across all words of a list.
pub open spec fn count_char_all(ws: Seq<Seq<char>>, c: char) -> nat
    decreases ws.len(),
{
    if ws.len() == 0 {
        0
    } else {
        count_char_all(ws.drop_last(), c) + count_char(ws.last(), c)
    }
}

proof fn lemma_count_char_le(w: Seq<char>, c: char)
    ensures
        count_char(w, c) <= w.len(),
    decreases w.len(),
{
    if w.len() > 0 {
        lemma_count_char_le(w.drop_last(), c);
    }
}

proof fn lemma_count_all_le(ws: Seq<Seq<char>>, c: char)
    requires
        forall|k: int| 0 <= k < ws.len() ==> (#[trigger] ws[k]).len() <= 5,
    ensures
        count_char_all(ws, c) <= 5 * ws.len(),
    decreases ws.len(),
{
    if ws.len() > 0 {
        lemma_count_all_le(ws.drop_last(), c);
        lemma_count_char_le(ws.last(), c);
    }
}

proof fn lemma_count_char_step(w: Seq<char>, c: char, j: int)
    requires
        0 <= j < w.len(),
    ensures
        count_char(w.take(j + 1), c) == count_char(w.take(j), c) + (if w[j] == c {
            1nat
        } else {
            0nat
        }),
{
    assert(w.take(j + 1).drop_last() =~= w.take(j));
    assert(w.take(j + 1).last() == w[j]);
}

proof fn lemma_count_all_step(ws: Seq<Seq<char>>, c: char, j: int)
    requires
        0 <= j < ws.len(),
    ensures
        count_char_all(ws.take(j + 1), c) == count_char_all(ws.take(j), c) + count_char(ws[j], c),
{
    assert(ws.take(j + 1).drop_last() =~= ws.take(j));
    assert(ws.take(j + 1).last() == ws[j]);
}

/// Builds the letter frequency table of a dictionary: each letter maps to the
/// number of times it occurs across all words, and only letters that occur
/// are known to the table.
pub fn letter_counts(words: &Vec<Vec<char>>) -> (r: FreqTable)
    requires
        forall|k: int| 0 <= k < words@.len() ==> word_ok((#[trigger] words@[k])@),
        words@.len() * 5 <= usize::MAX,
    ensures
        r.wf(),
        forall|c: char| r@.dom().contains(c) <==> count_char_all(words_view(words@), c) > 0,
        forall|c: char|
            r@.dom().contains(c) ==> r@[c] == count_char_all(words_view(words@), c),
{
    let ghost wv = words_view(words@);
    let mut table = FreqTable::new();
    let mut i: usize = 0;
    while i < words.len()
        invariant
            i <= words@.len(),
            table.wf(),
            wv == words_view(words@),
            wv.len() == words@.len(),
            forall|k: int| 0 <= k < words@.len() ==> word_ok((#[trigger] words@[k])@),
            forall|k: int| 0 <= k < wv.len() ==> (#[trigger] wv[k]).len() == 5,
            words@.len() * 5 <= usize::MAX,
            forall|c: char|
                table@.dom().contains(c) <==> count_char_all(wv.take(i as int), c) > 0,
            forall|c: char|
                #![trigger table@[c]]
                table@.dom().contains(c) ==> table@[c] == count_char_all(wv.take(i as int), c),
        decreases words@.len() - i,
    {
        let word = &words[i];
        let ghost w = wv[i as int];
        proof {
            assert(w == words@[i as int]@);
        }
        let mut j: usize = 0;
        while j < word.len()
            invariant
                j <= w.len(),
                w.len() == 5,
                word@ == w,
                word_ok(w),
                table.wf(),
                0 <= i < wv.len(),
                wv.len() * 5 <= usize::MAX,
                forall|k: int| 0 <= k < wv.len() ==> (#[trigger] wv[k]).len() == 5,
                forall|c: char|
                    table@.dom().contains(c) <==> count_char_all(wv.take(i as int), c)
                        + count_char(w.take(j as int), c) > 0,
                forall|c: char|
                    #![trigger table@[c]]
                    table@.dom().contains(c) ==> table@[c] == count_char_all(wv.take(i as int), c)
                        + count_char(w.take(j as int), c),
            decreases w.len() - j,
        {
            let c = word[j];
            proof {
                lemma_count_all_le(wv.take(i as int), c);
                lemma_count_char_le(w.take(j as int), c);
            }
            let n = match table.get(c) {
                Some(n) => n,
                None => 0,
            };
            table.insert(c, n + 1);
            proof {
                assert forall|d: char| #![all_triggers] table@.dom().contains(d) <==> (
                count_char_all(wv.take(i as int), d) + count_char(w.take(j as int + 1), d)
                    > 0) by {
                    lemma_count_char_step(w, d, j as int);
                }
                assert forall|d: char| #![trigger table@[d]] table@.dom().contains(d)
                    implies table@[d] == count_char_all(wv.take(i as int), d) + count_char(
                    w.take(j as int + 1),
                    d,
                ) by {
                    lemma_count_char_step(w, d, j as int);
                }
            }
            j += 1;
        }
        proof {
            assert(w.take(5) =~= w);
            assert forall|d: char| #![all_triggers] count_char_all(wv.take(i as int), d)
                + count_char(w, d) == count_char_all(wv.take(i as int + 1), d) by {
                lemma_count_all_step(wv, d, i as int);
            }
        }
        i += 1;
    }
    proof {
        assert(wv.take(words@.len() as int) =~= wv);
    }
    table
}

/// Relies on itertools' `sorted_by`, a stable sort by the given comparator:
/// the result holds exactly the input's elements, here in descending order of
/// the numeric component.
#[verifier::external_body]
fn sort_pairs_by_score_desc(pairs: Vec<(Vec<char>, usize)>) -> (r: Vec<(Vec<char>, usize)>)
    ensures
        r@.to_multiset() == pairs@.to_multiset(),
        forall|i: int, j: int| 0 <= i < j < r@.len() ==> r@[i].1 >= r@[j].1,
{
    pairs.into_iter().sorted_by(|a, b| b.1.cmp(&a.1)).collect()
}

/// Orders a dictionary by frequency score, highest first: the result is a
/// rearrangement of the input words in descending score order, the ranking
/// used to pick opening guesses before any feedback exists.
pub fn rank_words(words: &Vec<Vec<char>>, letter_frequency: &FreqTable) -> (r: Vec<Vec<char>>)
    requires
        letter_frequency.wf(),
        forall|k: int, i: int|
            0 <= k < words@.len() && 0 <= i < (#[trigger] words@[k])@.len()
                ==> letter_frequency@.dom().contains(#[trigger] words@[k]@[i]),
        forall|k: int|
            0 <= k < words@.len() ==> spec_score((#[trigger] words@[k])@, letter_frequency@)
                <= usize::MAX,
    ensures
        r@.len() == words@.len(),
        forall|k: int|
            0 <= k < r@.len() ==> words_view(words@).contains((#[trigger] r@[k])@),
        forall|m: int|
            0 <= m < words@.len() ==> words_view(r@).contains((#[trigger] words@[m])@),
        forall|i: int, j: int|
            0 <= i < j < r@.len() ==> spec_score(r@[i]@, letter_frequency@) >= spec_score(
                r@[j]@,
                letter_frequency@,
            ),
{
    broadcast use vstd::seq_lib::group_to_multiset_ensures;

    let ghost t = letter_frequency@;
    let mut pairs: Vec<(Vec<char>, usize)> = Vec::new();
    let mut k: usize = 0;
    while k < words.len()
        invariant
            k <= words@.len(),
            letter_frequency.wf(),
            t == letter_frequency@,
            forall|m: int, i: int|
                0 <= m < words@.len() && 0 <= i < (#[trigger] words@[m])@.len()
                    ==> t.dom().contains(#[trigger] words@[m]@[i]),
            forall|m: int|
                0 <= m < words@.len() ==> spec_score((#[trigger] words@[m])@, t) <= usize::MAX,
            pairs@.len() == k,
            forall|m: int|
                0 <= m < k ==> (#[trigger] pairs@[m]).0@ == words@[m]@ && pairs@[m].1 as int
                    == spec_score(words@[m]@, t),
        decreases words@.len() - k,
    {
        let w = words[k].clone();
        let s = score_word(&w, letter_frequency);
        pairs.push((w, s));
        k += 1;
    }

    let ghost pairs0 = pairs@;
    let sorted = sort_pairs_by_score_desc(pairs);

    proof {
        assert(sorted@.to_multiset() == pairs0.to_multiset());
        assert(sorted@.to_multiset().len() == pairs0.to_multiset().len());
        assert(sorted@.len() == sorted@.to_multiset().len());
        assert(pairs0.len() == pairs0.to_multiset().len());
        assert(sorted@.len() == pairs0.len());
        assert forall|m: int| 0 <= m < sorted@.len() implies (#[trigger] sorted@[m]).1 as int
            == spec_score(sorted@[m].0@, t) && words_view(words@).contains(sorted@[m].0@) by {
            assert(sorted@.contains(sorted@[m]));
            assert(sorted@.to_multiset().count(sorted@[m]) > 0);
            assert(pairs0.contains(sorted@[m]));
            let n = choose|n: int| 0 <= n < pairs0.len() && pairs0[n] == sorted@[m];
            assert(words_view(words@)[n] == words@[n]@);
        }
    }

    let mut out: Vec<Vec<char>> = Vec::new();
    let mut k: usize = 0;
    while k < sorted.len()
        invariant
            k <= sorted@.len(),
            out@.len() == k,
            forall|m: int| 0 <= m < k ==> (#[trigger] out@[m])@ == sorted@[m].0@,
        decreases sorted@.len() - k,
    {
        let w = sorted[k].0.clone();
        out.push(w);
        k += 1;
    }

    proof {
        assert forall|m: int| 0 <= m < words@.len() implies words_view(out@).contains(
            (#[trigger] words@[m])@,
        ) by {
            assert(pairs0.contains(pairs0[m]));
            assert(pairs0.to_multiset().count(pairs0[m]) > 0);
            assert(sorted@.contains(pairs0[m]));
            let n = choose|n: int| 0 <= n < sorted@.len() && sorted@[n] == pairs0[m];
            assert(words_view(out@)[n] == out@[n]@);
            assert(out@[n]@ == words@[m]@);
        }
    }
    out
}

} // verus!
