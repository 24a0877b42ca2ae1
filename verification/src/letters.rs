use vstd::prelude::*;

verus! {

/// True of the 26 lowercase ASCII letters that puzzle words are made of.
pub open spec fn is_letter(c: char) -> bool {
    'a' <= c && c <= 'z'
}

/// Index of a lowercase letter in the alphabet: 'a' is 0, 'z' is 25.
pub open spec fn letter_index(c: char) -> int {
    c as int - 'a' as int
}

/// Number of `true` entries in a sequence of flags.
pub open spec fn count_true(s: Seq<bool>) -> nat
    decreases s.len(),
{
    if s.len() == 0 {
        0
    } else {
        count_true(s.drop_last()) + (if s.last() {
            1nat
        } else {
            0nat
        })
    }
}

/// Pointwise implication of flags bounds the count.
pub proof fn lemma_count_true_mono(a: Seq<bool>, b: Seq<bool>)
    requires
        a.len() == b.len(),
        forall|i: int| 0 <= i < a.len() ==> (a[i] ==> b[i]),
    ensures
        count_true(a) <= count_true(b),
    decreases a.len(),
{
    if a.len() > 0 {
        lemma_count_true_mono(a.drop_last(), b.drop_last());
    }
}

pub proof fn lemma_count_true_none(s: Seq<bool>)
    requires
        forall|i: int| 0 <= i < s.len() ==> !s[i],
    ensures
        count_true(s) == 0,
    decreases s.len(),
{
    if s.len() > 0 {
        lemma_count_true_none(s.drop_last());
    }
}

pub proof fn lemma_count_true_single(s: Seq<bool>, k: int)
    requires
        0 <= k < s.len(),
        forall|i: int| 0 <= i < s.len() ==> (s[i] <==> i == k),
    ensures
        count_true(s) == 1,
    decreases s.len(),
{
    if k == s.len() - 1 {
        lemma_count_true_none(s.drop_last());
    } else {
        lemma_count_true_single(s.drop_last(), k);
    }
}

/// A set of lowercase ASCII letters: the candidate letters still allowed at
/// one position of the word.
pub struct LetterSet {
    flags: Vec<bool>,
}

impl LetterSet {
    /// Structural invariant: one flag per letter of the alphabet.
    pub closed spec fn wf(self) -> bool {
        self.flags@.len() == 26
    }

    /// Membership: does the set hold the letter `c`?
    pub closed spec fn has(self, c: char) -> bool {
        is_letter(c) && self.flags@[letter_index(c)]
    }

    /// Number of letters in the set.
    pub closed spec fn card(self) -> nat {
        count_true(self.flags@)
    }

    /// The set as a mathematical set of characters.
    pub open spec fn chars(self) -> Set<char> {
        Set::new(|c: char| self.has(c))
    }

    /// The set holding every letter of the alphabet.
    pub fn full() -> (r: LetterSet)
        ensures
            r.wf(),
            forall|c: char| #[trigger] r.has(c) <==> is_letter(c),
            r.card() == 26,
    {
        let mut flags: Vec<bool> = Vec::new();
        let mut i: usize = 0;
        while i < 26
            invariant
                i <= 26,
                flags@.len() == i,
                forall|j: int| 0 <= j < i ==> flags@[j],
            decreases 26 - i,
        {
            flags.push(true);
            i += 1;
        }
        let r = LetterSet { flags };
        proof {
            assert forall|c: char| r.has(c) <==> is_letter(c) by {
                if is_letter(c) {
                    assert(0 <= letter_index(c) < 26);
                }
            }
            lemma_count_true_all(r.flags@);
        }
        r
    }

    /// The set holding no letter.
    pub fn empty_set() -> (r: LetterSet)
        ensures
            r.wf(),
            forall|c: char| !(#[trigger] r.has(c)),
            r.card() == 0,
    {
        let mut flags: Vec<bool> = Vec::new();
        let mut i: usize = 0;
        while i < 26
            invariant
                i <= 26,
                flags@.len() == i,
                forall|j: int| 0 <= j < i ==> !flags@[j],
            decreases 26 - i,
        {
            flags.push(false);
            i += 1;
        }
        let r = LetterSet { flags };
        proof {
            lemma_count_true_none(r.flags@);
        }
        r
    }

    /// The set holding exactly the letter `c`.
    pub fn singleton(c: char) -> (r: LetterSet)
        requires
            is_letter(c),
        ensures
            r.wf(),
            forall|d: char| #[trigger] r.has(d) <==> d == c,
            r.card() == 1,
    {
        let mut r = LetterSet::empty_set();
        r.insert(c);
        proof {
            assert forall|j: int| 0 <= j < 26 implies (r.flags@[j] <==> j == letter_index(c)) by {
                let d = (('a' as int) + j) as char;
                assert(is_letter(d) && letter_index(d) == j);
                assert(r.has(d) <==> d == c);
            }
            lemma_count_true_single(r.flags@, letter_index(c));
        }
        r
    }

    /// An identical copy of the set.
    pub fn duplicate(&self) -> (r: LetterSet)
        requires
            self.wf(),
        ensures
            r.wf(),
            forall|c: char| #[trigger] r.has(c) <==> self.has(c),
            r.card() == self.card(),
    {
        let mut flags: Vec<bool> = Vec::new();
        let mut i: usize = 0;
        while i < 26
            invariant
                i <= 26,
                self.wf(),
                flags@.len() == i,
                forall|j: int| 0 <= j < i ==> flags@[j] == self.flags@[j],
            decreases 26 - i,
        {
            flags.push(self.flags[i]);
            i += 1;
        }
        let r = LetterSet { flags };
        proof {
            assert(r.flags@ =~= self.flags@);
        }
        r
    }

    /// Does the set hold `c`? Anything but a lowercase letter is never held.
    pub fn contains(&self, c: char) -> (r: bool)
        requires
            self.wf(),
        ensures
            r == self.has(c),
    {
        let v = c as u32;
        if 97 <= v && v <= 122 {
            self.flags[(v - 97) as usize]
        } else {
            false
        }
    }

    /// Adds the letter `c` to the set.
    pub fn insert(&mut self, c: char)
        requires
            old(self).wf(),
            is_letter(c),
        ensures
            final(self).wf(),
            forall|d: char| #[trigger] final(self).has(d) <==> (old(self).has(d) || d == c),
    {
        let v = c as u32;
        let idx = (v - 97) as usize;
        self.flags.set(idx, true);
        proof {
            assert forall|d: char| self.has(d) <==> (old(self).has(d) || d == c) by {
                if is_letter(d) {
                    assert(0 <= letter_index(d) < 26);
                }
            }
        }
    }

    /// Takes the letter `c` out of the set; no effect when `c` is not held.
    pub fn remove(&mut self, c: char)
        requires
            old(self).wf(),
        ensures
            final(self).wf(),
            forall|d: char| #[trigger] final(self).has(d) <==> (old(self).has(d) && d != c),
    {
        let v = c as u32;
        if 97 <= v && v <= 122 {
            let idx = (v - 97) as usize;
            self.flags.set(idx, false);
        }
        proof {
            assert forall|d: char| self.has(d) <==> (old(self).has(d) && d != c) by {
                if is_letter(d) {
                    assert(0 <= letter_index(d) < 26);
                }
            }
        }
    }

    /// Takes every letter of `other` out of the set.
    pub fn remove_all(&mut self, other: &LetterSet)
        requires
            old(self).wf(),
            other.wf(),
        ensures
            final(self).wf(),
            forall|d: char| #[trigger] final(self).has(d) <==> (old(self).has(d) && !other.has(
                d,
            )),
    {
        let ghost orig = *self;
        let mut i: usize = 0;
        while i < 26
            invariant
                i <= 26,
                orig.wf(),
                other.wf(),
                self.flags@.len() == 26,
                forall|j: int| 0 <= j < i ==> self.flags@[j] == (orig.flags@[j]
                    && !other.flags@[j]),
                forall|j: int| i <= j < 26 ==> self.flags@[j] == orig.flags@[j],
            decreases 26 - i,
        {
            let keep = self.flags[i] && !other.flags[i];
            self.flags.set(i, keep);
            i += 1;
        }
        proof {
            assert forall|d: char| self.has(d) <==> (old(self).has(d) && !other.has(d)) by {
                if is_letter(d) {
                    assert(0 <= letter_index(d) < 26);
                }
            }
        }
    }
}

pub proof fn lemma_count_true_all(s: Seq<bool>)
    requires
        forall|i: int| 0 <= i < s.len() ==> s[i],
    ensures
        count_true(s) == s.len(),
    decreases s.len(),
{
    if s.len() > 0 {
        lemma_count_true_all(s.drop_last());
    }
}

/// A set that holds no letter outside another has no more letters than it.
pub proof fn lemma_card_subset(a: LetterSet, b: LetterSet)
    requires
        a.wf(),
        b.wf(),
        forall|c: char| a.has(c) ==> b.has(c),
    ensures
        a.card() <= b.card(),
{
    assert forall|j: int| 0 <= j < 26 && a.flags@[j] implies b.flags@[j] by {
        let c = (('a' as int) + j) as char;
        assert(is_letter(c) && letter_index(c) == j);
        assert(a.has(c));
        assert(b.has(c));
    }
    lemma_count_true_mono(a.flags@, b.flags@);
}

} // verus!
