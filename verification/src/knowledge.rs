//! What a player knows after coloured guesses: per slot either the letter it
//! must be or the letters it cannot be, plus the letters the answer holds.

use itertools::Itertools;
use vstd::prelude::*;

use crate::alphagram::{contains_letters_of, max_count, smallest_of_max_union, Alphagram, Iter};
use crate::colored_guess::{slot_color, ColoredGuess, GuessColor};
use crate::counting::{
    count, ind, lemma_letter_total_le, lemma_letter_total_len, sorted,
};
use crate::guess_coloring::{green_count, min_nat, unmatched_answer, unmatched_guess};
use crate::letter::{indices, letter_char, letter_with_fg, letters_text, letters_with_fg, shown_fg, Color, Letter};
use crate::text::{decimal, join, joined, push_char, texts, usize_text};
use crate::letter_set::{set_letters, LetterSet};
use crate::possibilities::PossibleAnswer;
use crate::word::Word;

verus! {

/// The number of slots below `n` where guess and answer agree on `x`.
pub open spec fn green_letters(g: Seq<u8>, a: Seq<u8>, x: u8, n: int) -> nat
    decreases n,
{
    if n <= 0 {
        0
    } else {
        green_letters(g, a, x, n - 1) + ind(g[n - 1] == x && a[n - 1] == x)
    }
}

/// The letters that a guess shows to be absent from the answer: among the
/// unmatched guess slots below `n`, yet with no unmatched answer slot.
pub open spec fn absent_letters(g: Seq<u8>, a: Seq<u8>, n: int) -> Set<u8> {
    Set::new(|x: u8| unmatched_guess(g, a, x, n) > 0 && unmatched_answer(g, a, x, 5) == 0)
}

/// What is known about one slot.
#[derive(Clone, Copy)]
pub enum LetterKnowledge {
    Is(Letter),
    IsNot(LetterSet),
}

impl LetterKnowledge {
    /// The slot may hold the letter with index `x`.
    pub open spec fn allows(self, x: u8) -> bool {
        match self {
            LetterKnowledge::Is(l) => l.0 == x,
            LetterKnowledge::IsNot(s) => !s@.contains(x),
        }
    }

    fn new() -> (r: LetterKnowledge)
        ensures
            r matches LetterKnowledge::IsNot(s) && s@ == Set::<u8>::empty(),
    {
        LetterKnowledge::IsNot(LetterSet::new())
    }

    fn set_letter(&mut self, letter: Letter)
        ensures
            *final(self) == LetterKnowledge::Is(letter),
    {
        *self = LetterKnowledge::Is(letter);
    }

    fn remove_letter(&mut self, letter: Letter)
        requires
            letter.0 < 32,
        ensures
            match *old(self) {
                LetterKnowledge::Is(l) => *final(self) == LetterKnowledge::Is(l),
                LetterKnowledge::IsNot(s) => *final(self) matches LetterKnowledge::IsNot(t) && t@ == s@.insert(letter.0),
            },
    {
        match self {
            LetterKnowledge::Is(_) => {},
            LetterKnowledge::IsNot(set) => set.insert(letter),
        }
    }

    fn matches(&self, letter: Letter) -> (r: bool)
        requires
            letter.0 < 32,
        ensures
            r == self.allows(letter.0),
    {
        match self {
            LetterKnowledge::Is(known_letter) => letter == *known_letter,
            LetterKnowledge::IsNot(set) => !set.contains(letter),
        }
    }

    fn could_still_be(&self, letter: Letter) -> (r: bool)
        requires
            letter.0 < 32,
        ensures
            r == (self is IsNot && self.allows(letter.0)),
    {
        match self {
            LetterKnowledge::Is(_) => false,
            LetterKnowledge::IsNot(set) => !set.contains(letter),
        }
    }
}

pub struct WordKnowledge {
    slots: [LetterKnowledge; 5],
    all_letters: Alphagram,
    yellows: Alphagram,
}

impl WordKnowledge {
    /// What is known about slot `i`.
    pub closed spec fn slot(&self, i: int) -> LetterKnowledge {
        self.slots[i]
    }

    /// The letters known to be in the answer, as many times as known.
    pub closed spec fn known_letters(&self) -> Seq<u8> {
        self.all_letters@
    }

    /// The known letters whose slot is not known.
    pub closed spec fn yellow_letters(&self) -> Seq<u8> {
        self.yellows@
    }

    /// What is known about each slot, as a value.
    pub open spec fn models(&self) -> Seq<(Option<u8>, Set<u8>)> {
        Seq::new(5, |j: int| model(self.slot(j)))
    }

    /// The yellows are the known letters less one for each slot known to
    /// hold the letter.
    pub closed spec fn wf(&self) -> bool {
        &&& self.all_letters.wf()
        &&& self.yellows.wf()
        &&& forall|j: int| 0 <= j < 5 ==> (#[trigger] self.slots[j] matches LetterKnowledge::Is(l) ==> l.0 < 32)
        &&& forall|x: u8| x != 255 ==> #[trigger] count(self.yellows@, x) + min_nat(
            count(self.all_letters@, x),
            known_at(self.models(), x, 5),
        ) == count(self.all_letters@, x)
    }

    /// `w` agrees with everything known: each slot allows its letter, and `w`
    /// holds every known letter at least as often as known.
    pub open spec fn admits(&self, w: Word) -> bool {
        &&& forall|i: int| 0 <= i < 5 ==> #[trigger] self.slot(i).allows(w.letters[i].0)
        &&& contains_letters_of(indices(w.letters@), self.known_letters())
    }

    /// Nothing is known.
    pub fn new() -> (r: WordKnowledge)
        ensures
            r.wf(),
            forall|i: int| 0 <= i < 5 ==> (#[trigger] r.slot(i) matches LetterKnowledge::IsNot(s) && s@
                == Set::<u8>::empty()),
            r.known_letters() == seq![255u8, 255u8, 255u8, 255u8, 255u8],
            r.yellow_letters() == seq![255u8, 255u8, 255u8, 255u8, 255u8],
    {
        let r = WordKnowledge {
            slots: [LetterKnowledge::new();5],
            all_letters: Alphagram::new(),
            yellows: Alphagram::new(),
        };
        proof {
            assert forall|x: u8| x != 255 implies #[trigger] count(r.yellows@, x) + min_nat(
                count(r.all_letters@, x),
                known_at(r.models(), x, 5),
            ) == count(r.all_letters@, x) by {
                crate::counting::lemma_count5(r.yellows@, x);
                crate::counting::lemma_count5(r.all_letters@, x);
            }
        }
        r
    }

    /// Whether the possible answer agrees with everything known.
    pub fn matches(&self, possibility: &PossibleAnswer) -> (r: bool)
        requires
            self.wf(),
            possibility.wf(),
            forall|i: int| 0 <= i < 5 ==> (#[trigger] possibility.word.letters[i]).0 < 32,
        ensures
            r == self.admits(possibility.word),
    {
        let mut i: usize = 0;
        while i < 5
            invariant
                i <= 5,
                forall|k: int| 0 <= k < 5 ==> (#[trigger] possibility.word.letters[k]).0 < 32,
                forall|k: int| 0 <= k < i ==> #[trigger] self.slot(k).allows(possibility.word.letters[k].0),
            decreases 5 - i,
        {
            if !self.slots[i].matches(possibility.word.letters[i]) {
                assert(!self.slot(i as int).allows(possibility.word.letters[i as int].0));
                return false;
            }
            i += 1;
        }
        let r = possibility.alphagram.contains_other(self.all_letters);
        proof {
            let w = indices(possibility.word.letters@);
            let k = self.known_letters();
            if contains_letters_of(possibility.alphagram@, k) {
                assert forall|x: u8| x < 26 implies #[trigger] count(k, x) <= #[trigger] count(w, x) by {
                    assert(count(possibility.alphagram@, x) == count(w, x));
                }
            }
            if contains_letters_of(w, k) {
                assert forall|x: u8| x < 26 implies #[trigger] count(k, x) <= #[trigger] count(possibility.alphagram@, x) by {
                    assert(count(possibility.alphagram@, x) == count(w, x));
                }
            }
            assert(contains_letters_of(possibility.alphagram@, self.known_letters()) == contains_letters_of(
                indices(possibility.word.letters@),
                self.known_letters(),
            ));
        }
        r
    }
}

/// Greens among the slots from `m` to `n` number at most `n - m`.
pub proof fn lemma_green_count_bound(g: Seq<u8>, a: Seq<u8>, m: int, n: int)
    requires
        0 <= m <= n,
    ensures
        green_count(g, a, n) <= green_count(g, a, m) + (n - m),
    decreases n - m,
{
    if n > m {
        lemma_green_count_bound(g, a, m, n - 1);
    }
}

impl WordKnowledge {
    /// The knowledge is what a single guess `guess` teaches against `answer`.
    pub open spec fn learned_from(&self, guess: Word, answer: Word) -> bool {
        let g = indices(guess.letters@);
        let a = indices(answer.letters@);
        &&& forall|i: int| 0 <= i < 5 && g[i] == a[i] ==> #[trigger] self.slot(i) == LetterKnowledge::Is(guess.letters[i])
        &&& forall|i: int| 0 <= i < 5 && g[i] != a[i] ==> (#[trigger] self.slot(i) matches LetterKnowledge::IsNot(s) && s@
            == absent_letters(g, a, 5).insert(g[i]))
        &&& forall|x: u8| x != 255 ==> #[trigger] count(self.known_letters(), x) == green_letters(g, a, x, 5) + min_nat(
            unmatched_guess(g, a, x, 5),
            unmatched_answer(g, a, x, 5),
        )
        &&& forall|x: u8| x != 255 ==> #[trigger] count(self.yellow_letters(), x) == min_nat(
            unmatched_guess(g, a, x, 5),
            unmatched_answer(g, a, x, 5),
        )
    }

    /// The knowledge gained from a single guess: green slots are known,
    /// the other slots exclude their guess letter and every letter the guess
    /// shows to be absent, and the known letters are the greens and yellows.
    pub fn from_guess(guess: Word, answer: Word) -> (r: WordKnowledge)
        requires
            forall|i: int| 0 <= i < 5 ==> (#[trigger] guess.letters[i]).0 < 32,
        ensures
            r.wf(),
            r.learned_from(guess, answer),
    {
        let ghost g = indices(guess.letters@);
        let ghost a = indices(answer.letters@);
        let mut result = WordKnowledge::new();
        let mut potential_yellows = Alphagram::new();
        proof {
            assert forall|k: int| 0 <= k < 5 implies (#[trigger] result.slots[k] matches LetterKnowledge::IsNot(s) && s@
                == Set::<u8>::empty()) by {
                assert(result.slot(k) == result.slots[k]);
            }
            assert forall|x: u8| x != 255 implies #[trigger] count(result.all_letters@, x) == 0 && count(potential_yellows@, x) == 0 by {
                crate::counting::lemma_count5(potential_yellows@, x);
            }
        }
        let mut i: usize = 0;
        while i < 5
            invariant
                i <= 5,
                g == indices(guess.letters@),
                a == indices(answer.letters@),
                g.len() == 5,
                a.len() == 5,
                forall|k: int| 0 <= k < 5 ==> (#[trigger] guess.letters[k]).0 < 32,
                result.all_letters.wf(),
                result.yellows.wf(),
                potential_yellows.wf(),
                result.yellows@ == seq![255u8, 255u8, 255u8, 255u8, 255u8],
                green_count(g, a, i as int) <= i,
                result.all_letters.size() == green_count(g, a, i as int),
                potential_yellows.size() <= i - green_count(g, a, i as int),
                forall|x: u8| x != 255 ==> #[trigger] count(result.all_letters@, x) == green_letters(g, a, x, i as int),
                forall|x: u8| x != 255 ==> #[trigger] count(potential_yellows@, x) == unmatched_answer(g, a, x, i as int),
                forall|k: int| 0 <= k < i && g[k] == a[k] ==> #[trigger] result.slots[k] == LetterKnowledge::Is(guess.letters[k]),
                forall|k: int| 0 <= k < i && g[k] != a[k] ==> (#[trigger] result.slots[k] matches LetterKnowledge::IsNot(s) && s@
                    == Set::<u8>::empty().insert(g[k])),
                forall|k: int| i <= k < 5 ==> (#[trigger] result.slots[k] matches LetterKnowledge::IsNot(s) && s@
                    == Set::<u8>::empty()),
            decreases 5 - i,
        {
            let guess_letter = guess.letters[i];
            let answer_letter = answer.letters[i];
            assert(g[i as int] == guess_letter.0 && a[i as int] == answer_letter.0);
            assert(guess_letter.0 < 32);
            let mut slot = result.slots[i];
            if guess_letter == answer_letter {
                slot.set_letter(guess_letter);
                result.slots[i] = slot;
                result.all_letters.insert(guess_letter);
            } else {
                slot.remove_letter(guess_letter);
                result.slots[i] = slot;
                potential_yellows.insert(answer_letter);
            }
            i += 1;
        }
        proof {
            assert forall|x: u8| x != 255 implies #[trigger] count(result.yellows@, x) == 0 by {
                crate::counting::lemma_count5(result.yellows@, x);
            }
            assert(result.yellows.size() == 0) by {
                crate::counting::lemma_count5(result.yellows@, 255u8);
            }
            assert(absent_letters(g, a, 0) =~= Set::<u8>::empty());
        }
        let mut i: usize = 0;
        while i < 5
            invariant
                i <= 5,
                g == indices(guess.letters@),
                a == indices(answer.letters@),
                g.len() == 5,
                a.len() == 5,
                forall|k: int| 0 <= k < 5 ==> (#[trigger] guess.letters[k]).0 < 32,
                result.all_letters.wf(),
                result.yellows.wf(),
                potential_yellows.wf(),
                green_count(g, a, i as int) <= i,
                result.yellows.size() <= i - green_count(g, a, i as int),
                result.all_letters.size() == green_count(g, a, 5) + result.yellows.size(),
                forall|x: u8| x != 255 ==> #[trigger] count(result.yellows@, x) == min_nat(unmatched_guess(g, a, x, i as int), unmatched_answer(g, a, x, 5)),
                forall|x: u8| x != 255 ==> #[trigger] count(potential_yellows@, x) + min_nat(unmatched_guess(g, a, x, i as int), unmatched_answer(g, a, x, 5))
                    == unmatched_answer(g, a, x, 5),
                forall|x: u8| x != 255 ==> #[trigger] count(result.all_letters@, x) == green_letters(g, a, x, 5) + min_nat(
                    unmatched_guess(g, a, x, i as int),
                    unmatched_answer(g, a, x, 5),
                ),
                forall|k: int| 0 <= k < 5 && g[k] == a[k] ==> #[trigger] result.slots[k] == LetterKnowledge::Is(guess.letters[k]),
                forall|k: int| 0 <= k < 5 && g[k] != a[k] ==> (#[trigger] result.slots[k] matches LetterKnowledge::IsNot(s) && s@
                    == absent_letters(g, a, i as int).insert(g[k])),
            decreases 5 - i,
        {
            let letter = guess.letters[i];
            assert(g[i as int] == letter.0);
            assert(letter.0 < 32);
            let ghost x = letter.0;
            proof {
                assert(absent_letters(g, a, i as int) == absent_letters(g, a, i as int));
            }
            if let LetterKnowledge::IsNot(_) = result.slots[i] {
                assert(g[i as int] != a[i as int]);
                proof {
                    lemma_green_count_bound(g, a, i + 1, 5);
                }
                let ghost pool = potential_yellows@;
                if potential_yellows.remove(letter) {
                    result.yellows.insert(letter);
                    result.all_letters.insert(letter);
                    proof {
                        assert(count(pool, x) + min_nat(unmatched_guess(g, a, x, i as int), unmatched_answer(g, a, x, 5))
                            == unmatched_answer(g, a, x, 5));
                        assert(absent_letters(g, a, i + 1) =~= absent_letters(g, a, i as int));
                    }
                } else {
                    proof {
                        assert(count(pool, x) + min_nat(unmatched_guess(g, a, x, i as int), unmatched_answer(g, a, x, 5))
                            == unmatched_answer(g, a, x, 5));
                    }
                    if !result.yellows.contains(letter) {
                        let ghost all0 = result.all_letters;
                        let ghost yellows0 = result.yellows;
                        let mut j: usize = 0;
                        while j < 5
                            invariant
                                j <= 5,
                                g == indices(guess.letters@),
                                a == indices(answer.letters@),
                                g.len() == 5,
                                a.len() == 5,
                                x == letter.0,
                                x < 32,
                                result.all_letters == all0,
                                result.yellows == yellows0,
                                forall|k: int| 0 <= k < 5 && g[k] == a[k] ==> #[trigger] result.slots[k] == LetterKnowledge::Is(guess.letters[k]),
                                forall|k: int| 0 <= k < j && g[k] != a[k] ==> (#[trigger] result.slots[k] matches LetterKnowledge::IsNot(s) && s@
                                    == absent_letters(g, a, i as int).insert(g[k]).insert(x)),
                                forall|k: int| j <= k < 5 && g[k] != a[k] ==> (#[trigger] result.slots[k] matches LetterKnowledge::IsNot(s) && s@
                                    == absent_letters(g, a, i as int).insert(g[k])),
                            decreases 5 - j,
                        {
                            let mut slot = result.slots[j];
                            slot.remove_letter(letter);
                            result.slots[j] = slot;
                            j += 1;
                        }
                        proof {
                            assert(absent_letters(g, a, i + 1) =~= absent_letters(g, a, i as int).insert(x));
                            assert forall|k: int| 0 <= k < 5 && g[k] != a[k] implies (#[trigger] result.slots[k] matches LetterKnowledge::IsNot(s) && s@
                                == absent_letters(g, a, i + 1).insert(g[k])) by {
                                assert(absent_letters(g, a, i as int).insert(g[k]).insert(x) =~= absent_letters(g, a, i + 1).insert(g[k]));
                            }
                        }
                    } else {
                        proof {
                            assert(absent_letters(g, a, i + 1) =~= absent_letters(g, a, i as int));
                        }
                    }
                }
            } else {
                assert(g[i as int] == a[i as int]);
                proof {
                    assert(absent_letters(g, a, i + 1) =~= absent_letters(g, a, i as int));
                }
            }
            i += 1;
        }
        proof {
            assert(result.learned_from(guess, answer));
            assert forall|x: u8| x != 255 implies #[trigger] count(result.yellows@, x) + min_nat(
                count(result.all_letters@, x),
                known_at(result.models(), x, 5),
            ) == count(result.all_letters@, x) by {
                lemma_known_at_greens(result, guess, answer, x, 5);
            }
        }
        result
    }
}

/// Where the knowledge was learned from one guess, the slots known to hold
/// `x` are those where guess and answer agree on `x`.
proof fn lemma_known_at_greens(k: WordKnowledge, guess: Word, answer: Word, x: u8, n: int)
    requires
        k.learned_from(guess, answer),
        0 <= n <= 5,
    ensures
        known_at(k.models(), x, n) == green_letters(indices(guess.letters@), indices(answer.letters@), x, n),
    decreases n,
{
    if n > 0 {
        lemma_known_at_greens(k, guess, answer, x, n - 1);
        let g = indices(guess.letters@);
        let a = indices(answer.letters@);
        let i = n - 1;
        assert(g[i] == guess.letters[i].0 && a[i] == answer.letters[i].0);
        assert(k.models()[i] == model(k.slot(i)));
        if g[i] == a[i] {
            assert(k.slot(i) == LetterKnowledge::Is(guess.letters[i]));
        } else {
            assert(k.slot(i) is IsNot);
        }
    }
}

/// Each answer slot holding `x` is either matched or unmatched.
pub proof fn lemma_answer_count_split(g: Seq<u8>, a: Seq<u8>, x: u8, n: int)
    requires
        0 <= n <= a.len(),
    ensures
        count(a.take(n), x) == green_letters(g, a, x, n) + unmatched_answer(g, a, x, n),
    decreases n,
{
    if n == 0 {
        assert(a.take(0) =~= Seq::<u8>::empty());
    } else {
        lemma_answer_count_split(g, a, x, n - 1);
        crate::counting::lemma_count_take_succ(a, n - 1, x);
    }
}

/// An unmatched answer slot counts among the unmatched answer slots.
pub proof fn lemma_unmatched_answer_includes(g: Seq<u8>, a: Seq<u8>, i: int, n: int)
    requires
        0 <= i < n,
        g[i] != a[i],
    ensures
        unmatched_answer(g, a, a[i], n) > 0,
    decreases n,
{
    if n - 1 > i {
        lemma_unmatched_answer_includes(g, a, i, n - 1);
    }
}

/// What a guess teaches never rules out the answer it was coloured against:
/// the answer is admitted by the knowledge learned from any guess.
pub proof fn lemma_learned_admits_answer(k: WordKnowledge, guess: Word, answer: Word)
    requires
        k.learned_from(guess, answer),
    ensures
        k.admits(answer),
{
    let g = indices(guess.letters@);
    let a = indices(answer.letters@);
    assert forall|i: int| 0 <= i < 5 implies #[trigger] k.slot(i).allows(answer.letters[i].0) by {
        assert(g[i] == guess.letters[i].0 && a[i] == answer.letters[i].0);
        if g[i] != a[i] {
            lemma_unmatched_answer_includes(g, a, i, 5);
            assert(!absent_letters(g, a, 5).contains(a[i]));
        }
    }
    assert forall|x: u8| x < 26 implies #[trigger] count(k.known_letters(), x) <= #[trigger] count(a, x) by {
        lemma_answer_count_split(g, a, x, 5);
        assert(a.take(5) =~= a);
    }
}

/// The number of positions below `n` whose element is a letter of the
/// alphabet.
pub open spec fn letter_count(s: Seq<u8>, n: int) -> nat
    decreases n,
{
    if n <= 0 {
        0
    } else {
        letter_count(s, n - 1) + ind(s[n - 1] < 26)
    }
}

/// The letters of an alphagram's slots, up to the first slot that holds none.
pub open spec fn lettered(s: Seq<u8>) -> Seq<Letter> {
    Seq::new(letter_count(s, s.len() as int), |k: int| Letter(s[k]))
}

/// The runs of equal consecutive letters of `s`: each letter with the number
/// of times it repeats.
pub open spec fn runs(s: Seq<Letter>) -> Seq<(usize, Letter)>
    decreases s.len(),
{
    if s.len() == 0 {
        Seq::empty()
    } else {
        let r = runs(s.drop_last());
        if r.len() > 0 && r.last().1 == s.last() {
            r.update(r.len() - 1, ((r.last().0 + 1) as usize, s.last()))
        } else {
            r.push((1usize, s.last()))
        }
    }
}

/// Trusted: `Itertools::dedup_with_count`, which the crate documents as
/// removing duplicates from sections of consecutive identical elements while
/// keeping a count of how many repeated elements were present.
#[verifier::external_body]
fn dedup_with_count(letters: Vec<Letter>) -> (r: Vec<(usize, Letter)>)
    ensures
        r@ == runs(letters@),
{
    letters.into_iter().dedup_with_count().collect()
}

/// In a sorted sequence, the letters of the alphabet come first.
proof fn lemma_letter_count_sorted(s: Seq<u8>, m: int, n: int)
    requires
        crate::counting::sorted(s),
        0 <= m <= s.len(),
        0 <= n <= s.len(),
        forall|k: int| 0 <= k < m ==> s[k] < 26,
        m == s.len() || s[m] >= 26,
    ensures
        letter_count(s, n) == if n <= m {
            n
        } else {
            m
        },
    decreases n,
{
    if n > 0 {
        lemma_letter_count_sorted(s, m, n - 1);
        if n - 1 >= m {
            assert(s[m] <= s[n - 1]);
        }
    }
}

/// The letters of an alphagram, in order.
fn letter_list(a: Alphagram) -> (r: Vec<Letter>)
    requires
        a.wf(),
    ensures
        r@ == lettered(a@),
{
    let mut it = a.into_iter();
    let mut r: Vec<Letter> = Vec::new();
    loop
        invariant_except_break
            r.len() == it.position(),
        invariant
            a.wf(),
            indices(it.letters()) == a@,
            it.letters().len() == 5,
            it.position() <= 5,
            forall|k: int| 0 <= k < r.len() ==> #[trigger] r[k] == Letter(a@[k]) && a@[k] < 26,
        ensures
            a.wf(),
            r.len() <= 5,
            forall|k: int| 0 <= k < r.len() ==> #[trigger] r[k] == Letter(a@[k]) && a@[k] < 26,
            r.len() == 5 || a@[r.len() as int] >= 26,
        decreases 5 - it.position(),
    {
        let ghost p = it.position();
        match it.next() {
            Some(l) => {
                assert(indices(it.letters())[p as int] == a@[p as int]);
                r.push(l);
            },
            None => {
                proof {
                    if p < 5 {
                        assert(indices(it.letters())[p as int] == a@[p as int]);
                    }
                }
                break;
            },
        }
    }
    proof {
        assert forall|k: int| 0 <= k < r.len() implies a@[k] < 26 by {
            assert(r[k] == Letter(a@[k]));
        }
        lemma_letter_count_sorted(a@, r.len() as int, 5);
        assert(r@ =~= lettered(a@));
    }
    r
}

#[derive(Clone, Copy, PartialEq, Eq, Structural, Debug)]
pub enum Conflict {
    MustBe(usize, Letter),
    CannotBe(usize, Letter),
    Missing(Letter, usize),
}

impl WordKnowledge {
    /// The conflicts of `w` with what is known about slot `i`.
    pub open spec fn slot_conflicts(&self, w: Word, i: int) -> Seq<Conflict> {
        match self.slot(i) {
            LetterKnowledge::Is(known) => if known.0 != w.letters[i].0 {
                seq![Conflict::MustBe(i as usize, known)]
            } else {
                Seq::empty()
            },
            LetterKnowledge::IsNot(set) => if set@.contains(w.letters[i].0) {
                seq![Conflict::CannotBe(i as usize, w.letters[i])]
            } else {
                Seq::empty()
            },
        }
    }

    /// The conflicts of `w` with the slots below `n`, in slot order.
    pub open spec fn slots_conflicts(&self, w: Word, n: int) -> Seq<Conflict>
        decreases n,
    {
        if n <= 0 {
            Seq::empty()
        } else {
            self.slots_conflicts(w, n - 1) + self.slot_conflicts(w, n - 1)
        }
    }

    /// Everything in `w` that conflicts with what is known: the slot
    /// conflicts in slot order, then each yellow letter that `w` holds,
    /// outside the slots known to hold it, fewer times than it is yellow, in
    /// alphabetical order.
    pub open spec fn conflicts(&self, w: Word) -> Seq<Conflict> {
        self.slots_conflicts(w, 5) + missing_letters(
            runs(lettered(self.yellow_letters())),
            self.models(),
            indices(w.letters@),
        )
    }

    /// Lists how `word` conflicts with what is known.
    pub fn check_for_conflicts(&self, word: Word) -> (r: Vec<Conflict>)
        requires
            self.wf(),
            forall|i: int| 0 <= i < 5 ==> (#[trigger] word.letters[i]).0 < 32,
        ensures
            r@ == self.conflicts(word),
    {
        let mut conflicts: Vec<Conflict> = Vec::new();
        let mut i: usize = 0;
        while i < 5
            invariant
                i <= 5,
                forall|k: int| 0 <= k < 5 ==> (#[trigger] word.letters[k]).0 < 32,
                conflicts@ == self.slots_conflicts(word, i as int),
            decreases 5 - i,
        {
            let letter = word.letters[i];
            assert(self.slot(i as int) == self.slots[i as int]);
            match self.slots[i] {
                LetterKnowledge::Is(known) => {
                    if known != letter {
                        conflicts.push(Conflict::MustBe(i, known));
                    }
                },
                LetterKnowledge::IsNot(set) => {
                    if set.contains(letter) {
                        conflicts.push(Conflict::CannotBe(i, letter));
                    }
                },
            }
            i += 1;
        }
        let ghost slot_part = conflicts@;
        let yellow_runs = dedup_with_count(letter_list(self.yellows));
        let mut k: usize = 0;
        while k < yellow_runs.len()
            invariant
                self.wf(),
                k <= yellow_runs.len(),
                conflicts@ == slot_part + missing_letters(yellow_runs@.take(k as int), self.models(), indices(word.letters@)),
            decreases yellow_runs.len() - k,
        {
            let (count_needed, letter) = yellow_runs[k];
            let count_found = self.count_outside_known(&word, letter);
            if count_found < count_needed {
                conflicts.push(Conflict::Missing(letter, count_needed));
            }
            assert(yellow_runs@.take(k + 1).drop_last() =~= yellow_runs@.take(k as int));
            k += 1;
        }
        assert(yellow_runs@.take(yellow_runs.len() as int) =~= yellow_runs@);
        conflicts
    }

    /// The number of slots where `word` holds `letter` and the slot is not
    /// known to hold it.
    fn count_outside_known(&self, word: &Word, letter: Letter) -> (r: usize)
        ensures
            r == outside_known(self.models(), indices(word.letters@), letter.0, 5),
    {
        let ghost v = indices(word.letters@);
        let ghost p = self.models();
        let mut n: usize = 0;
        let mut i: usize = 0;
        while i < 5
            invariant
                i <= 5,
                v == indices(word.letters@),
                p == self.models(),
                n == outside_known(p, v, letter.0, i as int),
                n <= i,
            decreases 5 - i,
        {
            let known_here = match self.slots[i] {
                LetterKnowledge::Is(known) => known == letter,
                LetterKnowledge::IsNot(_) => false,
            };
            assert(p[i as int] == model(self.slots[i as int]));
            assert(v[i as int] == word.letters[i as int].0);
            if word.letters[i] == letter && !known_here {
                n += 1;
            }
            i += 1;
        }
        n
    }
}

/// The number of slots below `n` where `v` holds `x` and the slot, as
/// modelled in `p`, is not known to hold `x`.
pub open spec fn outside_known(p: Seq<(Option<u8>, Set<u8>)>, v: Seq<u8>, x: u8, n: int) -> nat
    decreases n,
{
    if n <= 0 {
        0
    } else {
        outside_known(p, v, x, n - 1) + ind(v[n - 1] == x && p[n - 1].0 != Some(x))
    }
}

/// A `Missing` conflict for each run of letters that `w` holds, outside the
/// slots of `p` known to hold the letter, fewer times than the run repeats,
/// in order.
pub open spec fn missing_letters(rs: Seq<(usize, Letter)>, p: Seq<(Option<u8>, Set<u8>)>, w: Seq<u8>) -> Seq<Conflict>
    decreases rs.len(),
{
    if rs.len() == 0 {
        Seq::empty()
    } else {
        missing_letters(rs.drop_last(), p, w) + if outside_known(p, w, rs.last().1.0, 5) < rs.last().0 {
            seq![Conflict::Missing(rs.last().1, rs.last().0)]
        } else {
            Seq::empty()
        }
    }
}

/// A slot's knowledge as a value: the letter it must be, or else the
/// letters it cannot be.
pub open spec fn model(k: LetterKnowledge) -> (Option<u8>, Set<u8>) {
    match k {
        LetterKnowledge::Is(l) => (Some(l.0), Set::empty()),
        LetterKnowledge::IsNot(s) => (None, s@),
    }
}

/// The guess has a yellow `x` in a slot below `k`.
pub open spec fn yellow_before(cg: Seq<(Letter, GuessColor)>, k: int, x: u8) -> bool {
    exists|j: int| 0 <= j < k && (#[trigger] cg[j]).1 == GuessColor::Yellow && cg[j].0.0 == x
}

/// The letters that the guess slots below `n` show to be absent: black,
/// with no yellow of the same letter before them.
pub open spec fn shown_absent(cg: Seq<(Letter, GuessColor)>, n: int) -> Set<u8> {
    Set::new(
        |x: u8|
            exists|k: int|
                0 <= k < n && (#[trigger] cg[k]).1 == GuessColor::Black && cg[k].0.0 == x && !yellow_before(cg, k, x),
    )
}

/// What slot `j`, known as `m`, becomes once the guess slots below `n` are
/// taken in: known on a green, unchanged where already known, and otherwise
/// excluding its own guess letter and every letter shown absent.
pub open spec fn taken_in(m: (Option<u8>, Set<u8>), cg: Seq<(Letter, GuessColor)>, j: int, n: int) -> (Option<u8>, Set<u8>) {
    if j < n && cg[j].1 == GuessColor::Green {
        (Some(cg[j].0.0), Set::empty())
    } else if m.0 is Some {
        m
    } else if j < n {
        (None, m.1.insert(cg[j].0.0) + shown_absent(cg, n))
    } else {
        (None, m.1 + shown_absent(cg, n))
    }
}

/// The green and yellow letters of the guess, "no letter" for the black ones.
pub open spec fn shown_letters(cg: Seq<(Letter, GuessColor)>) -> Seq<u8> {
    Seq::new(5, |j: int| if cg[j].1 != GuessColor::Black { cg[j].0.0 } else { 255u8 })
}

/// The slot knowledge after taking in the whole guess.
pub open spec fn taken_in_all(k: WordKnowledge, cg: Seq<(Letter, GuessColor)>) -> Seq<(Option<u8>, Set<u8>)> {
    Seq::new(5, |j: int| taken_in(model(k.slot(j)), cg, j, 5))
}

/// The slot, as modelled, may still turn out to be `x`: it is not known and
/// does not exclude `x`.
pub open spec fn could_be(m: (Option<u8>, Set<u8>), x: u8) -> bool {
    m.0 is None && !m.1.contains(x)
}

/// The number of slots below `n` that may still turn out to be `x`.
pub open spec fn candidates(p: Seq<(Option<u8>, Set<u8>)>, x: u8, n: int) -> nat
    decreases n,
{
    if n <= 0 {
        0
    } else {
        candidates(p, x, n - 1) + ind(could_be(p[n - 1], x))
    }
}

/// The number of slots below `n` known to be `x`.
pub open spec fn known_at(p: Seq<(Option<u8>, Set<u8>)>, x: u8, n: int) -> nat
    decreases n,
{
    if n <= 0 {
        0
    } else {
        known_at(p, x, n - 1) + ind(p[n - 1].0 == Some(x))
    }
}

/// Every slot that may still be `x` becomes known to be `x`.
pub open spec fn place(p: Seq<(Option<u8>, Set<u8>)>, x: u8) -> Seq<(Option<u8>, Set<u8>)> {
    Seq::new(p.len(), |j: int| if could_be(p[j], x) { (Some(x), Set::<u8>::empty()) } else { p[j] })
}

/// Goes through the runs of yellow letters in order: a letter whose count
/// equals the number of slots that may still hold it is placed in them.
pub open spec fn placed(p: Seq<(Option<u8>, Set<u8>)>, rs: Seq<(usize, Letter)>) -> Seq<(Option<u8>, Set<u8>)>
    decreases rs.len(),
{
    if rs.len() == 0 {
        p
    } else {
        let q = placed(p, rs.drop_last());
        if candidates(q, rs.last().1.0, 5) == rs.last().0 {
            place(q, rs.last().1.0)
        } else {
            q
        }
    }
}

/// The number of times `x` is taken out of the yellows while placing.
pub open spec fn placed_removals(p: Seq<(Option<u8>, Set<u8>)>, rs: Seq<(usize, Letter)>, x: u8) -> nat
    decreases rs.len(),
{
    if rs.len() == 0 {
        0
    } else {
        let q = placed(p, rs.drop_last());
        placed_removals(p, rs.drop_last(), x) + if candidates(q, rs.last().1.0, 5) == rs.last().0
            && rs.last().1.0 == x {
            rs.last().0 as nat
        } else {
            0
        }
    }
}

/// The runs of a sequence of letters of the alphabet hold letters of the
/// alphabet.
pub proof fn lemma_runs_valid(s: Seq<Letter>)
    requires
        forall|k: int| 0 <= k < s.len() ==> (#[trigger] s[k]).0 < 26,
    ensures
        forall|r: int| 0 <= r < runs(s).len() ==> (#[trigger] runs(s)[r]).1.0 < 26,
    decreases s.len(),
{
    if s.len() > 0 {
        lemma_runs_valid(s.drop_last());
        let r = runs(s.drop_last());
        assert(s.last().0 < 26);
        if r.len() > 0 && r.last().1 == s.last() {
            assert forall|q: int| 0 <= q < runs(s).len() implies (#[trigger] runs(s)[q]).1.0 < 26 by {
                if q < r.len() - 1 {
                    assert(runs(s)[q] == r[q]);
                }
            }
        } else {
            assert forall|q: int| 0 <= q < runs(s).len() implies (#[trigger] runs(s)[q]).1.0 < 26 by {
                if q < r.len() {
                    assert(runs(s)[q] == r[q]);
                }
            }
        }
    }
}

/// Placing keeps the number of slots.
pub proof fn lemma_placed_len(p: Seq<(Option<u8>, Set<u8>)>, rs: Seq<(usize, Letter)>)
    ensures
        placed(p, rs).len() == p.len(),
    decreases rs.len(),
{
    if rs.len() > 0 {
        lemma_placed_len(p, rs.drop_last());
    }
}

/// In a sorted sequence, nothing from a non-letter on counts as a letter.
proof fn lemma_letter_count_le(s: Seq<u8>, k: int, n: int)
    requires
        crate::counting::sorted(s),
        0 <= k < s.len(),
        0 <= n <= s.len(),
        s[k] >= 26,
    ensures
        letter_count(s, n) <= if n <= k { n } else { k },
    decreases n,
{
    if n > 0 {
        lemma_letter_count_le(s, k, n - 1);
        if n - 1 >= k {
            assert(s[k] <= s[n - 1]);
        }
    }
}

/// The letters of a sorted sequence are letters of the alphabet.
proof fn lemma_lettered_valid(s: Seq<u8>)
    requires
        crate::counting::sorted(s),
    ensures
        forall|k: int| 0 <= k < lettered(s).len() ==> (#[trigger] lettered(s)[k]).0 < 26,
{
    assert forall|k: int| 0 <= k < lettered(s).len() implies (#[trigger] lettered(s)[k]).0 < 26 by {
        lemma_letter_count_le_len(s, s.len() as int);
        if s[k] >= 26 {
            lemma_letter_count_le(s, k, s.len() as int);
        }
    }
}

proof fn lemma_letter_count_le_len(s: Seq<u8>, n: int)
    requires
        0 <= n,
    ensures
        letter_count(s, n) <= n,
    decreases n,
{
    if n > 0 {
        lemma_letter_count_le_len(s, n - 1);
    }
}

impl WordKnowledge {
    /// The knowledge is `before` having taken in the coloured guess `cg`, with
    /// `y3` the sorted yellows before any yellow letter was placed.
    pub open spec fn took_in_with(&self, before: WordKnowledge, cg: Seq<(Letter, GuessColor)>, y3: Seq<u8>) -> bool {
        &&& y3.len() == 5
        &&& sorted(y3)
        &&& forall|x: u8| x != 255 ==> #[trigger] count(y3, x) + min_nat(
            count(self.known_letters(), x),
            known_at(taken_in_all(before, cg), x, 5),
        ) == count(self.known_letters(), x)
        &&& forall|j: int| 0 <= j < 5 ==> model(#[trigger] self.slot(j)) == placed(
            taken_in_all(before, cg),
            runs(lettered(y3)),
        )[j]
        &&& forall|x: u8| x != 255 ==> #[trigger] count(self.yellow_letters(), x) + min_nat(
            count(y3, x),
            placed_removals(taken_in_all(before, cg), runs(lettered(y3)), x),
        ) == count(y3, x)
    }

    /// The knowledge is `before` having taken in the coloured guess `cg`: the
    /// known letters merge in the guess's green and yellow letters; the
    /// yellows are the known letters less one for each known slot; and each
    /// yellow letter with exactly as many candidate slots as its count is
    /// placed in them.
    pub open spec fn took_in(&self, before: WordKnowledge, cg: Seq<(Letter, GuessColor)>) -> bool {
        &&& smallest_of_max_union(self.known_letters(), before.known_letters(), shown_letters(cg))
        &&& exists|y3: Seq<u8>| #[trigger] self.took_in_with(before, cg, y3)
    }

    /// Takes in what a coloured guess shows.
    pub fn add_guess(&mut self, guess: &ColoredGuess)
        requires
            old(self).wf(),
            guess@.len() == 5,
            forall|j: int| 0 <= j < 5 ==> (#[trigger] guess@[j]).0.0 < 32,
        ensures
            final(self).wf(),
            final(self).took_in(*old(self), guess@),
    {
        let ghost cg = guess@;
        let ghost p0 = Seq::new(5, |j: int| model(self.slots[j]));
        let slots_in = guess.iter();
        let mut new_letters = Alphagram::new();
        let mut new_yellows = Alphagram::new();
        proof {
            assert(shown_absent(cg, 0) =~= Set::<u8>::empty());
            assert forall|j: int| 0 <= j < 5 implies model(#[trigger] self.slots[j]) == taken_in(p0[j], cg, j, 0) by {
                if p0[j].0 is None {
                    assert(p0[j].1 + Set::<u8>::empty() =~= p0[j].1);
                }
            }
            assert forall|x: u8| x != 255 implies (#[trigger] count(new_yellows@, x) > 0) == yellow_before(cg, 0, x) by {
                crate::counting::lemma_count5(new_yellows@, x);
            }
            assert forall|x: u8| #[trigger] count(new_letters@, x) == count(shown_letters(cg).take(0), x) + (if x == 255 { 5int } else { 0int }) by {
                crate::counting::lemma_count5(new_letters@, x);
                assert(shown_letters(cg).take(0) =~= Seq::<u8>::empty());
            }
        }
        let mut i: usize = 0;
        while i < 5
            invariant
                i <= 5,
                cg == guess@,
                cg.len() == 5,
                slots_in@ == cg,
                forall|j: int| 0 <= j < 5 ==> (#[trigger] cg[j]).0.0 < 32,
                p0 == Seq::new(5, |j: int| model(old(self).slots[j])),
                self.all_letters == old(self).all_letters,
                self.yellows == old(self).yellows,
                new_letters.wf(),
                new_yellows.wf(),
                new_letters.size() <= i,
                new_yellows.size() <= i,
                forall|x: u8| #[trigger] count(new_letters@, x) == count(shown_letters(cg).take(i as int), x) + (if x == 255 {
                    5 - i
                } else {
                    0int
                }),
                forall|x: u8| x != 255 ==> (#[trigger] count(new_yellows@, x) > 0) == yellow_before(cg, i as int, x),
                forall|j: int| 0 <= j < 5 ==> model(#[trigger] self.slots[j]) == taken_in(p0[j], cg, j, i as int),
            decreases 5 - i,
        {
            let (letter, color) = slots_in[i];
            let ghost x = letter.0;
            let ghost before = Seq::new(5, |j: int| model(self.slots[j]));
            match color {
                GuessColor::Green => {
                    new_letters.insert(letter);
                    let mut slot = self.slots[i];
                    slot.set_letter(letter);
                    self.slots[i] = slot;
                },
                GuessColor::Yellow => {
                    new_letters.insert(letter);
                    new_yellows.insert(letter);
                    let mut slot = self.slots[i];
                    slot.remove_letter(letter);
                    self.slots[i] = slot;
                },
                GuessColor::Black => {
                    if new_yellows.contains(letter) {
                        let mut slot = self.slots[i];
                        slot.remove_letter(letter);
                        self.slots[i] = slot;
                    } else {
                        let mut j: usize = 0;
                        while j < 5
                            invariant
                                j <= 5,
                                x == letter.0,
                                x < 32,
                                before.len() == 5,
                                self.all_letters == old(self).all_letters,
                                self.yellows == old(self).yellows,
                                forall|k: int| 0 <= k < j ==> #[trigger] model(self.slots[k]) == (if before[k].0 is Some {
                                    before[k]
                                } else {
                                    (None, before[k].1.insert(x))
                                }),
                                forall|k: int| j <= k < 5 ==> #[trigger] model(self.slots[k]) == before[k],
                            decreases 5 - j,
                        {
                            let ghost prev = self.slots@;
                            let mut slot = self.slots[j];
                            slot.remove_letter(letter);
                            self.slots[j] = slot;
                            proof {
                                assert(forall|k: int| 0 <= k < 5 && k != j ==> self.slots@[k] == prev[k]);
                                assert(model(prev[j as int]) == before[j as int]);
                            }
                            j += 1;
                        }
                    }
                },
            }
            proof {
                lemma_taken_in_step(cg, i as int);
                let ii = i as int;
                assert(cg[ii].0 == letter && cg[ii].1 == color);
                assert forall|y: u8| #[trigger] count(new_letters@, y) == count(shown_letters(cg).take(ii + 1), y) + (if y == 255 {
                    5 - (ii + 1)
                } else {
                    0int
                }) by {
                    crate::counting::lemma_count_take_succ(shown_letters(cg), ii, y);
                }
                assert forall|y: u8| y != 255 implies (#[trigger] count(new_yellows@, y) > 0) == yellow_before(cg, ii + 1, y) by {
                    lemma_yellow_before_step(cg, ii, y);
                }
                assert forall|j: int| 0 <= j < 5 implies model(#[trigger] self.slots[j]) == taken_in(p0[j], cg, j, ii + 1) by {
                    assert(before[j] == taken_in(p0[j], cg, j, ii));
                    if color == GuessColor::Black && !yellow_before(cg, ii, x) {
                        if p0[j].0 is None && !(j < ii && cg[j].1 == GuessColor::Green) {
                            if j <= ii {
                                assert(before[j].1.insert(x) =~= p0[j].1.insert(cg[j].0.0) + shown_absent(cg, ii + 1));
                            } else {
                                assert(before[j].1.insert(x) =~= p0[j].1 + shown_absent(cg, ii + 1));
                            }
                        }
                    } else if j == ii && color != GuessColor::Green && p0[j].0 is None {
                        assert(before[j].1.insert(x) =~= p0[j].1.insert(cg[j].0.0) + shown_absent(cg, ii + 1));
                    }
                }
            }
            i += 1;
        }
        let ghost p1 = taken_in_all(*old(self), cg);
        proof {
            assert(shown_letters(cg).take(5) =~= shown_letters(cg));
            assert forall|j: int| 0 <= j < 5 implies model(#[trigger] self.slots[j]) == p1[j] by {
                assert(model(old(self).slot(j)) == p0[j]);
            }
            assert forall|j: int| 0 <= j < 5 implies (#[trigger] self.slots[j] matches LetterKnowledge::Is(l) ==> l.0 < 32) by {
                assert(model(old(self).slots[j]) == p0[j]);
                if old(self).slots[j] is Is {
                    assert(old(self).slots[j] matches LetterKnowledge::Is(l) ==> l.0 < 32);
                }
            }
        }
        let merged = self.all_letters.merged(new_letters);
        proof {
            let k0 = old(self).all_letters@;
            assert forall|x: u8| #[trigger] max_count(k0, new_letters@, x) == max_count(k0, shown_letters(cg), x) by {}
        }
        self.all_letters = merged;
        self.yellows = self.all_letters;
        let mut j: usize = 0;
        proof {
            assert forall|x: u8| x != 255 implies #[trigger] count(self.yellows@, x) + min_nat(
                count(self.all_letters@, x),
                known_at(p1, x, 0),
            ) == count(self.all_letters@, x) by {}
        }
        while j < 5
            invariant
                j <= 5,
                p1.len() == 5,
                self.all_letters == merged,
                self.all_letters.wf(),
                self.yellows.wf(),
                forall|k: int| 0 <= k < 5 ==> model(#[trigger] self.slots[k]) == p1[k],
                forall|k: int| 0 <= k < 5 ==> (#[trigger] self.slots[k] matches LetterKnowledge::Is(l) ==> l.0 < 32),
                forall|x: u8| x != 255 ==> #[trigger] count(self.yellows@, x) + min_nat(
                    count(self.all_letters@, x),
                    known_at(p1, x, j as int),
                ) == count(self.all_letters@, x),
            decreases 5 - j,
        {
            if let LetterKnowledge::Is(letter) = self.slots[j] {
                assert(p1[j as int].0 == Some(letter.0));
                self.yellows.remove(letter);
            }
            j += 1;
        }
        let ghost y3 = self.yellows@;
        let yellow_runs = dedup_with_count(letter_list(self.yellows));
        proof {
            lemma_lettered_valid(y3);
            lemma_runs_valid(lettered(y3));
            assert(yellow_runs@.take(0) =~= Seq::<(usize, Letter)>::empty());
            assert forall|k: int| 0 <= k < 5 implies model(#[trigger] self.slots[k]) == placed(p1, yellow_runs@.take(0))[k] by {}
        }
        let mut r: usize = 0;
        while r < yellow_runs.len()
            invariant
                r <= yellow_runs.len(),
                yellow_runs@ == runs(lettered(y3)),
                forall|q: int| 0 <= q < yellow_runs@.len() ==> (#[trigger] yellow_runs@[q]).1.0 < 26,
                p1.len() == 5,
                self.all_letters == merged,
                self.all_letters.wf(),
                self.yellows.wf(),
                forall|k: int| 0 <= k < 5 ==> model(#[trigger] self.slots[k]) == placed(p1, yellow_runs@.take(r as int))[k],
                forall|k: int| 0 <= k < 5 ==> (#[trigger] self.slots[k] matches LetterKnowledge::Is(l) ==> l.0 < 32),
                forall|x: u8| x != 255 ==> #[trigger] count(self.yellows@, x) + min_nat(
                    count(y3, x),
                    placed_removals(p1, yellow_runs@.take(r as int), x),
                ) == count(y3, x),
            decreases yellow_runs.len() - r,
        {
            let (needed, letter) = yellow_runs[r];
            let ghost q = placed(p1, yellow_runs@.take(r as int));
            proof {
                lemma_placed_len(p1, yellow_runs@.take(r as int));
            }
            let ghost x = letter.0;
            assert(x < 32);
            let mut potential: usize = 0;
            let mut j: usize = 0;
            while j < 5
                invariant
                    j <= 5,
                    x == letter.0,
                    x < 32,
                    q.len() == 5,
                    forall|k: int| 0 <= k < 5 ==> model(#[trigger] self.slots[k]) == q[k],
                    potential == candidates(q, x, j as int),
                    potential <= j,
                decreases 5 - j,
            {
                if self.slots[j].could_still_be(letter) {
                    potential += 1;
                }
                j += 1;
            }
            let ghost ystart = self.yellows@;
            if potential == needed {
                let mut j: usize = 0;
                while j < 5
                    invariant
                        j <= 5,
                        x == letter.0,
                        x < 32,
                        q.len() == 5,
                        self.yellows.wf(),
                        self.all_letters == merged,
                        forall|k: int| 0 <= k < j ==> model(#[trigger] self.slots[k]) == place(q, x)[k],
                        forall|k: int| j <= k < 5 ==> model(#[trigger] self.slots[k]) == q[k],
                        forall|k: int| 0 <= k < 5 ==> (#[trigger] self.slots[k] matches LetterKnowledge::Is(l) ==> l.0 < 32),
                        forall|y: u8| y != 255 ==> #[trigger] count(self.yellows@, y) + min_nat(
                            count(ystart, y),
                            if y == x { candidates(q, x, j as int) } else { 0 },
                        ) == count(ystart, y),
                    decreases 5 - j,
                {
                    let ghost prev = self.slots@;
                    if self.slots[j].could_still_be(letter) {
                        let mut slot = self.slots[j];
                        slot.set_letter(letter);
                        self.slots[j] = slot;
                        self.yellows.remove(letter);
                    }
                    proof {
                        assert(forall|k: int| 0 <= k < 5 && k != j ==> self.slots@[k] == prev[k]);
                    }
                    j += 1;
                }
                proof {
                    assert forall|k: int| 0 <= k < 5 implies model(#[trigger] self.slots[k]) == placed(p1, yellow_runs@.take(r + 1))[k] by {
                        assert(yellow_runs@.take(r + 1).drop_last() =~= yellow_runs@.take(r as int));
                    }
                    assert forall|y: u8| y != 255 implies #[trigger] count(self.yellows@, y) + min_nat(
                        count(y3, y),
                        placed_removals(p1, yellow_runs@.take(r + 1), y),
                    ) == count(y3, y) by {
                        assert(yellow_runs@.take(r + 1).drop_last() =~= yellow_runs@.take(r as int));
                        assert(count(ystart, y) + min_nat(count(y3, y), placed_removals(p1, yellow_runs@.take(r as int), y)) == count(y3, y));
                    }
                }
            } else {
                proof {
                    assert(yellow_runs@.take(r + 1).drop_last() =~= yellow_runs@.take(r as int));
                    assert forall|y: u8| y != 255 implies #[trigger] count(self.yellows@, y) + min_nat(
                        count(y3, y),
                        placed_removals(p1, yellow_runs@.take(r + 1), y),
                    ) == count(y3, y) by {
                        assert(count(ystart, y) + min_nat(count(y3, y), placed_removals(p1, yellow_runs@.take(r as int), y)) == count(y3, y));
                    }
                }
            }
            r += 1;
        }
        proof {
            assert(yellow_runs@.take(yellow_runs@.len() as int) =~= yellow_runs@);
            assert forall|j: int| 0 <= j < 5 implies model(#[trigger] self.slot(j)) == placed(p1, runs(lettered(y3)))[j] by {}
            assert(self.took_in_with(*old(self), cg, y3));
            let rs = runs(lettered(y3));
            lemma_placed_len(p1, rs);
            assert(self.models() =~= placed(p1, rs));
            assert forall|x: u8| x != 255 implies #[trigger] count(self.yellows@, x) + min_nat(
                count(self.all_letters@, x),
                known_at(self.models(), x, 5),
            ) == count(self.all_letters@, x) by {
                lemma_placed_known_at(p1, rs, x);
                assert(count(y3, x) + min_nat(count(self.all_letters@, x), known_at(p1, x, 5)) == count(self.all_letters@, x));
                assert(count(self.yellows@, x) + min_nat(count(y3, x), placed_removals(p1, rs, x)) == count(y3, x));
            }
        }
    }
}

/// Placing `x` makes every slot that may still hold it known to hold it.
proof fn lemma_place_known_at_same(q: Seq<(Option<u8>, Set<u8>)>, x: u8, n: int)
    requires
        n <= q.len(),
    ensures
        known_at(place(q, x), x, n) == known_at(q, x, n) + candidates(q, x, n),
    decreases n,
{
    if n > 0 {
        lemma_place_known_at_same(q, x, n - 1);
    }
}

/// Placing the yellows makes known as many slots for each letter as it
/// takes that letter out of the yellows.
proof fn lemma_placed_known_at(p: Seq<(Option<u8>, Set<u8>)>, rs: Seq<(usize, Letter)>, x: u8)
    requires
        p.len() == 5,
    ensures
        known_at(placed(p, rs), x, 5) == known_at(p, x, 5) + placed_removals(p, rs, x),
    decreases rs.len(),
{
    if rs.len() > 0 {
        let t0 = rs.drop_last();
        lemma_placed_known_at(p, t0, x);
        lemma_placed_len(p, t0);
        let q = placed(p, t0);
        let y = rs.last().1.0;
        if candidates(q, y, 5) == rs.last().0 {
            if y == x {
                lemma_place_known_at_same(q, x, 5);
            } else {
                lemma_place_known_at(q, y, x, 5);
            }
        }
    }
}

/// A guess slot adds a yellow before the next slot only when it is yellow.
pub proof fn lemma_yellow_before_step(cg: Seq<(Letter, GuessColor)>, i: int, y: u8)
    requires
        0 <= i < cg.len(),
    ensures
        yellow_before(cg, i + 1, y) == (yellow_before(cg, i, y) || (cg[i].1 == GuessColor::Yellow && cg[i].0.0 == y)),
{
    if yellow_before(cg, i + 1, y) && !(cg[i].1 == GuessColor::Yellow && cg[i].0.0 == y) {
        let j = choose|j: int| 0 <= j < i + 1 && (#[trigger] cg[j]).1 == GuessColor::Yellow && cg[j].0.0 == y;
        assert(j < i);
    }
    if cg[i].1 == GuessColor::Yellow && cg[i].0.0 == y {
        assert(cg[i].1 == GuessColor::Yellow && cg[i].0.0 == y);
    }
}

/// A guess slot shows its letter absent when it is black with no yellow of
/// that letter before it.
pub proof fn lemma_taken_in_step(cg: Seq<(Letter, GuessColor)>, i: int)
    requires
        0 <= i < cg.len(),
    ensures
        shown_absent(cg, i + 1) == if cg[i].1 == GuessColor::Black && !yellow_before(cg, i, cg[i].0.0) {
            shown_absent(cg, i).insert(cg[i].0.0)
        } else {
            shown_absent(cg, i)
        },
{
    let target = if cg[i].1 == GuessColor::Black && !yellow_before(cg, i, cg[i].0.0) {
        shown_absent(cg, i).insert(cg[i].0.0)
    } else {
        shown_absent(cg, i)
    };
    assert forall|x: u8| shown_absent(cg, i + 1).contains(x) implies target.contains(x) by {
        let k = choose|k: int|
            0 <= k < i + 1 && (#[trigger] cg[k]).1 == GuessColor::Black && cg[k].0.0 == x && !yellow_before(cg, k, x);
        if k < i {
            assert(shown_absent(cg, i).contains(x));
        }
    }
    assert forall|x: u8| target.contains(x) implies shown_absent(cg, i + 1).contains(x) by {
        if shown_absent(cg, i).contains(x) {
            let k = choose|k: int|
                0 <= k < i && (#[trigger] cg[k]).1 == GuessColor::Black && cg[k].0.0 == x && !yellow_before(cg, k, x);
            assert(0 <= k < i + 1 && cg[k].1 == GuessColor::Black && cg[k].0.0 == x && !yellow_before(cg, k, x));
        } else {
            assert(0 <= i < i + 1 && cg[i].1 == GuessColor::Black && cg[i].0.0 == x && !yellow_before(cg, i, x));
        }
    }
    assert(shown_absent(cg, i + 1) =~= target);
}

/// The number of guess slots below `n` holding `x` that are yellow.
pub open spec fn yellows_of(g: Seq<u8>, a: Seq<u8>, x: u8, n: int) -> nat
    decreases n,
{
    if n <= 0 {
        0
    } else {
        yellows_of(g, a, x, n - 1) + ind(g[n - 1] == x && slot_color(g, a, n - 1) == GuessColor::Yellow)
    }
}

/// A letter is yellow as often as it is unmatched in both guess and answer.
pub proof fn lemma_yellows_of(g: Seq<u8>, a: Seq<u8>, x: u8, n: int)
    requires
        0 <= n <= 5,
        x != 255,
    ensures
        yellows_of(g, a, x, n) == min_nat(unmatched_guess(g, a, x, n), unmatched_answer(g, a, x, 5)),
    decreases n,
{
    if n > 0 {
        lemma_yellows_of(g, a, x, n - 1);
    }
}

/// Some slot below `n` is a yellow `x` when the count says so.
proof fn lemma_yellows_of_witness(g: Seq<u8>, a: Seq<u8>, x: u8, n: int) -> (k: int)
    requires
        0 <= n <= 5,
        yellows_of(g, a, x, n) > 0,
    ensures
        0 <= k < n,
        g[k] == x,
        slot_color(g, a, k) == GuessColor::Yellow,
    decreases n,
{
    if yellows_of(g, a, x, n - 1) > 0 {
        lemma_yellows_of_witness(g, a, x, n - 1)
    } else {
        n - 1
    }
}

/// The slot, as modelled, allows `x`.
pub open spec fn model_allows(m: (Option<u8>, Set<u8>), x: u8) -> bool {
    match m.0 {
        Some(v) => v == x,
        None => !m.1.contains(x),
    }
}

/// A guess coloured against `answer`, as `color_guess` colours it.
pub open spec fn colored_against(cg: Seq<(Letter, GuessColor)>, guess: Word, answer: Word) -> bool {
    &&& cg.len() == 5
    &&& forall|i: int| 0 <= i < 5 ==> (#[trigger] cg[i]).0 == guess.letters[i] && cg[i].1 == slot_color(
        indices(guess.letters@),
        indices(answer.letters@),
        i,
    )
}

/// The green and yellow letters of a coloured guess are at most the answer's.
proof fn lemma_shown_letters_count(cg: Seq<(Letter, GuessColor)>, guess: Word, answer: Word, x: u8, n: int)
    requires
        colored_against(cg, guess, answer),
        guess.valid(),
        0 <= n <= 5,
        x != 255,
    ensures
        count(shown_letters(cg).take(n), x) == green_letters(indices(guess.letters@), indices(answer.letters@), x, n)
            + yellows_of(indices(guess.letters@), indices(answer.letters@), x, n),
    decreases n,
{
    let g = indices(guess.letters@);
    let a = indices(answer.letters@);
    if n == 0 {
        assert(shown_letters(cg).take(0) =~= Seq::<u8>::empty());
    } else {
        lemma_shown_letters_count(cg, guess, answer, x, n - 1);
        crate::counting::lemma_count_take_succ(shown_letters(cg), n - 1, x);
        assert(cg[n - 1].0 == guess.letters[n - 1]);
        assert(g[n - 1] == guess.letters[n - 1].0);
    }
}

/// Each slot of the knowledge after taking in a guess coloured against the
/// answer, before yellow letters are placed, allows the answer's letter.
proof fn lemma_taken_in_allows(before: WordKnowledge, cg: Seq<(Letter, GuessColor)>, guess: Word, answer: Word, j: int)
    requires
        before.admits(answer),
        colored_against(cg, guess, answer),
        guess.valid(),
        0 <= j < 5,
    ensures
        model_allows(taken_in_all(before, cg)[j], answer.letters[j].0),
{
    let g = indices(guess.letters@);
    let a = indices(answer.letters@);
    let x = answer.letters[j].0;
    let m = model(before.slot(j));
    assert(before.slot(j).allows(x));
    assert(cg[j].0 == guess.letters[j]);
    assert(g[j] == guess.letters[j].0 && a[j] == x);
    if !(cg[j].1 == GuessColor::Green) && m.0 is None {
        if shown_absent(cg, 5).contains(x) {
            let k = choose|k: int|
                0 <= k < 5 && (#[trigger] cg[k]).1 == GuessColor::Black && cg[k].0.0 == x && !yellow_before(cg, k, x);
            assert(cg[k].0 == guess.letters[k]);
            assert(g[k] == x);
            lemma_unmatched_answer_includes(g, a, j, 5);
            lemma_yellows_of(g, a, x, k);
            if yellows_of(g, a, x, k) > 0 {
                let k2 = lemma_yellows_of_witness(g, a, x, k);
                assert(cg[k2].0 == guess.letters[k2]);
                assert(cg[k2].1 == GuessColor::Yellow && cg[k2].0.0 == x);
            }
        }
    }
}

/// The letters of `s` are in alphabetical order.
pub open spec fn letters_sorted(s: Seq<Letter>) -> bool {
    forall|i: int, j: int| 0 <= i <= j < s.len() ==> s[i].0 <= s[j].0
}

/// The runs of a sorted sequence of letters come in strictly alphabetical
/// order, each counting every occurrence of its letter, the last run being
/// that of the last letter.
pub proof fn lemma_runs_sorted(s: Seq<Letter>)
    requires
        letters_sorted(s),
        s.len() <= 5,
    ensures
        forall|q: int| 0 <= q < runs(s).len() ==> (#[trigger] runs(s)[q]).0 == count(indices(s), runs(s)[q].1.0),
        forall|q1: int, q2: int| 0 <= q1 < q2 < runs(s).len() ==> (#[trigger] runs(s)[q1]).1.0 < (#[trigger] runs(s)[q2]).1.0,
        s.len() > 0 ==> runs(s).len() > 0 && runs(s).last().1 == s.last(),
    decreases s.len(),
{
    if s.len() > 0 {
        let t = s.drop_last();
        let l = s.last();
        lemma_runs_sorted(t);
        let r = runs(t);
        assert(indices(s) =~= indices(t).push(l.0));
        assert forall|y: u8| #[trigger] count(indices(s), y) == count(indices(t), y) + ind(l.0 == y) by {
            crate::counting::lemma_count_push(indices(t), l.0, y);
        }
        if r.len() > 0 && r.last().1 == l {
            crate::counting::lemma_count_le_len(indices(t), l.0);
            assert forall|q: int| 0 <= q < runs(s).len() implies (#[trigger] runs(s)[q]).0 == count(indices(s), runs(s)[q].1.0) by {
                if q < r.len() - 1 {
                    assert(runs(s)[q] == r[q]);
                    assert(r[q].1.0 < r[r.len() - 1].1.0);
                }
            }
            assert forall|q1: int, q2: int| 0 <= q1 < q2 < runs(s).len() implies (#[trigger] runs(s)[q1]).1.0 < (#[trigger] runs(s)[q2]).1.0 by {
                assert(runs(s)[q1].1 == r[q1].1);
                assert(runs(s)[q2].1 == r[q2].1);
            }
        } else {
            if r.len() > 0 {
                assert(t.last().0 <= l.0);
            }
            assert forall|q: int| 0 <= q < r.len() implies (#[trigger] r[q]).1.0 < l.0 by {
                if q < r.len() - 1 {
                    assert(r[q].1.0 < r[r.len() - 1].1.0);
                }
            }
            assert(count(indices(t), l.0) == 0) by {
                assert forall|k: int| 0 <= k < indices(t).len() implies indices(t)[k] != l.0 by {
                    if r.len() > 0 {
                        assert(t[k].0 <= t.last().0);
                        assert(t.last().0 < l.0);
                    }
                }
                crate::counting::lemma_count_absent(indices(t), l.0);
            }
            assert forall|q: int| 0 <= q < runs(s).len() implies (#[trigger] runs(s)[q]).0 == count(indices(s), runs(s)[q].1.0) by {
                if q < r.len() {
                    assert(runs(s)[q] == r[q]);
                }
            }
            assert forall|q1: int, q2: int| 0 <= q1 < q2 < runs(s).len() implies (#[trigger] runs(s)[q1]).1.0 < (#[trigger] runs(s)[q2]).1.0 by {
                assert(runs(s)[q1] == r[q1]);
                if q2 < r.len() {
                    assert(runs(s)[q2] == r[q2]);
                }
            }
        }
    }
}

/// The letter count of a prefix of letters is its length.
proof fn lemma_letter_count_prefix(s: Seq<u8>, n: int)
    requires
        0 <= n <= s.len(),
        forall|k: int| 0 <= k < n ==> s[k] < 26,
    ensures
        letter_count(s, n) == n,
    decreases n,
{
    if n > 0 {
        lemma_letter_count_prefix(s, n - 1);
    }
}

/// The letter count only grows with the length considered.
proof fn lemma_letter_count_monotonic(s: Seq<u8>, m: int, n: int)
    requires
        0 <= m <= n,
    ensures
        letter_count(s, m) <= letter_count(s, n),
    decreases n - m,
{
    if m < n {
        lemma_letter_count_monotonic(s, m, n - 1);
    }
}

/// In a sorted sequence the letters of the alphabet are those of its
/// lettered prefix, which is sorted too.
pub proof fn lemma_count_lettered(s: Seq<u8>)
    requires
        sorted(s),
    ensures
        forall|x: u8| x < 26 ==> #[trigger] count(s, x) == count(indices(lettered(s)), x),
        letters_sorted(lettered(s)),
        lettered(s).len() <= s.len(),
{
    let m = letter_count(s, s.len() as int) as int;
    lemma_letter_count_le_len(s, s.len() as int);
    lemma_lettered_valid(s);
    assert forall|k: int| m <= k < s.len() implies s[k] >= 26 by {
        if s[k] < 26 {
            assert forall|i: int| 0 <= i < k + 1 implies s[i] < 26 by {
                assert(s[i] <= s[k]);
            }
            lemma_letter_count_prefix(s, k + 1);
            lemma_letter_count_monotonic(s, k + 1, s.len() as int);
        }
    }
    assert(indices(lettered(s)) =~= s.take(m));
    assert forall|x: u8| x < 26 implies #[trigger] count(s, x) == count(indices(lettered(s)), x) by {
        crate::counting::lemma_count_split(s, m, x);
        crate::counting::lemma_count_absent(s.skip(m), x);
    }
}

/// The number of slots below `n` that may still turn out to be `x` although
/// the answer has another letter there.
pub open spec fn misplaced(q: Seq<(Option<u8>, Set<u8>)>, a: Seq<u8>, x: u8, n: int) -> nat
    decreases n,
{
    if n <= 0 {
        0
    } else {
        misplaced(q, a, x, n - 1) + ind(could_be(q[n - 1], x) && a[n - 1] != x)
    }
}

/// Where every slot allows the answer's letter, each answer slot holding `x`
/// is either known to be `x` or a candidate for it.
proof fn lemma_candidates_balance(q: Seq<(Option<u8>, Set<u8>)>, a: Seq<u8>, x: u8, n: int)
    requires
        0 <= n <= q.len(),
        n <= a.len(),
        forall|j: int| 0 <= j < n ==> #[trigger] model_allows(q[j], a[j]),
    ensures
        count(a.take(n), x) + misplaced(q, a, x, n) == known_at(q, x, n) + candidates(q, x, n),
    decreases n,
{
    if n == 0 {
        assert(a.take(0) =~= Seq::<u8>::empty());
    } else {
        lemma_candidates_balance(q, a, x, n - 1);
        crate::counting::lemma_count_take_succ(a, n - 1, x);
        assert(model_allows(q[n - 1], a[n - 1]));
    }
}

/// No misplaced candidate: every candidate slot holds `x` in the answer.
proof fn lemma_misplaced_zero(q: Seq<(Option<u8>, Set<u8>)>, a: Seq<u8>, x: u8, n: int)
    requires
        misplaced(q, a, x, n) == 0,
    ensures
        forall|j: int| 0 <= j < n && #[trigger] could_be(q[j], x) ==> a[j] == x,
    decreases n,
{
    if n > 0 {
        lemma_misplaced_zero(q, a, x, n - 1);
    }
}

/// No candidate slot at all.
proof fn lemma_candidates_zero(q: Seq<(Option<u8>, Set<u8>)>, x: u8, n: int)
    requires
        candidates(q, x, n) == 0,
    ensures
        forall|j: int| 0 <= j < n ==> !#[trigger] could_be(q[j], x),
    decreases n,
{
    if n > 0 {
        lemma_candidates_zero(q, x, n - 1);
    }
}

/// Placing `x` leaves the slots known to hold another letter as they were.
proof fn lemma_place_known_at(q: Seq<(Option<u8>, Set<u8>)>, x: u8, y: u8, n: int)
    requires
        x != y,
        n <= q.len(),
    ensures
        known_at(place(q, x), y, n) == known_at(q, y, n),
    decreases n,
{
    if n > 0 {
        lemma_place_known_at(q, x, y, n - 1);
    }
}

/// Placing yellow letters, in strictly alphabetical runs that count them as
/// the yellows do, keeps every slot allowing the answer's letter, and leaves
/// the slots known to hold a letter of no run as they were.
proof fn lemma_placed_allows(
    p: Seq<(Option<u8>, Set<u8>)>,
    t: Seq<(usize, Letter)>,
    y3: Seq<u8>,
    known: Seq<u8>,
    a: Seq<u8>,
)
    requires
        p.len() == 5,
        a.len() == 5,
        forall|j: int| 0 <= j < 5 ==> #[trigger] model_allows(p[j], a[j]),
        forall|q1: int, q2: int| 0 <= q1 < q2 < t.len() ==> (#[trigger] t[q1]).1.0 < (#[trigger] t[q2]).1.0,
        forall|q: int| 0 <= q < t.len() ==> (#[trigger] t[q]).0 == count(y3, t[q].1.0) && t[q].1.0 < 26,
        forall|x: u8| x != 255 ==> #[trigger] count(y3, x) + min_nat(count(known, x), known_at(p, x, 5)) == count(known, x),
        forall|x: u8| x < 26 ==> #[trigger] count(known, x) <= count(a, x),
    ensures
        placed(p, t).len() == 5,
        forall|j: int| 0 <= j < 5 ==> #[trigger] model_allows(placed(p, t)[j], a[j]),
        forall|x: u8| (forall|q: int| 0 <= q < t.len() ==> (#[trigger] t[q]).1.0 != x) ==> #[trigger] known_at(placed(p, t), x, 5)
            == known_at(p, x, 5),
    decreases t.len(),
{
    lemma_placed_len(p, t);
    if t.len() > 0 {
        let t0 = t.drop_last();
        assert forall|q1: int, q2: int| 0 <= q1 < q2 < t0.len() implies (#[trigger] t0[q1]).1.0 < (#[trigger] t0[q2]).1.0 by {
            assert(t0[q1] == t[q1] && t0[q2] == t[q2]);
        }
        assert forall|q: int| 0 <= q < t0.len() implies (#[trigger] t0[q]).0 == count(y3, t0[q].1.0) && t0[q].1.0 < 26 by {
            assert(t0[q] == t[q]);
        }
        lemma_placed_allows(p, t0, y3, known, a);
        let q = placed(p, t0);
        let x = t.last().1.0;
        let c = t.last().0;
        assert(t.last() == t[t.len() - 1]);
        assert forall|k: int| 0 <= k < t0.len() implies (#[trigger] t0[k]).1.0 != x by {
            assert(t0[k] == t[k]);
        }
        let kk = known_at(q, x, 5);
        assert(kk == known_at(p, x, 5));
        let kn = count(known, x);
        assert(c + min_nat(kn, kk) == kn);
        lemma_candidates_balance(q, a, x, 5);
        assert(a.take(5) =~= a);
        if candidates(q, x, 5) == c {
            if kn >= kk {
                lemma_misplaced_zero(q, a, x, 5);
            } else {
                lemma_candidates_zero(q, x, 5);
            }
            assert forall|j: int| 0 <= j < 5 implies #[trigger] model_allows(placed(p, t)[j], a[j]) by {
                assert(placed(p, t) == place(q, x));
                assert(model_allows(q[j], a[j]));
            }
        } else {
            assert(placed(p, t) == q);
        }
        assert forall|y: u8| (forall|k: int| 0 <= k < t.len() ==> (#[trigger] t[k]).1.0 != y) implies #[trigger] known_at(placed(p, t), y, 5)
            == known_at(p, y, 5) by {
            assert(t[t.len() - 1].1.0 != y);
            assert forall|k: int| 0 <= k < t0.len() implies (#[trigger] t0[k]).1.0 != y by {
                assert(t0[k] == t[k]);
            }
            lemma_place_known_at(q, x, y, 5);
        }
    }
}

/// Taking in a guess coloured against the answer never rules the answer out:
/// knowledge that admits the answer still admits it after the guess.
pub proof fn lemma_add_guess_admits_answer(
    before: WordKnowledge,
    after: WordKnowledge,
    cg: Seq<(Letter, GuessColor)>,
    guess: Word,
    answer: Word,
)
    requires
        before.admits(answer),
        guess.valid(),
        colored_against(cg, guess, answer),
        after.took_in(before, cg),
    ensures
        after.admits(answer),
{
    let g = indices(guess.letters@);
    let a = indices(answer.letters@);
    let shown = shown_letters(cg);
    assert forall|x: u8| x < 26 implies #[trigger] count(after.known_letters(), x) <= #[trigger] count(a, x) by {
        lemma_shown_letters_count(cg, guess, answer, x, 5);
        assert(shown.take(5) =~= shown);
        lemma_yellows_of(g, a, x, 5);
        lemma_answer_count_split(g, a, x, 5);
        assert(a.take(5) =~= a);
        assert(count(before.known_letters(), x) <= count(a, x));
        assert(count(after.known_letters(), x) <= max_count(before.known_letters(), shown, x));
    }
    let p1 = taken_in_all(before, cg);
    let y3 = choose|y3: Seq<u8>| #[trigger] after.took_in_with(before, cg, y3);
    let s = lettered(y3);
    let rs = runs(s);
    lemma_count_lettered(y3);
    lemma_lettered_valid(y3);
    lemma_runs_valid(s);
    lemma_runs_sorted(s);
    assert forall|q: int| 0 <= q < rs.len() implies (#[trigger] rs[q]).0 == count(y3, rs[q].1.0) && rs[q].1.0 < 26 by {}
    assert forall|j: int| 0 <= j < 5 implies #[trigger] model_allows(p1[j], a[j]) by {
        lemma_taken_in_allows(before, cg, guess, answer, j);
    }
    lemma_placed_allows(p1, rs, y3, after.known_letters(), a);
    assert forall|i: int| 0 <= i < 5 implies #[trigger] after.slot(i).allows(answer.letters[i].0) by {
        assert(model_allows(placed(p1, rs)[i], a[i]));
        assert(a[i] == answer.letters[i].0);
    }
}

/// Taking in a guess forgets nothing known: where the knowledge admits the
/// answer that the guess is coloured against, every letter is known after
/// the guess at least as often as it was known before, and as often as the
/// guess shows it green or yellow; in all, as often as whichever of the two
/// is more. This holds however the player guesses, hard mode or not.
pub proof fn lemma_add_guess_keeps_known(
    before: WordKnowledge,
    after: WordKnowledge,
    cg: Seq<(Letter, GuessColor)>,
    guess: Word,
    answer: Word,
)
    requires
        before.admits(answer),
        guess.valid(),
        colored_against(cg, guess, answer),
        after.wf(),
        after.took_in(before, cg),
    ensures
        forall|x: u8| x < 26 ==> #[trigger] count(after.known_letters(), x) >= count(before.known_letters(), x),
        forall|x: u8| x < 26 ==> #[trigger] count(after.known_letters(), x) >= count(shown_letters(cg), x),
        forall|x: u8| x < 26 ==> #[trigger] count(after.known_letters(), x) == max_count(
            before.known_letters(),
            shown_letters(cg),
            x,
        ),
{
    let g = indices(guess.letters@);
    let a = indices(answer.letters@);
    let shown = shown_letters(cg);
    let known = after.known_letters();
    let prior = before.known_letters();
    assert(shown.take(5) =~= shown);
    assert(a.take(5) =~= a);
    assert forall|y: u8| y < 26 implies #[trigger] max_count(prior, shown, y) <= count(a, y) by {
        lemma_shown_letters_count(cg, guess, answer, y, 5);
        lemma_yellows_of(g, a, y, 5);
        lemma_answer_count_split(g, a, y, 5);
        assert(count(prior, y) <= count(a, y));
    }
    assert forall|x: u8| x < 26 implies #[trigger] count(known, x) == max_count(prior, shown, x) by {
        assert(count(known, x) <= max_count(prior, shown, x));
        if count(known, x) < max_count(prior, shown, x) {
            assert forall|k: int| 0 <= k < known.len() implies (#[trigger] known[k]) < 26 by {
                assert(known[k] <= x);
            }
            assert forall|y: u8| y < 26 implies #[trigger] count(known, y) <= count(a, y) by {
                assert(count(known, y) <= max_count(prior, shown, y));
                assert(max_count(prior, shown, y) <= count(a, y));
            }
            assert(max_count(prior, shown, x) <= count(a, x));
            lemma_letter_total_len(known, 26);
            lemma_letter_total_len(a, 26);
            lemma_letter_total_le(known, a, 26, x as int);
            assert(known.len() == 5);
            assert(a.len() == 5);
        }
    }
}

/// Taking in a guess only narrows what is possible: where the knowledge
/// admits the answer that the guess is coloured against, every word that
/// the knowledge admits after the guess it already admitted before.
pub proof fn lemma_add_guess_narrows(
    before: WordKnowledge,
    after: WordKnowledge,
    cg: Seq<(Letter, GuessColor)>,
    guess: Word,
    answer: Word,
    w: Word,
)
    requires
        before.admits(answer),
        guess.valid(),
        colored_against(cg, guess, answer),
        after.wf(),
        after.took_in(before, cg),
        after.admits(w),
    ensures
        before.admits(w),
{
    let g = indices(guess.letters@);
    let a = indices(answer.letters@);
    let v = indices(w.letters@);
    let p1 = taken_in_all(before, cg);
    lemma_add_guess_keeps_known(before, after, cg, guess, answer);
    assert forall|x: u8| x < 26 implies #[trigger] count(before.known_letters(), x) <= #[trigger] count(v, x) by {
        assert(count(after.known_letters(), x) >= count(before.known_letters(), x));
        assert(count(after.known_letters(), x) <= count(v, x));
    }
    let y3 = choose|y3: Seq<u8>| #[trigger] after.took_in_with(before, cg, y3);
    let rs = runs(lettered(y3));
    assert forall|j: int| 0 <= j < 5 implies #[trigger] before.slot(j).allows(w.letters[j].0) by {
        assert(v[j] == w.letters[j].0);
        assert(a[j] == answer.letters[j].0);
        assert(g[j] == guess.letters[j].0);
        assert(cg[j].0 == guess.letters[j]);
        assert(after.slot(j).allows(w.letters[j].0));
        assert(model(after.slot(j)) == placed(p1, rs)[j]);
        lemma_placed_weaker(p1, rs, v, j);
        assert(model_allows(p1[j], v[j]));
        assert(before.slot(j).allows(answer.letters[j].0));
        let m = model(before.slot(j));
        assert(model_allows(m, a[j]));
        if cg[j].1 == GuessColor::Green {
            assert(g[j] == a[j]);
            assert(v[j] == g[j]);
        } else if m.0 is None {
            assert(!p1[j].1.contains(v[j]));
            assert(m.1.subset_of(p1[j].1));
        }
    }
}

/// Taking in a guess teaches at least what the guess alone shows: where the
/// knowledge admits the answer that the guess is coloured against, every
/// word it admits after the guess remains possible after that one guess
/// against that answer: it has the green letters in their slots, no other
/// slot holds its own guess letter or a letter the guess shows absent, and
/// it holds each letter at least as often as the guess shows it green or
/// yellow.
pub proof fn lemma_add_guess_keeps_guess(
    before: WordKnowledge,
    after: WordKnowledge,
    cg: Seq<(Letter, GuessColor)>,
    guess: Word,
    answer: Word,
    w: Word,
)
    requires
        before.admits(answer),
        guess.valid(),
        colored_against(cg, guess, answer),
        after.wf(),
        after.took_in(before, cg),
        after.admits(w),
    ensures
        remains(guess, answer, w),
{
    let g = indices(guess.letters@);
    let a = indices(answer.letters@);
    let v = indices(w.letters@);
    let shown = shown_letters(cg);
    let p1 = taken_in_all(before, cg);
    lemma_add_guess_keeps_known(before, after, cg, guess, answer);
    lemma_shown_absent(cg, guess, answer);
    assert(shown.take(5) =~= shown);
    assert forall|x: u8| x < 26 implies green_letters(g, a, x, 5) + min_nat(unmatched_guess(g, a, x, 5), unmatched_answer(g, a, x, 5))
        <= #[trigger] count(v, x) by {
        lemma_shown_letters_count(cg, guess, answer, x, 5);
        lemma_yellows_of(g, a, x, 5);
        assert(count(after.known_letters(), x) >= count(shown, x));
        assert(count(after.known_letters(), x) <= count(v, x));
    }
    let y3 = choose|y3: Seq<u8>| #[trigger] after.took_in_with(before, cg, y3);
    let rs = runs(lettered(y3));
    assert forall|i: int| 0 <= i < 5 implies #[trigger] v[i] == v[i] && (g[i] == a[i] ==> v[i] == g[i]) && (g[i] != a[i] ==> v[i]
        != g[i] && !absent_letters(g, a, 5).contains(v[i])) by {
        assert(v[i] == w.letters[i].0);
        assert(a[i] == answer.letters[i].0);
        assert(g[i] == guess.letters[i].0);
        assert(cg[i].0 == guess.letters[i]);
        assert(after.slot(i).allows(w.letters[i].0));
        assert(model(after.slot(i)) == placed(p1, rs)[i]);
        lemma_placed_weaker(p1, rs, v, i);
        assert(model_allows(p1[i], v[i]));
        assert(before.slot(i).allows(answer.letters[i].0));
        let m = model(before.slot(i));
        assert(model_allows(m, a[i]));
        if g[i] != a[i] {
            assert(cg[i].1 != GuessColor::Green);
            if m.0 is Some {
                assert(v[i] == a[i]);
                lemma_unmatched_answer_includes(g, a, i, 5);
            } else {
                assert(!p1[i].1.contains(v[i]));
            }
        }
    }
}

/// The ordinal of a zero-based letter position, in words.
pub open spec fn ordinal(index: int) -> Seq<char> {
    if index == 0 {
        "first"@
    } else if index == 1 {
        "second"@
    } else if index == 2 {
        "third"@
    } else if index == 3 {
        "fourth"@
    } else {
        "fifth"@
    }
}

/// The name of the capital `c` begins with a vowel sound.
pub open spec fn takes_an(c: char) -> bool {
    c == 'A' || c == 'E' || c == 'F' || c == 'H' || c == 'I' || c == 'L' || c == 'M' || c == 'N' || c == 'O'
        || c == 'R' || c == 'S' || c == 'X'
}

/// The letter `c` with its indefinite article.
pub open spec fn with_article(c: char) -> Seq<char> {
    if takes_an(c) {
        "an "@ + seq![c]
    } else {
        "a "@ + seq![c]
    }
}

/// The sentence that explains a conflict.
pub open spec fn conflict_text(conflict: Conflict) -> Seq<char> {
    match conflict {
        Conflict::MustBe(i, letter) => "The "@ + ordinal(i as int) + " letter must be "@ + with_article(
            letter_char(letter.0),
        ) + "."@,
        Conflict::CannotBe(i, letter) => "The "@ + ordinal(i as int) + " letter cannot be "@ + with_article(
            letter_char(letter.0),
        ) + "."@,
        Conflict::Missing(letter, needed) => if needed == 1 {
            "The word must contain "@ + with_article(letter_char(letter.0)) + "."@
        } else {
            "The word must contain "@ + decimal(needed as nat) + " "@ + seq![letter_char(letter.0)] + "'s."@
        },
    }
}

impl Conflict {
    /// The slot positions of the conflict are those of a word.
    pub open spec fn in_word(self) -> bool {
        match self {
            Conflict::MustBe(i, _) => i < 5,
            Conflict::CannotBe(i, _) => i < 5,
            Conflict::Missing(_, _) => true,
        }
    }

    /// The sentence that explains the conflict.
    pub fn as_text(self) -> (r: String)
        requires
            self.in_word(),
        ensures
            r@ == conflict_text(self),
    {
        let mut s = String::new();
        match self {
            Conflict::MustBe(i, letter) => {
                s.append("The ");
                s.append(index_to_ordinal(i));
                s.append(" letter must be ");
                let article = add_indefinite_article_to_letter(letter);
                s.append(article.as_str());
                s.append(".");
            },
            Conflict::CannotBe(i, letter) => {
                s.append("The ");
                s.append(index_to_ordinal(i));
                s.append(" letter cannot be ");
                let article = add_indefinite_article_to_letter(letter);
                s.append(article.as_str());
                s.append(".");
            },
            Conflict::Missing(letter, needed) => {
                s.append("The word must contain ");
                if needed == 1 {
                    let article = add_indefinite_article_to_letter(letter);
                    s.append(article.as_str());
                    s.append(".");
                } else {
                    let number = usize_text(needed);
                    s.append(number.as_str());
                    s.append(" ");
                    push_char(&mut s, letter.char());
                    s.append("'s.");
                }
            },
        }
        proof {
            let e = Seq::<char>::empty();
            assert(e + "The "@ =~= "The "@);
            assert(e + "The word must contain "@ =~= "The word must contain "@);
        }
        s
    }
}

/// The ordinal of a zero-based letter position, in words.
pub fn index_to_ordinal(index: usize) -> (r: &'static str)
    requires
        index < 5,
    ensures
        r@ == ordinal(index as int),
{
    match index {
        0 => "first",
        1 => "second",
        2 => "third",
        3 => "fourth",
        _ => "fifth",
    }
}

/// The letter with its indefinite article, as in "an A" or "a B".
pub fn add_indefinite_article_to_letter(letter: Letter) -> (r: String)
    ensures
        r@ == with_article(letter_char(letter.0)),
{
    let c = letter.char();
    let mut s = String::new();
    if c == 'A' || c == 'E' || c == 'F' || c == 'H' || c == 'I' || c == 'L' || c == 'M' || c == 'N' || c == 'O'
        || c == 'R' || c == 'S' || c == 'X' {
        s.append("an ");
    } else {
        s.append("a ");
    }
    push_char(&mut s, c);
    proof {
        let e = Seq::<char>::empty();
        assert(e + "an "@ =~= "an "@);
        assert(e + "a "@ =~= "a "@);
    }
    s
}

/// The letters of the runs of `s`: `s` with each repeat of the letter before
/// it left out.
pub open spec fn run_letters(s: Seq<Letter>) -> Seq<Letter> {
    runs(s).map_values(|r: (usize, Letter)| r.1)
}

/// Trusted: `Itertools::dedup`, which the crate documents as removing
/// duplicates from sections of consecutive identical elements.
#[verifier::external_body]
fn dedup(letters: Vec<Letter>) -> (r: Vec<Letter>)
    ensures
        r@ == run_letters(letters@),
{
    letters.into_iter().dedup().collect()
}

/// The letters of `s` that `set` does not hold, in order.
pub open spec fn outside(s: Seq<Letter>, set: Set<u8>) -> Seq<Letter>
    decreases s.len(),
{
    if s.len() == 0 {
        Seq::empty()
    } else {
        outside(s.drop_last(), set) + if set.contains(s.last().0) {
            Seq::empty()
        } else {
            seq![s.last()]
        }
    }
}

/// `p` shows what is known of a slot: a known letter in green; otherwise
/// the yellow letters the slot may still hold in yellow, then the letters it
/// cannot hold in red.
pub open spec fn knowledge_shown(p: Seq<char>, k: LetterKnowledge, yellows: Seq<u8>) -> bool {
    match k {
        LetterKnowledge::Is(l) => shown_fg(p, seq![letter_char(l.0)], Color::Green),
        LetterKnowledge::IsNot(set) => exists|m: int|
            0 <= m <= p.len() && #[trigger] shown_fg(
                p.take(m),
                letters_text(outside(run_letters(lettered(yellows)), set@)),
                Color::Yellow,
            ) && shown_fg(p.skip(m), letters_text(set_letters(set@, 32)), Color::Red),
    }
}

impl LetterKnowledge {
    /// What is known of the slot, for a terminal.
    pub fn formatted(&self, yellows: Alphagram) -> (r: String)
        requires
            yellows.wf(),
        ensures
            knowledge_shown(r@, *self, yellows@),
    {
        match self {
            LetterKnowledge::Is(letter) => letter_with_fg(*letter, Color::Green),
            LetterKnowledge::IsNot(set) => {
                let ys = dedup(letter_list(yellows));
                proof {
                    lemma_lettered_valid(yellows@);
                    lemma_runs_valid(lettered(yellows@));
                }
                let mut kept: Vec<Letter> = Vec::new();
                let mut i: usize = 0;
                while i < ys.len()
                    invariant
                        i <= ys.len(),
                        ys@ == run_letters(lettered(yellows@)),
                        forall|q: int| 0 <= q < runs(lettered(yellows@)).len() ==> (#[trigger] runs(lettered(yellows@))[q]).1.0 < 26,
                        kept@ == outside(ys@.take(i as int), set@),
                    decreases ys.len() - i,
                {
                    let l = ys[i];
                    assert(l == runs(lettered(yellows@))[i as int].1);
                    if !set.contains(l) {
                        kept.push(l);
                    }
                    assert(ys@.take(i + 1).drop_last() =~= ys@.take(i as int));
                    i += 1;
                }
                assert(ys@.take(ys.len() as int) =~= ys@);
                let mut r = letters_with_fg(kept.as_slice(), Color::Yellow);
                let ghost first = r@;
                let excluded = set.letters();
                let red = letters_with_fg(excluded.as_slice(), Color::Red);
                r.append(red.as_str());
                proof {
                    let m = first.len() as int;
                    assert(r@.take(m) =~= first);
                    assert(r@.skip(m) =~= red@);
                }
                r
            },
        }
    }
}

/// Each part shows what is known of the slot at its position.
pub open spec fn knowledge_parts(parts: Seq<Seq<char>>, k: WordKnowledge) -> bool {
    &&& parts.len() == 5
    &&& forall|j: int| 0 <= j < 5 ==> #[trigger] knowledge_shown(parts[j], k.slot(j), k.yellow_letters())
}

/// `p` shows a letter of a word against what is known: green where its slot
/// is known to be it, else yellow where it is a yellow letter, else plain.
pub open spec fn word_letter_shown(p: Seq<char>, k: LetterKnowledge, l: Letter, yellows: Seq<u8>) -> bool {
    if k == LetterKnowledge::Is(l) {
        shown_fg(p, seq![letter_char(l.0)], Color::Green)
    } else if yellows.contains(l.0) {
        shown_fg(p, seq![letter_char(l.0)], Color::Yellow)
    } else {
        p == seq![letter_char(l.0)]
    }
}

/// Each part shows the letter of `w` at its position against what is known.
pub open spec fn word_parts(parts: Seq<Seq<char>>, k: WordKnowledge, w: Word) -> bool {
    &&& parts.len() == 5
    &&& forall|j: int| 0 <= j < 5 ==> #[trigger] word_letter_shown(parts[j], k.slot(j), w.letters[j], k.yellow_letters())
}

impl WordKnowledge {
    /// What is known, for a terminal: the slots between brackets, separated
    /// by bars.
    pub fn formatted(&self) -> (r: String)
        requires
            self.wf(),
        ensures
            exists|parts: Seq<Seq<char>>| #[trigger] knowledge_parts(parts, *self) && r@ == "["@ + joined(parts, "|"@)
                + "]"@,
    {
        let mut parts: Vec<String> = Vec::new();
        let mut i: usize = 0;
        while i < 5
            invariant
                i <= 5,
                self.wf(),
                parts.len() == i,
                forall|j: int| 0 <= j < i ==> #[trigger] knowledge_shown(parts@[j]@, self.slot(j), self.yellow_letters()),
            decreases 5 - i,
        {
            let part = self.slots[i].formatted(self.yellows);
            parts.push(part);
            i += 1;
        }
        let ghost views = texts(parts@);
        assert(knowledge_parts(views, *self));
        let inner = join(parts, "|");
        let mut r = String::new();
        r.append("[");
        r.append(inner.as_str());
        r.append("]");
        assert(Seq::<char>::empty() + "["@ =~= "["@);
        r
    }

    /// The word for a terminal, each letter coloured by what is known.
    pub fn format_word(&self, word: Word) -> (r: String)
        requires
            self.wf(),
        ensures
            exists|parts: Seq<Seq<char>>| #[trigger] word_parts(parts, *self, word) && r@ == joined(parts, ""@),
    {
        let mut parts: Vec<String> = Vec::new();
        let mut i: usize = 0;
        while i < 5
            invariant
                i <= 5,
                self.wf(),
                parts.len() == i,
                forall|j: int| 0 <= j < i ==> #[trigger] word_letter_shown(parts@[j]@, self.slot(j), word.letters[j], self.yellow_letters()),
            decreases 5 - i,
        {
            let letter = word.letters[i];
            let known_here = match self.slots[i] {
                LetterKnowledge::Is(known) => known == letter,
                LetterKnowledge::IsNot(_) => false,
            };
            let part = if known_here {
                letter_with_fg(letter, Color::Green)
            } else if self.yellows.contains(letter) {
                letter_with_fg(letter, Color::Yellow)
            } else {
                letter.to_string()
            };
            parts.push(part);
            i += 1;
        }
        let ghost views = texts(parts@);
        assert(word_parts(views, *self, word));
        join(parts, "")
    }
}

/// `w` remains possible after a single guess `guess` against `answer`:
/// it has the green letters in their slots, no other slot holds its own
/// guess letter or a letter the guess shows absent, and it holds each letter
/// at least as often as the guess shows it green or yellow.
pub open spec fn remains(guess: Word, answer: Word, w: Word) -> bool {
    let g = indices(guess.letters@);
    let a = indices(answer.letters@);
    let v = indices(w.letters@);
    &&& forall|i: int|
        #![trigger v[i]]
        0 <= i < 5 ==> (g[i] == a[i] ==> v[i] == g[i]) && (g[i] != a[i] ==> v[i] != g[i] && !absent_letters(
            g,
            a,
            5,
        ).contains(v[i]))
    &&& forall|x: u8| x < 26 ==> green_letters(g, a, x, 5) + min_nat(unmatched_guess(g, a, x, 5), unmatched_answer(g, a, x, 5)) <= #[trigger] count(v, x)
}

/// Knowledge learned from one guess admits exactly the words that remain
/// possible after it.
pub proof fn lemma_learned_admits(k: WordKnowledge, guess: Word, answer: Word, w: Word)
    requires
        k.learned_from(guess, answer),
    ensures
        k.admits(w) == remains(guess, answer, w),
{
    let g = indices(guess.letters@);
    let a = indices(answer.letters@);
    let v = indices(w.letters@);
    assert forall|i: int| 0 <= i < 5 implies #[trigger] k.slot(i).allows(w.letters[i].0) == ((g[i] == a[i] ==> v[i] == g[i]) && (g[i]
        != a[i] ==> v[i] != g[i] && !absent_letters(g, a, 5).contains(v[i]))) by {
        assert(v[i] == w.letters[i].0 && g[i] == guess.letters[i].0);
    }
    if k.admits(w) {
        assert forall|x: u8| x < 26 implies green_letters(g, a, x, 5) + min_nat(unmatched_guess(g, a, x, 5), unmatched_answer(g, a, x, 5))
            <= #[trigger] count(v, x) by {
            assert(count(k.known_letters(), x) <= count(v, x));
        }
        assert forall|i: int| 0 <= i < 5 implies #[trigger] v[i] == v[i] && (g[i] == a[i] ==> v[i] == g[i]) && (g[i] != a[i] ==> v[i]
            != g[i] && !absent_letters(g, a, 5).contains(v[i])) by {
            assert(k.slot(i).allows(w.letters[i].0));
        }
    }
    if remains(guess, answer, w) {
        assert forall|i: int| 0 <= i < 5 implies #[trigger] k.slot(i).allows(w.letters[i].0) by {
            assert((g[i] == a[i] ==> v[i] == g[i]) && (g[i] != a[i] ==> v[i] != g[i] && !absent_letters(g, a, 5).contains(v[i])));
        }
        assert forall|x: u8| x < 26 implies #[trigger] count(k.known_letters(), x) <= #[trigger] count(v, x) by {}
    }
}

/// No slot conflicts where every slot allows the word's letter.
proof fn lemma_slots_conflicts_empty(k: WordKnowledge, w: Word, n: int)
    requires
        0 <= n <= 5,
        forall|i: int| 0 <= i < 5 ==> #[trigger] k.slot(i).allows(w.letters[i].0),
    ensures
        k.slots_conflicts(w, n) == Seq::<Conflict>::empty(),
    decreases n,
{
    if n > 0 {
        lemma_slots_conflicts_empty(k, w, n - 1);
        assert(k.slot(n - 1).allows(w.letters[n - 1].0));
        assert(k.slot_conflicts(w, n - 1) == Seq::<Conflict>::empty());
        assert(Seq::<Conflict>::empty() + Seq::<Conflict>::empty() =~= Seq::<Conflict>::empty());
    }
}

/// No letter is missing where the word holds every run's letter, outside
/// the slots known to hold it, as often as the run repeats.
proof fn lemma_missing_letters_empty(rs: Seq<(usize, Letter)>, p: Seq<(Option<u8>, Set<u8>)>, w: Seq<u8>)
    requires
        forall|q: int| 0 <= q < rs.len() ==> outside_known(p, w, (#[trigger] rs[q]).1.0, 5) >= rs[q].0,
    ensures
        missing_letters(rs, p, w) == Seq::<Conflict>::empty(),
    decreases rs.len(),
{
    if rs.len() > 0 {
        assert forall|q: int| 0 <= q < rs.drop_last().len() implies outside_known(p, w, (#[trigger] rs.drop_last()[q]).1.0, 5)
            >= rs.drop_last()[q].0 by {
            assert(rs.drop_last()[q] == rs[q]);
        }
        lemma_missing_letters_empty(rs.drop_last(), p, w);
        assert(rs.last() == rs[rs.len() - 1]);
        assert(Seq::<Conflict>::empty() + Seq::<Conflict>::empty() =~= Seq::<Conflict>::empty());
    }
}

/// The slot conflicts are empty only where every slot allows the word's
/// letter.
proof fn lemma_slots_conflicts_allow(k: WordKnowledge, w: Word, n: int)
    requires
        0 <= n <= 5,
        k.slots_conflicts(w, n) == Seq::<Conflict>::empty(),
    ensures
        forall|i: int| 0 <= i < n ==> #[trigger] k.slot(i).allows(w.letters[i].0),
    decreases n,
{
    if n > 0 {
        let a = k.slots_conflicts(w, n - 1);
        let b = k.slot_conflicts(w, n - 1);
        assert((a + b).len() == a.len() + b.len());
        assert(a =~= Seq::<Conflict>::empty());
        lemma_slots_conflicts_allow(k, w, n - 1);
        assert(b.len() == 0);
        assert(k.slot(n - 1).allows(w.letters[n - 1].0));
    }
}

/// No letter is missing only where the word holds every run's letter,
/// outside the slots known to hold it, as often as the run repeats.
proof fn lemma_missing_letters_none(rs: Seq<(usize, Letter)>, p: Seq<(Option<u8>, Set<u8>)>, w: Seq<u8>)
    requires
        missing_letters(rs, p, w) == Seq::<Conflict>::empty(),
    ensures
        forall|q: int| 0 <= q < rs.len() ==> outside_known(p, w, (#[trigger] rs[q]).1.0, 5) >= rs[q].0,
    decreases rs.len(),
{
    if rs.len() > 0 {
        let a = missing_letters(rs.drop_last(), p, w);
        let b = if outside_known(p, w, rs.last().1.0, 5) < rs.last().0 {
            seq![Conflict::Missing(rs.last().1, rs.last().0)]
        } else {
            Seq::<Conflict>::empty()
        };
        assert((a + b).len() == a.len() + b.len());
        assert(a =~= Seq::<Conflict>::empty());
        lemma_missing_letters_none(rs.drop_last(), p, w);
        assert forall|q: int| 0 <= q < rs.len() implies outside_known(p, w, (#[trigger] rs[q]).1.0, 5) >= rs[q].0 by {
            if q < rs.len() - 1 {
                assert(rs.drop_last()[q] == rs[q]);
            }
        }
    }
}

/// Every letter of a sorted sequence has a run.
proof fn lemma_runs_cover(s: Seq<Letter>, x: u8)
    requires
        letters_sorted(s),
        s.len() <= 5,
        count(indices(s), x) > 0,
    ensures
        exists|q: int| 0 <= q < runs(s).len() && (#[trigger] runs(s)[q]).1.0 == x,
    decreases s.len(),
{
    let t = s.drop_last();
    let l = s.last();
    lemma_runs_sorted(s);
    assert(indices(s) =~= indices(t).push(l.0));
    crate::counting::lemma_count_push(indices(t), l.0, x);
    if l.0 == x {
        assert(runs(s)[runs(s).len() - 1].1.0 == x);
    } else {
        lemma_runs_cover(t, x);
        let q = choose|q: int| 0 <= q < runs(t).len() && (#[trigger] runs(t)[q]).1.0 == x;
        assert(runs(s)[q].1 == runs(t)[q].1);
    }
}

/// Where every slot allows the word's letter, the word holds `x` in the
/// slots known to hold it and in the others.
proof fn lemma_count_known_outside(p: Seq<(Option<u8>, Set<u8>)>, v: Seq<u8>, x: u8, n: int)
    requires
        0 <= n <= v.len(),
        n <= p.len(),
        forall|j: int| 0 <= j < n ==> #[trigger] model_allows(p[j], v[j]),
    ensures
        count(v.take(n), x) == known_at(p, x, n) + outside_known(p, v, x, n),
    decreases n,
{
    if n == 0 {
        assert(v.take(0) =~= Seq::<u8>::empty());
    } else {
        lemma_count_known_outside(p, v, x, n - 1);
        crate::counting::lemma_count_take_succ(v, n - 1, x);
        assert(model_allows(p[n - 1], v[n - 1]));
    }
}

/// A word conflicts with nothing known exactly where the knowledge admits
/// it: `check_for_conflicts` gives no conflict for a possible answer exactly
/// where `matches` accepts it.
pub proof fn lemma_no_conflicts_iff_admitted(k: WordKnowledge, w: Word)
    requires
        k.wf(),
    ensures
        (k.conflicts(w) == Seq::<Conflict>::empty()) == k.admits(w),
{
    let known = k.known_letters();
    let y = k.yellow_letters();
    let p = k.models();
    let v = indices(w.letters@);
    let s = lettered(y);
    let rs = runs(s);
    lemma_count_lettered(y);
    lemma_lettered_valid(y);
    lemma_runs_valid(s);
    lemma_runs_sorted(s);
    assert(v.take(5) =~= v);
    if k.admits(w) {
        lemma_slots_conflicts_empty(k, w, 5);
        assert forall|j: int| 0 <= j < 5 implies #[trigger] model_allows(p[j], v[j]) by {
            assert(k.slot(j).allows(w.letters[j].0));
        }
        assert forall|q: int| 0 <= q < rs.len() implies outside_known(p, v, (#[trigger] rs[q]).1.0, 5) >= rs[q].0 by {
            let x = rs[q].1.0;
            assert(x < 26);
            lemma_count_known_outside(p, v, x, 5);
            assert(count(known, x) <= count(v, x));
            assert(count(y, x) + min_nat(count(known, x), known_at(p, x, 5)) == count(known, x));
        }
        lemma_missing_letters_empty(rs, p, v);
        assert(Seq::<Conflict>::empty() + Seq::<Conflict>::empty() =~= Seq::<Conflict>::empty());
    }
    if k.conflicts(w) == Seq::<Conflict>::empty() {
        let a = k.slots_conflicts(w, 5);
        let b = missing_letters(rs, p, v);
        assert((a + b).len() == a.len() + b.len());
        assert(a =~= Seq::<Conflict>::empty());
        assert(b =~= Seq::<Conflict>::empty());
        lemma_slots_conflicts_allow(k, w, 5);
        lemma_missing_letters_none(rs, p, v);
        assert forall|j: int| 0 <= j < 5 implies #[trigger] model_allows(p[j], v[j]) by {
            assert(k.slot(j).allows(w.letters[j].0));
        }
        assert forall|x: u8| x < 26 implies #[trigger] count(known, x) <= #[trigger] count(v, x) by {
            lemma_count_known_outside(p, v, x, 5);
            assert(count(y, x) + min_nat(count(known, x), known_at(p, x, 5)) == count(known, x));
            if count(y, x) > 0 {
                assert(count(indices(s), x) > 0);
                lemma_runs_cover(s, x);
                let q = choose|q: int| 0 <= q < rs.len() && (#[trigger] rs[q]).1.0 == x;
                assert(outside_known(p, v, rs[q].1.0, 5) >= rs[q].0);
            }
        }
    }
}

/// Every slot allowing a letter of the word before yellows are placed still
/// does where the placing makes a slot known: it is known to be that letter.
proof fn lemma_placed_weaker(p: Seq<(Option<u8>, Set<u8>)>, t: Seq<(usize, Letter)>, v: Seq<u8>, j: int)
    requires
        p.len() == 5,
        0 <= j < 5,
        model_allows(placed(p, t)[j], v[j]),
    ensures
        model_allows(p[j], v[j]),
    decreases t.len(),
{
    lemma_placed_len(p, t);
    if t.len() > 0 {
        let q = placed(p, t.drop_last());
        lemma_placed_len(p, t.drop_last());
        let x = t.last().1.0;
        if candidates(q, x, 5) == t.last().0 {
            assert(placed(p, t) == place(q, x));
            if could_be(q[j], x) {
                assert(v[j] == x);
            }
            assert(model_allows(q[j], v[j]));
        }
        lemma_placed_weaker(p, t.drop_last(), v, j);
    }
}

/// The letters a coloured guess shows absent are those it leaves unmatched
/// in the guess and nowhere unmatched in the answer.
proof fn lemma_shown_absent(cg: Seq<(Letter, GuessColor)>, guess: Word, answer: Word)
    requires
        colored_against(cg, guess, answer),
        guess.valid(),
    ensures
        shown_absent(cg, 5) == absent_letters(indices(guess.letters@), indices(answer.letters@), 5),
{
    let g = indices(guess.letters@);
    let a = indices(answer.letters@);
    assert forall|x: u8| #[trigger] shown_absent(cg, 5).contains(x) implies absent_letters(g, a, 5).contains(x) by {
        let k = choose|k: int|
            0 <= k < 5 && (#[trigger] cg[k]).1 == GuessColor::Black && cg[k].0.0 == x && !yellow_before(cg, k, x);
        assert(cg[k].0 == guess.letters[k]);
        assert(g[k] == x);
        lemma_yellows_of(g, a, x, k);
        if yellows_of(g, a, x, k) > 0 {
            let k2 = lemma_yellows_of_witness(g, a, x, k);
            assert(cg[k2].0 == guess.letters[k2]);
            assert(cg[k2].1 == GuessColor::Yellow && cg[k2].0.0 == x);
        }
        lemma_unmatched_guess_includes(g, a, k, 5);
    }
    assert forall|x: u8| #[trigger] absent_letters(g, a, 5).contains(x) implies shown_absent(cg, 5).contains(x) by {
        let k = lemma_unmatched_guess_witness(g, a, x, 5);
        assert(cg[k].0 == guess.letters[k]);
        assert(guess.letters[k].valid());
        assert(!yellow_before(cg, k, x)) by {
            if yellow_before(cg, k, x) {
                let k2 = choose|k2: int| 0 <= k2 < k && (#[trigger] cg[k2]).1 == GuessColor::Yellow && cg[k2].0.0 == x;
                assert(cg[k2].0 == guess.letters[k2]);
                assert(guess.letters[k2].valid());
            }
        }
        assert(0 <= k < 5 && cg[k].1 == GuessColor::Black && cg[k].0.0 == x && !yellow_before(cg, k, x));
    }
    assert(shown_absent(cg, 5) =~= absent_letters(g, a, 5));
}

/// An unmatched guess slot counts among the unmatched guess slots.
proof fn lemma_unmatched_guess_includes(g: Seq<u8>, a: Seq<u8>, i: int, n: int)
    requires
        0 <= i < n,
        g[i] != a[i],
    ensures
        unmatched_guess(g, a, g[i], n) > 0,
    decreases n,
{
    if n - 1 > i {
        lemma_unmatched_guess_includes(g, a, i, n - 1);
    }
}

/// Some unmatched guess slot below `n` holds `x` when the count says so.
proof fn lemma_unmatched_guess_witness(g: Seq<u8>, a: Seq<u8>, x: u8, n: int) -> (k: int)
    requires
        0 <= n,
        unmatched_guess(g, a, x, n) > 0,
    ensures
        0 <= k < n,
        g[k] == x,
        g[k] != a[k],
    decreases n,
{
    if unmatched_guess(g, a, x, n - 1) > 0 {
        lemma_unmatched_guess_witness(g, a, x, n - 1)
    } else {
        n - 1
    }
}

/// The knowledge from a single guess is the same whether learned at once
/// with `from_guess` or taken in with `add_guess` starting from no knowledge:
/// the two admit exactly the same words.
pub proof fn lemma_from_guess_agrees_with_add_guess(
    learned: WordKnowledge,
    before: WordKnowledge,
    after: WordKnowledge,
    cg: Seq<(Letter, GuessColor)>,
    guess: Word,
    answer: Word,
    w: Word,
)
    requires
        guess.valid(),
        learned.learned_from(guess, answer),
        forall|i: int| 0 <= i < 5 ==> (#[trigger] before.slot(i) matches LetterKnowledge::IsNot(s) && s@ == Set::<u8>::empty()),
        before.known_letters() == seq![255u8, 255u8, 255u8, 255u8, 255u8],
        colored_against(cg, guess, answer),
        after.wf(),
        after.took_in(before, cg),
    ensures
        learned.admits(w) == after.admits(w),
{
    let g = indices(guess.letters@);
    let a = indices(answer.letters@);
    let v = indices(w.letters@);
    let shown = shown_letters(cg);
    let p1 = taken_in_all(before, cg);
    let known = after.known_letters();
    lemma_shown_absent(cg, guess, answer);
    assert(shown.take(5) =~= shown);
    // The slots before yellows are placed are those learned.
    assert forall|j: int| 0 <= j < 5 implies model(#[trigger] learned.slot(j)) == p1[j] by {
        assert(cg[j].0 == guess.letters[j]);
        assert(g[j] == guess.letters[j].0);
        assert(before.slot(j) matches LetterKnowledge::IsNot(s) && s@ == Set::<u8>::empty());
        if g[j] != a[j] {
            assert(Set::<u8>::empty().insert(g[j]) + shown_absent(cg, 5) =~= absent_letters(g, a, 5).insert(g[j]));
        }
    }
    // The known letters are the shown ones.
    assert forall|x: u8| #[trigger] count(before.known_letters(), x) == if x == 255 { 5nat } else { 0nat } by {
        crate::counting::lemma_count5(before.known_letters(), x);
    }
    assert forall|x: u8| x < 26 implies #[trigger] count(learned.known_letters(), x) == count(shown, x) by {
        lemma_shown_letters_count(cg, guess, answer, x, 5);
        lemma_yellows_of(g, a, x, 5);
    }
    assert forall|y: u8| y < 26 implies #[trigger] count(known, y) <= count(shown, y) by {
        assert(count(known, y) <= max_count(before.known_letters(), shown, y));
    }
    assert forall|x: u8| x < 26 implies #[trigger] count(known, x) == count(shown, x) by {
        if count(known, x) < count(shown, x) {
            assert(count(known, x) < max_count(before.known_letters(), shown, x));
            assert forall|k: int| 0 <= k < known.len() implies (#[trigger] known[k]) < 26 by {
                assert(known[k] <= x);
            }
            lemma_letter_total_len(known, 26);
            lemma_letter_total_len(shown, 26);
            lemma_letter_total_le(known, shown, 26, x as int);
            assert(known.len() == 5);
        }
    }
    // Placing yellows admits the same words.
    let y3 = choose|y3: Seq<u8>| #[trigger] after.took_in_with(before, cg, y3);
    let s = lettered(y3);
    let rs = runs(s);
    lemma_placed_len(p1, rs);
    if learned.admits(w) {
        lemma_count_lettered(y3);
        lemma_lettered_valid(y3);
        lemma_runs_valid(s);
        lemma_runs_sorted(s);
        assert forall|q: int| 0 <= q < rs.len() implies (#[trigger] rs[q]).0 == count(y3, rs[q].1.0) && rs[q].1.0 < 26 by {}
        assert forall|j: int| 0 <= j < 5 implies #[trigger] model_allows(p1[j], v[j]) by {
            assert(learned.slot(j).allows(w.letters[j].0));
            assert(v[j] == w.letters[j].0);
        }
        assert forall|x: u8| x < 26 implies #[trigger] count(known, x) <= count(v, x) by {
            assert(count(learned.known_letters(), x) <= count(v, x));
        }
        lemma_placed_allows(p1, rs, y3, known, v);
        assert forall|i: int| 0 <= i < 5 implies #[trigger] after.slot(i).allows(w.letters[i].0) by {
            assert(model_allows(placed(p1, rs)[i], v[i]));
            assert(v[i] == w.letters[i].0);
        }
        assert forall|x: u8| x < 26 implies #[trigger] count(known, x) <= #[trigger] count(v, x) by {}
    }
    if after.admits(w) {
        assert forall|i: int| 0 <= i < 5 implies #[trigger] learned.slot(i).allows(w.letters[i].0) by {
            assert(after.slot(i).allows(w.letters[i].0));
            assert(v[i] == w.letters[i].0);
            assert(model_allows(placed(p1, rs)[i], v[i]));
            lemma_placed_weaker(p1, rs, v, i);
        }
        assert forall|x: u8| x < 26 implies #[trigger] count(learned.known_letters(), x) <= #[trigger] count(v, x) by {
            assert(count(known, x) <= count(v, x));
        }
    }
}

/// Knowledge of nothing admits every word.
pub proof fn lemma_nothing_known_admits_all(k: WordKnowledge, w: Word)
    requires
        forall|i: int| 0 <= i < 5 ==> (#[trigger] k.slot(i) matches LetterKnowledge::IsNot(s) && s@ == Set::<u8>::empty()),
        k.known_letters() == seq![255u8, 255u8, 255u8, 255u8, 255u8],
    ensures
        k.admits(w),
{
    assert forall|x: u8| x < 26 implies #[trigger] count(k.known_letters(), x) <= #[trigger] count(indices(w.letters@), x) by {
        crate::counting::lemma_count5(k.known_letters(), x);
    }
    assert forall|i: int| 0 <= i < 5 implies #[trigger] k.slot(i).allows(w.letters[i].0) by {
        assert(k.slot(i) matches LetterKnowledge::IsNot(s) && s@ == Set::<u8>::empty());
    }
}

/// Guessing never rules out the answer: starting from no knowledge, after
/// any guesses coloured against the answer are taken in one by one, the
/// knowledge still admits the answer at every step.
pub proof fn lemma_answer_never_ruled_out(
    ks: Seq<WordKnowledge>,
    shown: Seq<Seq<(Letter, GuessColor)>>,
    guesses: Seq<Word>,
    answer: Word,
)
    requires
        ks.len() == guesses.len() + 1,
        shown.len() == guesses.len(),
        forall|i: int| 0 <= i < 5 ==> (#[trigger] ks[0].slot(i) matches LetterKnowledge::IsNot(s) && s@ == Set::<u8>::empty()),
        ks[0].known_letters() == seq![255u8, 255u8, 255u8, 255u8, 255u8],
        forall|n: int|
            0 <= n < guesses.len() ==> (#[trigger] guesses[n]).valid() && colored_against(shown[n], guesses[n], answer)
                && ks[n + 1].took_in(ks[n], shown[n]),
    ensures
        forall|n: int| 0 <= n <= guesses.len() ==> (#[trigger] ks[n]).admits(answer),
    decreases guesses.len(),
{
    if guesses.len() == 0 {
        lemma_nothing_known_admits_all(ks[0], answer);
    } else {
        let m = guesses.len() - 1;
        assert forall|n: int| 0 <= n < guesses.drop_last().len() implies (#[trigger] guesses.drop_last()[n]).valid()
            && colored_against(shown.drop_last()[n], guesses.drop_last()[n], answer) && ks.drop_last()[n + 1].took_in(
            ks.drop_last()[n],
            shown.drop_last()[n],
        ) by {
            assert(guesses.drop_last()[n] == guesses[n]);
            assert(shown.drop_last()[n] == shown[n]);
            assert(ks.drop_last()[n] == ks[n] && ks.drop_last()[n + 1] == ks[n + 1]);
            assert(guesses[n].valid());
        }
        assert(ks.drop_last()[0] == ks[0]);
        lemma_answer_never_ruled_out(ks.drop_last(), shown.drop_last(), guesses.drop_last(), answer);
        assert(ks.drop_last()[m] == ks[m]);
        assert(guesses[m].valid());
        lemma_add_guess_admits_answer(ks[m], ks[m + 1], shown[m], guesses[m], answer);
        assert forall|n: int| 0 <= n <= guesses.len() implies (#[trigger] ks[n]).admits(answer) by {
            if n <= m {
                assert(ks.drop_last()[n] == ks[n]);
            }
        }
    }
}

} // verus!
