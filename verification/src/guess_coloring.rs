//! Colouring a guess against the answer, and counting the colours.
//!
//! A guess letter that matches the answer letter in the same slot is green.
//! The answer letters that are not matched that way are then handed out, left
//! to right, to the remaining guess slots holding the same letter: those turn
//! yellow, and the rest stay black.

use vstd::prelude::*;

use crate::counting::{count, ind, lemma_count_contains, lemma_count_take_succ, lemma_count_update};
use crate::letter::{indices, letter_char, letter_with_bg, shown_bg, Color, Letter};
use crate::text::{joined, lemma_joined_push};
use crate::word::Word;

verus! {

/// The number of answer slots below `n` that hold `x` and are not matched by
/// the guess letter in the same slot.
pub open spec fn unmatched_answer(g: Seq<u8>, a: Seq<u8>, x: u8, n: int) -> nat
    decreases n,
{
    if n <= 0 {
        0
    } else {
        unmatched_answer(g, a, x, n - 1) + ind(a[n - 1] == x && g[n - 1] != a[n - 1])
    }
}

/// The number of guess slots below `n` that hold `x` and do not match the
/// answer letter in the same slot.
pub open spec fn unmatched_guess(g: Seq<u8>, a: Seq<u8>, x: u8, n: int) -> nat
    decreases n,
{
    if n <= 0 {
        0
    } else {
        unmatched_guess(g, a, x, n - 1) + ind(g[n - 1] == x && g[n - 1] != a[n - 1])
    }
}

/// The smaller of two numbers.
pub open spec fn min_nat(x: nat, y: nat) -> nat {
    if x <= y {
        x
    } else {
        y
    }
}

/// Slot `i` of guess `g` is yellow against answer `a`: it does not match, its
/// letter `x` is a letter of the alphabet, and fewer unmatched slots before it
/// hold `x` than there are unmatched answer slots holding `x`.
pub open spec fn is_yellow(g: Seq<u8>, a: Seq<u8>, i: int) -> bool {
    &&& g[i] != a[i]
    &&& g[i] < 26
    &&& unmatched_guess(g, a, g[i], i) < unmatched_answer(g, a, g[i], 5)
}

/// The number of guess slots below `n` that are yellow.
pub open spec fn yellow_count(g: Seq<u8>, a: Seq<u8>, n: int) -> nat
    decreases n,
{
    if n <= 0 {
        0
    } else {
        yellow_count(g, a, n - 1) + ind(is_yellow(g, a, n - 1))
    }
}

/// The number of slots below `n` where guess and answer agree.
pub open spec fn green_count(g: Seq<u8>, a: Seq<u8>, n: int) -> nat
    decreases n,
{
    if n <= 0 {
        0
    } else {
        green_count(g, a, n - 1) + ind(g[n - 1] == a[n - 1])
    }
}

/// The sum, over the letters of the alphabet below `n`, of the smaller of the
/// unmatched answer slots below `m` and the unmatched guess slots.
pub open spec fn matched_yellows(g: Seq<u8>, a: Seq<u8>, m: int, n: int) -> nat
    decreases n,
{
    if n <= 0 {
        0
    } else {
        matched_yellows(g, a, m, n - 1) + min_nat(
            unmatched_answer(g, a, (n - 1) as u8, m),
            unmatched_guess(g, a, (n - 1) as u8, 5),
        )
    }
}

#[derive(Clone, Copy, PartialEq, Eq, Structural, Debug)]
pub enum GuessColor {
    Black,
    Yellow,
    Green,
}

impl GuessColor {
    /// The colour the guess letter is shown in.
    pub fn color(self) -> (r: Color)
        ensures
            r == match self {
                GuessColor::Black => Color::Black,
                GuessColor::Yellow => Color::Yellow,
                GuessColor::Green => Color::Green,
            },
    {
        match self {
            GuessColor::Black => Color::Black,
            GuessColor::Yellow => Color::Yellow,
            GuessColor::Green => Color::Green,
        }
    }

    /// The colour to be used when drawing a visible block.
    pub fn block_color(self) -> (r: Color)
        ensures
            r == match self {
                GuessColor::Black => Color::White,
                GuessColor::Yellow => Color::Yellow,
                GuessColor::Green => Color::Green,
            },
    {
        match self {
            GuessColor::Black => Color::White,
            GuessColor::Yellow => Color::Yellow,
            GuessColor::Green => Color::Green,
        }
    }

    /// The value of the colour in ranking guesses: a yellow is worth 74% of a
    /// green.
    pub fn weight(self) -> (r: usize)
        ensures
            r == match self {
                GuessColor::Black => 0usize,
                GuessColor::Yellow => 74usize,
                GuessColor::Green => 100usize,
            },
    {
        match self {
            GuessColor::Black => 0,
            GuessColor::Yellow => 74,
            GuessColor::Green => 100,
        }
    }
}

/// The colour of slot `i` of guess `g` against answer `a`.
pub open spec fn color_of(g: Seq<u8>, a: Seq<u8>, i: int) -> GuessColor {
    if g[i] == a[i] {
        GuessColor::Green
    } else if is_yellow(g, a, i) {
        GuessColor::Yellow
    } else {
        GuessColor::Black
    }
}

/// Finds the first slot holding `letter`, if it is a letter of the alphabet,
/// and empties it; reports whether it found one.
fn find_then_remove(letters: &mut [Letter; 5], letter: Letter) -> (r: bool)
    ensures
        r == (letter.valid() && count(indices(old(letters)@), letter.0) > 0),
        forall|x: u8| #[trigger] count(indices(final(letters)@), x) == count(indices(old(letters)@), x) - ind(r && x == letter.0) + ind(r && x == 255),
        indices(final(letters)@).len() == 5,
{
    proof {
        lemma_count_contains(indices(letters@), letter.0);
    }
    if !letter.is_valid() {
        return false;
    }
    let mut i: usize = 0;
    while i < 5
        invariant
            i <= 5,
            *letters == *old(letters),
            letter.valid(),
            forall|k: int| 0 <= k < i ==> indices(letters@)[k] != letter.0,
            count(indices(letters@), letter.0) > 0 <==> indices(letters@).contains(letter.0),
        decreases 5 - i,
    {
        if letters[i] == letter {
            let ghost before = indices(letters@);
            assert(before[i as int] == letter.0);
            assert(indices(old(letters)@).contains(letter.0));
            letters[i] = Letter::no_letter();
            proof {
                assert(indices(letters@) =~= before.update(i as int, 255u8));
                assert forall|x: u8| #[trigger] count(indices(letters@), x) == count(before, x) - ind(x == letter.0) + ind(x == 255) by {
                    lemma_count_update(before, i as int, 255u8, x);
                }
            }
            return true;
        }
        i += 1;
    }
    false
}

/// A guess with the colour of each of its letters.
pub struct ColoredGuess {
    slots: [(Letter, GuessColor); 5],
}

impl View for ColoredGuess {
    type V = Seq<(Letter, GuessColor)>;

    /// The letters of the guess with their colours.
    closed spec fn view(&self) -> Seq<(Letter, GuessColor)> {
        self.slots@
    }
}

/// The guess letters of `w` and the colour that each gets against `answer`.
pub open spec fn colored(guess: Word, answer: Word) -> Seq<(Letter, GuessColor)> {
    Seq::new(5, |i: int| (guess.letters[i], color_of(indices(guess.letters@), indices(answer.letters@), i)))
}

impl ColoredGuess {
    /// Colours `guess` against `answer`.
    pub fn new(guess: Word, answer: Word) -> (r: ColoredGuess)
        ensures
            r@ == colored(guess, answer),
    {
        let ghost g = indices(guess.letters@);
        let ghost a = indices(answer.letters@);
        let mut answer_letters = answer.letters;
        let mut slots = [(Letter::no_letter(), GuessColor::Black);5];
        let mut i: usize = 0;
        assert(indices(answer_letters@).take(0) =~= Seq::<u8>::empty());
        while i < 5
            invariant
                i <= 5,
                g == indices(guess.letters@),
                a == indices(answer.letters@),
                g.len() == 5,
                a.len() == 5,
                indices(answer_letters@).len() == 5,
                forall|k: int| #![trigger slots[k]] 0 <= k < i ==> slots[k].0 == guess.letters[k] && slots[k].1 == (if g[k] == a[k] {
                    GuessColor::Green
                } else {
                    GuessColor::Black
                }),
                forall|k: int| i <= k < 5 ==> indices(answer_letters@)[k] == a[k],
                forall|k: int| #![trigger slots[k]] i <= k < 5 ==> slots[k].1 == GuessColor::Black,
                forall|x: u8| x != 255 ==> #[trigger] count(indices(answer_letters@).take(i as int), x) == unmatched_answer(g, a, x, i as int),
            decreases 5 - i,
        {
            let ghost before = indices(answer_letters@);
            let ghost before_slots = slots@;
            let guess_letter = guess.letters[i];
            assert(indices(answer_letters@)[i as int] == a[i as int]);
            assert(answer_letters[i as int].0 == a[i as int]);
            assert(g[i as int] == guess_letter.0);
            slots[i].0 = guess_letter;
            if guess_letter == answer_letters[i] {
                slots[i].1 = GuessColor::Green;
                answer_letters[i] = Letter::no_letter();
            }
            proof {
                let after = indices(answer_letters@);
                assert(after.take(i as int) =~= before.take(i as int));
                assert(forall|k: int| 0 <= k < 5 && k != i ==> slots@[k] == before_slots[k]);
                assert(slots[i as int].0 == guess.letters[i as int]);
                assert(slots[i as int].1 == (if g[i as int] == a[i as int] { GuessColor::Green } else { GuessColor::Black }));
                assert(forall|k: int| 0 <= k < i ==> slots[k] == before_slots[k]);
                assert forall|k: int| 0 <= k < i + 1 implies slots[k].0 == guess.letters[k] && slots[k].1 == (if g[k] == a[k] {
                    GuessColor::Green
                } else {
                    GuessColor::Black
                }) by {
                    if k < i {
                        assert(slots[k] == before_slots[k]);
                        assert(before_slots[k].0 == guess.letters[k]);
                        assert(before_slots[k].1 == (if g[k] == a[k] { GuessColor::Green } else { GuessColor::Black }));
                    } else {
                        assert(k == i);
                    }
                }
                assert(forall|k: int| i < k < 5 ==> after[k] == before[k]);
                assert(g[i as int] == guess_letter.0);
                assert forall|x: u8| x != 255 implies #[trigger] count(after.take(i + 1), x) == unmatched_answer(g, a, x, i + 1) by {
                    lemma_count_take_succ(after, i as int, x);
                }
            }
            i += 1;
        }
        assert(indices(answer_letters@).take(5) =~= indices(answer_letters@));
        let mut i: usize = 0;
        while i < 5
            invariant
                i <= 5,
                g == indices(guess.letters@),
                a == indices(answer.letters@),
                g.len() == 5,
                a.len() == 5,
                indices(answer_letters@).len() == 5,
                forall|k: int| #![trigger slots[k]] 0 <= k < i ==> slots[k].0 == guess.letters[k] && slots[k].1 == color_of(g, a, k),
                forall|k: int| #![trigger slots[k]] i <= k < 5 ==> slots[k].0 == guess.letters[k] && slots[k].1 == (if g[k] == a[k] {
                    GuessColor::Green
                } else {
                    GuessColor::Black
                }),
                forall|x: u8| x < 26 ==> #[trigger] count(indices(answer_letters@), x) + min_nat(unmatched_guess(g, a, x, i as int), unmatched_answer(g, a, x, 5))
                    == unmatched_answer(g, a, x, 5),
            decreases 5 - i,
        {
            let ghost before = indices(answer_letters@);
            let letter = slots[i].0;
            assert(letter.0 == g[i as int]);
            if slots[i].1 == GuessColor::Black {
                let found = find_then_remove(&mut answer_letters, letter);
                if found {
                    slots[i].1 = GuessColor::Yellow;
                }
                proof {
                    if letter.0 < 26 {
                        assert(count(before, letter.0) + min_nat(unmatched_guess(g, a, letter.0, i as int), unmatched_answer(g, a, letter.0, 5))
                            == unmatched_answer(g, a, letter.0, 5));
                    }
                }
            }
            i += 1;
        }
        ColoredGuess { slots }
    }
}

/// One more answer slot changes the sum of matched yellows only through the
/// letter in that slot.
pub proof fn lemma_matched_yellows_step(g: Seq<u8>, a: Seq<u8>, k: int, n: int)
    requires
        0 <= k < 5,
        0 <= n <= 26,
    ensures
        matched_yellows(g, a, k + 1, n) == matched_yellows(g, a, k, n) + ind(
            a[k] < n && g[k] != a[k] && unmatched_answer(g, a, a[k], k) < unmatched_guess(g, a, a[k], 5),
        ),
    decreases n,
{
    if n > 0 {
        lemma_matched_yellows_step(g, a, k, n - 1);
    }
}

/// Before any answer slot, nothing is matched.
pub proof fn lemma_matched_yellows_none(g: Seq<u8>, a: Seq<u8>, n: int)
    requires
        0 <= n,
    ensures
        matched_yellows(g, a, 0, n) == 0,
    decreases n,
{
    if n > 0 {
        lemma_matched_yellows_none(g, a, n - 1);
    }
}

/// The counts of green and yellow letters of a guess against an answer.
#[derive(Clone, Copy, PartialEq, Eq, Structural, Debug)]
pub struct ColorCounts {
    greens: usize,
    yellows: usize,
}

impl View for ColorCounts {
    type V = (nat, nat);

    /// The greens and the yellows.
    closed spec fn view(&self) -> (nat, nat) {
        (self.greens as nat, self.yellows as nat)
    }
}

impl Default for ColorCounts {
    fn default() -> (r: ColorCounts)
        ensures
            r@ == (0nat, 0nat),
    {
        ColorCounts { greens: 0, yellows: 0 }
    }
}

impl ColorCounts {
    /// Counts the greens and yellows of `guess` against `answer`: the greens
    /// are the matching slots, and for each letter the yellows are the
    /// smaller of its unmatched slots in the answer and in the guess.
    pub fn from_guess(guess: Word, answer: Word) -> (r: ColorCounts)
        ensures
            r@.0 == green_count(indices(guess.letters@), indices(answer.letters@), 5),
            r@.1 == matched_yellows(indices(guess.letters@), indices(answer.letters@), 5, 26),
            r@.0 <= 5,
            r@.1 <= 5,
            r@.0 + r@.1 <= 5,
    {
        let ghost g = indices(guess.letters@);
        let ghost a = indices(answer.letters@);
        let mut guess_letters = guess.letters;
        let mut answer_letters = answer.letters;
        let mut greens: usize = 0;
        let mut i: usize = 0;
        assert(indices(guess_letters@).take(0) =~= Seq::<u8>::empty());
        while i < 5
            invariant
                i <= 5,
                g == indices(guess.letters@),
                a == indices(answer.letters@),
                g.len() == 5,
                a.len() == 5,
                indices(guess_letters@).len() == 5,
                indices(answer_letters@).len() == 5,
                greens == green_count(g, a, i as int),
                greens <= i,
                forall|k: int| i <= k < 5 ==> indices(guess_letters@)[k] == g[k],
                forall|k: int| i <= k < 5 ==> indices(answer_letters@)[k] == a[k],
                forall|k: int| 0 <= k < i ==> indices(answer_letters@)[k] == (if g[k] == a[k] {
                    255u8
                } else {
                    a[k]
                }),
                forall|x: u8| x != 255 ==> #[trigger] count(indices(guess_letters@).take(i as int), x) == unmatched_guess(g, a, x, i as int),
            decreases 5 - i,
        {
            let ghost before_g = indices(guess_letters@);
            let ghost before_a = indices(answer_letters@);
            assert(before_g[i as int] == guess_letters[i as int].0);
            assert(before_a[i as int] == answer_letters[i as int].0);
            if guess_letters[i] == answer_letters[i] {
                greens += 1;
                guess_letters[i] = Letter::no_letter();
                answer_letters[i] = Letter::no_letter();
            }
            proof {
                let after_g = indices(guess_letters@);
                assert(after_g.take(i as int) =~= before_g.take(i as int));
                assert forall|x: u8| x != 255 implies #[trigger] count(after_g.take(i + 1), x) == unmatched_guess(g, a, x, i + 1) by {
                    lemma_count_take_succ(after_g, i as int, x);
                }
                assert(forall|k: int| 0 <= k < 5 && k != i ==> indices(answer_letters@)[k] == before_a[k]);
                assert(forall|k: int| 0 <= k < 5 && k != i ==> indices(guess_letters@)[k] == before_g[k]);
            }
            i += 1;
        }
        assert(indices(guess_letters@).take(5) =~= indices(guess_letters@));
        let mut yellows: usize = 0;
        let mut k: usize = 0;
        proof {
            lemma_matched_yellows_none(g, a, 26);
        }
        while k < 5
            invariant
                k <= 5,
                g == indices(guess.letters@),
                a == indices(answer.letters@),
                g.len() == 5,
                a.len() == 5,
                indices(guess_letters@).len() == 5,
                indices(answer_letters@).len() == 5,
                yellows <= k,
                yellows == matched_yellows(g, a, k as int, 26),
                forall|m: int| 0 <= m < 5 ==> indices(answer_letters@)[m] == (if g[m] == a[m] {
                    255u8
                } else {
                    a[m]
                }),
                forall|x: u8| x < 26 ==> #[trigger] count(indices(guess_letters@), x) + min_nat(unmatched_answer(g, a, x, k as int), unmatched_guess(g, a, x, 5))
                    == unmatched_guess(g, a, x, 5),
            decreases 5 - k,
        {
            let letter = answer_letters[k];
            assert(indices(answer_letters@)[k as int] == letter.0);
            let ghost before = indices(guess_letters@);
            let found = find_then_remove(&mut guess_letters, letter);
            if found {
                yellows += 1;
            }
            proof {
                lemma_matched_yellows_step(g, a, k as int, 26);
                if letter.0 < 26 {
                    assert(count(before, letter.0) + min_nat(unmatched_answer(g, a, letter.0, k as int), unmatched_guess(g, a, letter.0, 5))
                        == unmatched_guess(g, a, letter.0, 5));
                }
            }
            k += 1;
        }
        proof {
            lemma_counts_match_colors(guess, answer);
            lemma_color_totals_bound(colored(guess, answer), 5);
        }
        ColorCounts { greens, yellows }
    }

    pub fn green_count(&self) -> (r: usize)
        ensures
            r == self@.0,
    {
        self.greens
    }

    pub fn yellow_count(&self) -> (r: usize)
        ensures
            r == self@.1,
    {
        self.yellows
    }

    pub fn green_yellow_count(&self) -> (r: usize)
        requires
            self@.0 + self@.1 <= usize::MAX,
        ensures
            r == self@.0 + self@.1,
    {
        self.greens + self.yellows
    }

    /// The counts weighted by the colours' weights.
    pub fn weighted_count(&self) -> (r: usize)
        requires
            self@.0 * 100 + self@.1 * 74 <= usize::MAX,
        ensures
            r == self@.0 * 100 + self@.1 * 74,
    {
        self.greens * GuessColor::Green.weight() + self.yellows * GuessColor::Yellow.weight()
    }

    /// Adds the counts of `rhs`.
    pub fn add_assign(&mut self, rhs: Self)
        requires
            old(self)@.0 + rhs@.0 <= usize::MAX,
            old(self)@.1 + rhs@.1 <= usize::MAX,
        ensures
            final(self)@ == (old(self)@.0 + rhs@.0, old(self)@.1 + rhs@.1),
    {
        self.greens += rhs.greens;
        self.yellows += rhs.yellows;
    }
}

/// `p` shows the guess slot: a black letter plainly, any other on its colour.
pub open spec fn slot_shown(p: Seq<char>, slot: (Letter, GuessColor)) -> bool {
    match slot.1 {
        GuessColor::Black => p == seq![letter_char(slot.0.0)],
        GuessColor::Yellow => shown_bg(p, seq![letter_char(slot.0.0)], Color::Yellow),
        GuessColor::Green => shown_bg(p, seq![letter_char(slot.0.0)], Color::Green),
    }
}

/// Each part shows the guess slot at its position.
pub open spec fn slots_shown(parts: Seq<Seq<char>>, cg: Seq<(Letter, GuessColor)>) -> bool {
    &&& parts.len() == cg.len()
    &&& forall|j: int| 0 <= j < parts.len() ==> #[trigger] slot_shown(parts[j], cg[j])
}

impl ColoredGuess {
    /// The letters with their colours, in order.
    pub fn iter(&self) -> (r: &[(Letter, GuessColor)])
        ensures
            r@ == self@,
    {
        self.slots.as_slice()
    }

    pub fn into_iter(self) -> (r: [(Letter, GuessColor); 5])
        ensures
            r@ == self@,
    {
        self.slots
    }

    /// The guess for a terminal: each green or yellow letter on its colour,
    /// each black letter plain.
    pub fn formatted(&self) -> (r: String)
        ensures
            exists|parts: Seq<Seq<char>>| #[trigger] slots_shown(parts, self@) && r@ == joined(parts, Seq::empty()),
    {
        let mut r = String::new();
        let ghost mut parts: Seq<Seq<char>> = Seq::empty();
        let mut i: usize = 0;
        while i < 5
            invariant
                i <= 5,
                self@ == self.slots@,
                slots_shown(parts, self@.take(i as int)),
                r@ == joined(parts, Seq::empty()),
            decreases 5 - i,
        {
            let (letter, state) = self.slots[i];
            let part = match state {
                GuessColor::Black => letter.to_string(),
                _ => letter_with_bg(letter, state.color()),
            };
            r.append(part.as_str());
            proof {
                lemma_joined_push(parts, Seq::empty(), part@);
                if parts.len() > 0 {
                    assert(joined(parts, Seq::empty()) + Seq::<char>::empty() =~= joined(parts, Seq::empty()));
                } else {
                    assert(Seq::<char>::empty() + part@ =~= part@);
                }
                let old_parts = parts;
                parts = parts.push(part@);
                assert forall|j: int| 0 <= j < parts.len() implies #[trigger] slot_shown(parts[j], self@.take(i + 1)[j]) by {
                    if j < i {
                        assert(parts[j] == old_parts[j]);
                        assert(self@.take(i as int)[j] == self@.take(i + 1)[j]);
                    }
                }
            }
            i += 1;
        }
        assert(self@.take(5) =~= self@);
        r
    }
}

/// The number of slots below `n` of the coloured guess that have colour `c`.
pub open spec fn color_total(cg: Seq<(Letter, GuessColor)>, c: GuessColor, n: int) -> nat
    decreases n,
{
    if n <= 0 {
        0
    } else {
        color_total(cg, c, n - 1) + ind(cg[n - 1].1 == c)
    }
}

/// The number of yellow guess slots below `n` that hold `x`.
pub open spec fn yellow_letter_count(g: Seq<u8>, a: Seq<u8>, x: u8, n: int) -> nat
    decreases n,
{
    if n <= 0 {
        0
    } else {
        yellow_letter_count(g, a, x, n - 1) + ind(g[n - 1] == x && is_yellow(g, a, n - 1))
    }
}

/// The yellow guess slots below `n`, counted letter by letter for the
/// letters below `m`.
pub open spec fn yellow_sum(g: Seq<u8>, a: Seq<u8>, n: int, m: int) -> nat
    decreases m,
{
    if m <= 0 {
        0
    } else {
        yellow_sum(g, a, n, m - 1) + yellow_letter_count(g, a, (m - 1) as u8, n)
    }
}

proof fn lemma_yellow_sum_step(g: Seq<u8>, a: Seq<u8>, n: int, m: int)
    requires
        0 <= n,
        0 <= m <= 26,
    ensures
        yellow_sum(g, a, n + 1, m) == yellow_sum(g, a, n, m) + ind(is_yellow(g, a, n) && g[n] < m),
    decreases m,
{
    if m > 0 {
        lemma_yellow_sum_step(g, a, n, m - 1);
    }
}

proof fn lemma_yellow_count_sum(g: Seq<u8>, a: Seq<u8>, n: int)
    requires
        0 <= n,
    ensures
        yellow_count(g, a, n) == yellow_sum(g, a, n, 26),
    decreases n,
{
    if n == 0 {
        lemma_yellow_sum_zero(g, a, 26);
    } else {
        lemma_yellow_count_sum(g, a, n - 1);
        lemma_yellow_sum_step(g, a, n - 1, 26);
    }
}

proof fn lemma_yellow_sum_zero(g: Seq<u8>, a: Seq<u8>, m: int)
    requires
        0 <= m,
    ensures
        yellow_sum(g, a, 0, m) == 0,
    decreases m,
{
    if m > 0 {
        lemma_yellow_sum_zero(g, a, m - 1);
    }
}

proof fn lemma_yellow_letter_count(g: Seq<u8>, a: Seq<u8>, x: u8, n: int)
    requires
        0 <= n <= 5,
        x < 26,
    ensures
        yellow_letter_count(g, a, x, n) == min_nat(unmatched_guess(g, a, x, n), unmatched_answer(g, a, x, 5)),
    decreases n,
{
    if n > 0 {
        lemma_yellow_letter_count(g, a, x, n - 1);
    }
}

proof fn lemma_yellow_sum_matched(g: Seq<u8>, a: Seq<u8>, m: int)
    requires
        0 <= m <= 26,
    ensures
        yellow_sum(g, a, 5, m) == matched_yellows(g, a, 5, m),
    decreases m,
{
    if m > 0 {
        lemma_yellow_sum_matched(g, a, m - 1);
        lemma_yellow_letter_count(g, a, (m - 1) as u8, 5);
    }
}

proof fn lemma_color_totals(guess: Word, answer: Word, n: int)
    requires
        0 <= n <= 5,
    ensures
        color_total(colored(guess, answer), GuessColor::Green, n) == green_count(
            indices(guess.letters@),
            indices(answer.letters@),
            n,
        ),
        color_total(colored(guess, answer), GuessColor::Yellow, n) == yellow_count(
            indices(guess.letters@),
            indices(answer.letters@),
            n,
        ),
    decreases n,
{
    if n > 0 {
        lemma_color_totals(guess, answer, n - 1);
    }
}

/// The colour counts of a guess are exactly the colours it is shown in:
/// `ColorCounts::from_guess` counts as many greens and as many yellows as
/// `ColoredGuess::new` shows for the same guess and answer.
pub proof fn lemma_counts_match_colors(guess: Word, answer: Word)
    ensures
        color_total(colored(guess, answer), GuessColor::Green, 5) == green_count(
            indices(guess.letters@),
            indices(answer.letters@),
            5,
        ),
        color_total(colored(guess, answer), GuessColor::Yellow, 5) == matched_yellows(
            indices(guess.letters@),
            indices(answer.letters@),
            5,
            26,
        ),
{
    let g = indices(guess.letters@);
    let a = indices(answer.letters@);
    lemma_color_totals(guess, answer, 5);
    lemma_yellow_count_sum(g, a, 5);
    lemma_yellow_sum_matched(g, a, 26);
}

/// The greens and yellows among the slots below `n` number at most `n`.
pub proof fn lemma_color_totals_bound(cg: Seq<(Letter, GuessColor)>, n: int)
    requires
        0 <= n,
    ensures
        color_total(cg, GuessColor::Green, n) + color_total(cg, GuessColor::Yellow, n) <= n,
    decreases n,
{
    if n > 0 {
        lemma_color_totals_bound(cg, n - 1);
    }
}

} // verus!
