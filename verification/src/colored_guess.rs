//! Colouring a guess against the answer with an alphagram of the unmatched
//! answer letters.

use vstd::prelude::*;

use crate::alphagram::Alphagram;
use crate::counting::{count, ind};
use crate::guess_coloring::{
    color_total, colored, green_count, lemma_color_totals_bound, lemma_counts_match_colors, matched_yellows, min_nat,
    unmatched_answer, unmatched_guess,
};
use crate::letter::{indices, letter_char, letter_with_bg, shown_bg, Color, Letter};
use crate::text::{joined, lemma_joined_push};
use crate::word::Word;

verus! {

#[derive(Clone, Copy, PartialEq, Eq, Structural, Debug)]
pub enum GuessColor {
    Black,
    Yellow,
    Green,
}

impl GuessColor {
    /// The colour the guess letter is shown in.
    pub fn color(self) -> (r: Color)
        ensures
            r == match self {
                GuessColor::Black => Color::Black,
                GuessColor::Yellow => Color::Yellow,
                GuessColor::Green => Color::Green,
            },
    {
        match self {
            GuessColor::Black => Color::Black,
            GuessColor::Yellow => Color::Yellow,
            GuessColor::Green => Color::Green,
        }
    }

    /// The colour to be used when drawing a visible block.
    pub fn block_color(self) -> (r: Color)
        ensures
            r == match self {
                GuessColor::Black => Color::White,
                GuessColor::Yellow => Color::Yellow,
                GuessColor::Green => Color::Green,
            },
    {
        match self {
            GuessColor::Black => Color::White,
            GuessColor::Yellow => Color::Yellow,
            GuessColor::Green => Color::Green,
        }
    }

    /// The weight of the colour in ranking guesses.
    pub open spec fn weight(self) -> nat {
        match self {
            GuessColor::Black => 0,
            GuessColor::Yellow => 74,
            GuessColor::Green => 100,
        }
    }
}

/// The number of slots below `n` where guess and answer differ and the
/// answer holds a letter (not "no letter").
pub open spec fn unmatched_letters(g: Seq<u8>, a: Seq<u8>, n: int) -> nat
    decreases n,
{
    if n <= 0 {
        0
    } else {
        unmatched_letters(g, a, n - 1) + ind(g[n - 1] != a[n - 1] && a[n - 1] != 255)
    }
}

/// The number of slots below `n` whose guess letter is not "no letter" and
/// is yellow.
pub open spec fn letter_yellows(g: Seq<u8>, a: Seq<u8>, n: int) -> nat
    decreases n,
{
    if n <= 0 {
        0
    } else {
        letter_yellows(g, a, n - 1) + ind(
            g[n - 1] != 255 && g[n - 1] != a[n - 1] && unmatched_guess(g, a, g[n - 1], n - 1) < unmatched_answer(
                g,
                a,
                g[n - 1],
                5,
            ),
        )
    }
}

/// The colour that slot `i` of guess `g` gets against answer `a`: green on a
/// match; otherwise yellow while unmatched answer slots holding the letter
/// remain. A guess slot holding "no letter" is yellow unless all five answer
/// slots are unmatched letters none of which an earlier slot has turned
/// yellow.
pub open spec fn slot_color(g: Seq<u8>, a: Seq<u8>, i: int) -> GuessColor {
    if g[i] == a[i] {
        GuessColor::Green
    } else if g[i] == 255 {
        if unmatched_letters(g, a, 5) < 5 || letter_yellows(g, a, i) > 0 {
            GuessColor::Yellow
        } else {
            GuessColor::Black
        }
    } else if unmatched_guess(g, a, g[i], i) < unmatched_answer(g, a, g[i], 5) {
        GuessColor::Yellow
    } else {
        GuessColor::Black
    }
}

proof fn lemma_unmatched_letters_bound(g: Seq<u8>, a: Seq<u8>, n: int)
    requires
        0 <= n,
    ensures
        unmatched_letters(g, a, n) <= n,
    decreases n,
{
    if n > 0 {
        lemma_unmatched_letters_bound(g, a, n - 1);
    }
}

/// A guess with the colour of each of its letters.
pub struct ColoredGuess {
    slots: [(Letter, GuessColor); 5],
}

impl View for ColoredGuess {
    type V = Seq<(Letter, GuessColor)>;

    /// The letters of the guess with their colours.
    closed spec fn view(&self) -> Seq<(Letter, GuessColor)> {
        self.slots@
    }
}

/// The sum of the colour weights of the slots below `n`.
pub open spec fn weight_sum(s: Seq<(Letter, GuessColor)>, n: int) -> nat
    decreases n,
{
    if n <= 0 {
        0
    } else {
        weight_sum(s, n - 1) + s[n - 1].1.weight()
    }
}

impl ColoredGuess {
    /// The letters with their colours, in order.
    pub fn iter(&self) -> (r: &[(Letter, GuessColor)])
        ensures
            r@ == self@,
    {
        self.slots.as_slice()
    }

    pub fn into_iter(self) -> (r: [(Letter, GuessColor); 5])
        ensures
            r@ == self@,
    {
        self.slots
    }

    /// The sum of the weights of the colours: 100 for a green, 74 for a
    /// yellow.
    pub fn weighted_green_yellow_count(&self) -> (r: usize)
        ensures
            r == weight_sum(self@, 5),
    {
        let mut total: usize = 0;
        let mut i: usize = 0;
        while i < 5
            invariant
                i <= 5,
                self@ == self.slots@,
                total == weight_sum(self@, i as int),
                total <= 100 * i,
            decreases 5 - i,
        {
            let w: usize = match self.slots[i].1 {
                GuessColor::Black => 0,
                GuessColor::Yellow => 74,
                GuessColor::Green => 100,
            };
            total = total + w;
            i += 1;
        }
        total
    }
}

/// Colours `guess` against `answer`.
pub fn color_guess(guess: Word, answer: Word) -> (r: ColoredGuess)
    ensures
        forall|i: int| 0 <= i < 5 ==> (#[trigger] r@[i]).0 == guess.letters[i],
        forall|i: int| 0 <= i < 5 ==> (#[trigger] r@[i]).1 == slot_color(
            indices(guess.letters@),
            indices(answer.letters@),
            i,
        ),
        forall|i: int| 0 <= i < 5 && guess.letters[i] == answer.letters[i] ==> (#[trigger] r@[i]).1 == GuessColor::Green,
        forall|i: int| 0 <= i < 5 && guess.letters[i] != answer.letters[i] ==> (#[trigger] r@[i]).1 != GuessColor::Green,
        r@.len() == 5,
{
    let ghost g = indices(guess.letters@);
    let ghost a = indices(answer.letters@);
    let mut slots = [(Letter::no_letter(), GuessColor::Black);5];
    let mut yellows = Alphagram::new();
    proof {
        assert forall|x: u8| x != 255 implies #[trigger] count(yellows@, x) == 0 by {
            crate::counting::lemma_count5(yellows@, x);
        }
        crate::counting::lemma_count5(yellows@, 255u8);
    }
    let mut i: usize = 0;
    while i < 5
        invariant
            i <= 5,
            g == indices(guess.letters@),
            a == indices(answer.letters@),
            g.len() == 5,
            a.len() == 5,
            yellows.wf(),
            yellows.size() <= i,
            count(yellows@, 255u8) == 5 - unmatched_letters(g, a, i as int),
            forall|x: u8| x != 255 ==> #[trigger] count(yellows@, x) == unmatched_answer(g, a, x, i as int),
            forall|k: int| #![trigger slots[k]] 0 <= k < i ==> slots[k].0 == guess.letters[k] && slots[k].1 == (if g[k] == a[k] {
                GuessColor::Green
            } else {
                GuessColor::Black
            }),
            forall|k: int| #![trigger slots[k]] i <= k < 5 ==> slots[k].1 == GuessColor::Black,
        decreases 5 - i,
    {
        let guess_letter = guess.letters[i];
        let answer_letter = answer.letters[i];
        assert(g[i as int] == guess_letter.0 && a[i as int] == answer_letter.0);
        slots[i].0 = guess_letter;
        if guess_letter == answer_letter {
            slots[i].1 = GuessColor::Green;
        } else {
            yellows.insert(answer_letter);
        }
        i += 1;
    }
    proof {
        lemma_unmatched_letters_bound(g, a, 5);
    }
    let mut i: usize = 0;
    while i < 5
        invariant
            i <= 5,
            g == indices(guess.letters@),
            a == indices(answer.letters@),
            g.len() == 5,
            a.len() == 5,
            yellows.wf(),
            forall|x: u8| x != 255 ==> #[trigger] count(yellows@, x) + min_nat(unmatched_guess(g, a, x, i as int), unmatched_answer(g, a, x, 5))
                == unmatched_answer(g, a, x, 5),
            count(yellows@, 255u8) == 5 - unmatched_letters(g, a, 5) + letter_yellows(g, a, i as int),
            unmatched_letters(g, a, 5) <= 5,
            forall|k: int| #![trigger slots[k]] 0 <= k < i ==> slots[k].0 == guess.letters[k] && slots[k].1 == slot_color(g, a, k)
                && (g[k] == a[k] <==> slots[k].1 == GuessColor::Green),
            forall|k: int| #![trigger slots[k]] i <= k < 5 ==> slots[k].0 == guess.letters[k] && slots[k].1 == (if g[k] == a[k] {
                GuessColor::Green
            } else {
                GuessColor::Black
            }),
        decreases 5 - i,
    {
        let letter = slots[i].0;
        assert(letter.0 == g[i as int]);
        let ghost before = yellows@;
        if slots[i].1 == GuessColor::Black {
            let found = yellows.remove(letter);
            if found {
                slots[i].1 = GuessColor::Yellow;
            }
            proof {
                if letter.0 != 255 {
                    assert(count(before, letter.0) + min_nat(unmatched_guess(g, a, letter.0, i as int), unmatched_answer(g, a, letter.0, 5))
                        == unmatched_answer(g, a, letter.0, 5));
                }
            }
        }
        i += 1;
    }
    ColoredGuess { slots }
}

/// `p` shows the guess slot: a black letter plainly, any other on its colour.
pub open spec fn slot_shown(p: Seq<char>, slot: (Letter, GuessColor)) -> bool {
    match slot.1 {
        GuessColor::Black => p == seq![letter_char(slot.0.0)],
        GuessColor::Yellow => shown_bg(p, seq![letter_char(slot.0.0)], Color::Yellow),
        GuessColor::Green => shown_bg(p, seq![letter_char(slot.0.0)], Color::Green),
    }
}

/// Each part shows the guess slot at its position.
pub open spec fn slots_shown(parts: Seq<Seq<char>>, cg: Seq<(Letter, GuessColor)>) -> bool {
    &&& parts.len() == cg.len()
    &&& forall|j: int| 0 <= j < parts.len() ==> #[trigger] slot_shown(parts[j], cg[j])
}

impl ColoredGuess {
    /// The guess for a terminal: each green or yellow letter on its colour,
    /// each black letter plain.
    pub fn formatted(&self) -> (r: String)
        ensures
            exists|parts: Seq<Seq<char>>| #[trigger] slots_shown(parts, self@) && r@ == joined(parts, Seq::empty()),
    {
        let mut r = String::new();
        let ghost mut parts: Seq<Seq<char>> = Seq::empty();
        let mut i: usize = 0;
        while i < 5
            invariant
                i <= 5,
                self@ == self.slots@,
                slots_shown(parts, self@.take(i as int)),
                r@ == joined(parts, Seq::empty()),
            decreases 5 - i,
        {
            let (letter, state) = self.slots[i];
            let part = match state {
                GuessColor::Black => letter.to_string(),
                _ => letter_with_bg(letter, state.color()),
            };
            r.append(part.as_str());
            proof {
                lemma_joined_push(parts, Seq::empty(), part@);
                if parts.len() > 0 {
                    assert(joined(parts, Seq::empty()) + Seq::<char>::empty() =~= joined(parts, Seq::empty()));
                } else {
                    assert(Seq::<char>::empty() + part@ =~= part@);
                }
                let old_parts = parts;
                parts = parts.push(part@);
                assert forall|j: int| 0 <= j < parts.len() implies #[trigger] slot_shown(parts[j], self@.take(i + 1)[j]) by {
                    if j < i {
                        assert(parts[j] == old_parts[j]);
                        assert(self@.take(i as int)[j] == self@.take(i + 1)[j]);
                    }
                }
            }
            i += 1;
        }
        assert(self@.take(5) =~= self@);
        r
    }
}

/// The two ways of colouring agree: for a guess of letters of the alphabet,
/// `color_guess` gives every slot the colour that `ColoredGuess::new` gives
/// it.
pub proof fn lemma_colorings_agree(guess: Word, answer: Word, i: int)
    requires
        guess.valid(),
        0 <= i < 5,
    ensures
        (slot_color(indices(guess.letters@), indices(answer.letters@), i) == GuessColor::Green) == (
        crate::guess_coloring::colored(guess, answer)[i].1 == crate::guess_coloring::GuessColor::Green),
        (slot_color(indices(guess.letters@), indices(answer.letters@), i) == GuessColor::Yellow) == (
        crate::guess_coloring::colored(guess, answer)[i].1 == crate::guess_coloring::GuessColor::Yellow),
        (slot_color(indices(guess.letters@), indices(answer.letters@), i) == GuessColor::Black) == (
        crate::guess_coloring::colored(guess, answer)[i].1 == crate::guess_coloring::GuessColor::Black),
{
    assert(guess.letters[i].valid());
    assert(indices(guess.letters@)[i] == guess.letters[i].0);
}

/// Slot by slot, the weights of a guess coloured as `color_guess` colours it
/// are those of the colours that `ColoredGuess::new` gives.
proof fn lemma_weight_sum_totals(guess: Word, answer: Word, c: Seq<(Letter, GuessColor)>, n: int)
    requires
        guess.valid(),
        0 <= n <= 5,
        c.len() == 5,
        forall|i: int| 0 <= i < 5 ==> (#[trigger] c[i]).1 == slot_color(indices(guess.letters@), indices(answer.letters@), i),
    ensures
        weight_sum(c, n) == 100 * color_total(colored(guess, answer), crate::guess_coloring::GuessColor::Green, n) + 74
            * color_total(colored(guess, answer), crate::guess_coloring::GuessColor::Yellow, n),
    decreases n,
{
    if n > 0 {
        lemma_weight_sum_totals(guess, answer, c, n - 1);
        lemma_colorings_agree(guess, answer, n - 1);
        assert(c[n - 1].1 == slot_color(indices(guess.letters@), indices(answer.letters@), n - 1));
    }
}

/// Weighing the colours of a guess gives the weighted colour counts: for a
/// guess of letters of the alphabet, `color_guess(guess,
/// answer).weighted_green_yellow_count()` is 100 for each green and 74 for
/// each yellow that `ColorCounts::from_guess(guess, answer)` counts, which is
/// what its `weighted_count()` gives; and those greens and yellows number at
/// most 5.
pub proof fn lemma_weighted_counts_agree(guess: Word, answer: Word, c: ColoredGuess)
    requires
        guess.valid(),
        c@.len() == 5,
        forall|i: int| 0 <= i < 5 ==> (#[trigger] c@[i]).1 == slot_color(indices(guess.letters@), indices(answer.letters@), i),
    ensures
        weight_sum(c@, 5) == 100 * green_count(indices(guess.letters@), indices(answer.letters@), 5) + 74 * matched_yellows(
            indices(guess.letters@),
            indices(answer.letters@),
            5,
            26,
        ),
        green_count(indices(guess.letters@), indices(answer.letters@), 5) + matched_yellows(
            indices(guess.letters@),
            indices(answer.letters@),
            5,
            26,
        ) <= 5,
{
    lemma_weight_sum_totals(guess, answer, c@, 5);
    lemma_counts_match_colors(guess, answer);
    lemma_color_totals_bound(colored(guess, answer), 5);
}

} // verus!
