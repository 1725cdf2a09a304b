//! Playing guesses against a known answer: colouring each guess, taking in
//! what it shows, and narrowing down the possible answers.

use vstd::prelude::*;

use crate::colored_guess::{color_guess, ColoredGuess};
use crate::guess_suggestions::{valid_possibilities, ScoredGuess};
use crate::knowledge::{colored_against, lemma_add_guess_admits_answer, WordKnowledge};
use crate::possibilities::PossibleAnswer;
use crate::word::Word;

verus! {

/// The possibilities that the knowledge admits, in order.
pub open spec fn matching(k: WordKnowledge, ps: Seq<PossibleAnswer>) -> Seq<PossibleAnswer>
    decreases ps.len(),
{
    if ps.len() == 0 {
        Seq::empty()
    } else {
        matching(k, ps.drop_last()) + if k.admits(ps.last().word) {
            seq![ps.last()]
        } else {
            Seq::empty()
        }
    }
}

/// What `matching` keeps it takes from the possibilities, and it keeps every
/// possibility that the knowledge admits.
pub proof fn lemma_matching_members(k: WordKnowledge, ps: Seq<PossibleAnswer>)
    ensures
        forall|q: PossibleAnswer| #[trigger] matching(k, ps).contains(q) <==> ps.contains(q) && k.admits(q.word),
    decreases ps.len(),
{
    if ps.len() > 0 {
        lemma_matching_members(k, ps.drop_last());
        let m = matching(k, ps.drop_last());
        let tail = if k.admits(ps.last().word) {
            seq![ps.last()]
        } else {
            Seq::empty()
        };
        assert forall|q: PossibleAnswer| #[trigger] matching(k, ps).contains(q) <==> ps.contains(q) && k.admits(q.word) by {
            assert(ps =~= ps.drop_last().push(ps.last()));
            if matching(k, ps).contains(q) {
                let i = choose|i: int| 0 <= i < matching(k, ps).len() && matching(k, ps)[i] == q;
                if i < m.len() {
                    assert(m[i] == q);
                    assert(m.contains(q));
                    let j = choose|j: int| 0 <= j < ps.drop_last().len() && ps.drop_last()[j] == q;
                    assert(ps[j] == q);
                } else {
                    assert(tail[i - m.len()] == q);
                    assert(ps[ps.len() - 1] == q);
                }
            }
            if ps.contains(q) && k.admits(q.word) {
                let j = choose|j: int| 0 <= j < ps.len() && ps[j] == q;
                if j < ps.len() - 1 {
                    assert(ps.drop_last()[j] == q);
                    assert(m.contains(q));
                    let i = choose|i: int| 0 <= i < m.len() && m[i] == q;
                    assert(matching(k, ps)[i] == q);
                } else {
                    assert(matching(k, ps)[m.len() as int] == q);
                }
            }
        }
    }
}

/// Keeps the possibilities that the knowledge admits.
pub fn retain_matching(knowledge: &WordKnowledge, possibilities: &mut Vec<PossibleAnswer>)
    requires
        knowledge.wf(),
        valid_possibilities(old(possibilities)@),
    ensures
        final(possibilities)@ == matching(*knowledge, old(possibilities)@),
        valid_possibilities(final(possibilities)@),
{
    let ghost ps = possibilities@;
    let mut kept: Vec<PossibleAnswer> = Vec::new();
    let mut i: usize = 0;
    while i < possibilities.len()
        invariant
            i <= possibilities.len(),
            possibilities@ == ps,
            knowledge.wf(),
            valid_possibilities(ps),
            kept@ == matching(*knowledge, ps.take(i as int)),
            valid_possibilities(kept@),
        decreases possibilities.len() - i,
    {
        let p = possibilities[i];
        assert(ps[i as int] == p);
        assert(forall|k: int| 0 <= k < 5 ==> (#[trigger] p.word.letters[k]).0 < 32);
        if knowledge.matches(&p) {
            kept.push(p);
        }
        assert(ps.take(i + 1).drop_last() =~= ps.take(i as int));
        i += 1;
    }
    assert(ps.take(ps.len() as int) =~= ps);
    *possibilities = kept;
}

/// Plays `guess` against `answer`: colours it, takes in what it shows and
/// records it; unless it was the answer, keeps the possibilities that still
/// match. Reports whether the guess was the answer.
pub fn play_guess(
    knowledge: &mut WordKnowledge,
    possibilities: &mut Vec<PossibleAnswer>,
    guesses: &mut Vec<ColoredGuess>,
    guess: Word,
    answer: Word,
) -> (solved: bool)
    requires
        old(knowledge).wf(),
        guess.valid(),
        valid_possibilities(old(possibilities)@),
    ensures
        solved == (guess.letters@ == answer.letters@),
        final(knowledge).wf(),
        final(guesses)@.len() == old(guesses)@.len() + 1,
        final(guesses)@.drop_last() == old(guesses)@,
        colored_against(final(guesses)@.last()@, guess, answer),
        final(knowledge).took_in(*old(knowledge), final(guesses)@.last()@),
        solved ==> final(possibilities)@ == old(possibilities)@,
        !solved ==> final(possibilities)@ == matching(*final(knowledge), old(possibilities)@),
        valid_possibilities(final(possibilities)@),
{
    let colored = color_guess(guess, answer);
    proof {
        assert forall|j: int| 0 <= j < 5 implies (#[trigger] colored@[j]).0.0 < 26 by {
            assert(guess.letters[j].valid());
        }
        assert forall|i: int| 0 <= i < 5 implies (#[trigger] colored@[i]).1 == crate::colored_guess::slot_color(
            crate::letter::indices(guess.letters@),
            crate::letter::indices(answer.letters@),
            i,
        ) by {
            assert(guess.letters[i].valid());
        }
    }
    knowledge.add_guess(&colored);
    guesses.push(colored);
    assert(guesses@.drop_last() =~= old(guesses)@);
    if guess == answer {
        return true;
    }
    retain_matching(knowledge, possibilities);
    false
}

/// Guessing never rules out the answer: where the knowledge admits the
/// answer and the answer is among the possibilities, after a guess is played
/// against it the knowledge still admits it and it is still among the
/// possibilities.
pub proof fn lemma_answer_survives(
    before: WordKnowledge,
    after: WordKnowledge,
    possibilities_before: Seq<PossibleAnswer>,
    possibilities_after: Seq<PossibleAnswer>,
    shown: ColoredGuess,
    guess: Word,
    answer: PossibleAnswer,
)
    requires
        before.admits(answer.word),
        possibilities_before.contains(answer),
        guess.valid(),
        colored_against(shown@, guess, answer.word),
        after.took_in(before, shown@),
        possibilities_after == possibilities_before || possibilities_after == matching(after, possibilities_before),
    ensures
        after.admits(answer.word),
        possibilities_after.contains(answer),
{
    lemma_add_guess_admits_answer(before, after, shown@, guess, answer.word);
    lemma_matching_members(after, possibilities_before);
}

/// The number of word columns that fit a terminal `term_width` characters
/// wide, next to a label column of 22 and a gap of 2, each word taking 6;
/// at least 1 and at most 32.
pub fn column_count_for_width(term_width: u16) -> (r: usize)
    ensures
        r == if term_width < 30 {
            1
        } else if (term_width - 24) / 6 > 32 {
            32
        } else {
            (term_width - 24) / 6
        },
{
    if term_width < 30 {
        1
    } else {
        let count = (term_width - 24) / 6;
        if count > 32 {
            32
        } else {
            count as usize
        }
    }
}

/// Whether suggestions are worth showing: with two or fewer, or all tied
/// first, they are all equally good, so only more than two that are not all
/// tied are shown.
pub fn worth_showing(suggestions: &[ScoredGuess]) -> (r: bool)
    ensures
        r == (suggestions@.len() >= 3 && suggestions@.last().rank != 1),
{
    if suggestions.len() < 3 {
        return false;
    }
    suggestions[suggestions.len() - 1].rank != 1
}

} // verus!
