//! Scoring candidate guesses against the remaining possible answers, and
//! ranking them.

use arrayvec::ArrayVec;
use partial_sort::PartialSort;
use std::cmp::Ordering;
use vstd::prelude::*;

use crate::guess_coloring::{green_count, matched_yellows, ColorCounts};
use crate::knowledge::{lemma_learned_admits, remains, WordKnowledge};
use crate::letter::{indices, Letter};
use crate::possibilities::PossibleAnswer;
use crate::slice_subset::SliceSubset;
use itertools::Itertools;
use crate::word::Word;

verus! {

/// The greens and yellows of `guess` against `answer`.
pub open spec fn counts_of(guess: Word, answer: Word) -> (nat, nat) {
    (
        green_count(indices(guess.letters@), indices(answer.letters@), 5),
        matched_yellows(indices(guess.letters@), indices(answer.letters@), 5, 26),
    )
}

/// The greens and yellows of `word` summed over the possible answers.
pub open spec fn total_counts(word: Word, ps: Seq<PossibleAnswer>) -> (nat, nat)
    decreases ps.len(),
{
    if ps.len() == 0 {
        (0, 0)
    } else {
        let t = total_counts(word, ps.drop_last());
        let c = counts_of(word, ps.last().word);
        (t.0 + c.0, t.1 + c.1)
    }
}

/// The colour counts of `word` summed over the possible answers.
pub fn color_counts(word: Word, possibilities: &[PossibleAnswer]) -> (r: ColorCounts)
    requires
        possibilities.len() <= usize::MAX / 5,
    ensures
        r@ == total_counts(word, possibilities@),
        r@.0 <= 5 * possibilities.len(),
        r@.1 <= 5 * possibilities.len(),
{
    let mut totals = ColorCounts::default();
    let mut i: usize = 0;
    while i < possibilities.len()
        invariant
            i <= possibilities.len(),
            possibilities.len() <= usize::MAX / 5,
            totals@ == total_counts(word, possibilities@.take(i as int)),
            totals@.0 <= 5 * i,
            totals@.1 <= 5 * i,
        decreases possibilities.len() - i,
    {
        let counts = ColorCounts::from_guess(word, possibilities[i].word);
        totals.add_assign(counts);
        assert(possibilities@.take(i + 1).drop_last() =~= possibilities@.take(i as int));
        i += 1;
    }
    assert(possibilities@.take(possibilities.len() as int) =~= possibilities@);
    totals
}

/// A score in tenths.
#[derive(Clone, Copy, PartialEq, Eq, Structural, PartialOrd, Ord, Debug)]
pub struct Points(pub i32);

impl Points {
    /// The number of decimal places that points are shown with.
    pub const DECIMAL_PLACES: usize = 1;

    pub fn zero() -> (r: Points)
        ensures
            r.0 == 0,
    {
        Points(0)
    }

    /// The absolute value.
    pub fn abs(self) -> (r: Points)
        requires
            self.0 != i32::MIN,
        ensures
            r.0 == if self.0 < 0 {
                -self.0
            } else {
                self.0 as int
            },
    {
        if self.0 < 0 {
            Points(-self.0)
        } else {
            self
        }
    }

    /// The negated value.
    pub fn neg(self) -> (r: Points)
        requires
            self.0 != i32::MIN,
        ensures
            r.0 == -self.0,
    {
        Points(-self.0)
    }
}

/// A candidate guess with its scores; the lower `score`, the better the
/// guess, and `rank` is its place among the candidates.
#[derive(Clone, Copy)]
pub struct ScoredGuess {
    pub word: Word,
    pub green_count: Points,
    pub green_yellow_count: Points,
    pub remaining_words: Points,
    pub avg_score: Points,
    pub rank: usize,
    pub score: isize,
}

impl ScoredGuess {
    /// A candidate with nothing computed yet: all points zero, score 100.
    pub fn init_with_word(word: Word) -> (r: ScoredGuess)
        ensures
            r.word == word,
            r.green_count.0 == 0,
            r.green_yellow_count.0 == 0,
            r.remaining_words.0 == 0,
            r.avg_score.0 == 0,
            r.score == 100,
            r.rank == 0,
    {
        ScoredGuess {
            word,
            green_count: Points::zero(),
            green_yellow_count: Points::zero(),
            remaining_words: Points::zero(),
            avg_score: Points::zero(),
            score: 100,
            rank: 0,
        }
    }
}

/// The number of the possibilities that remain after guessing `guess`
/// against `answer`.
pub open spec fn remaining_after(guess: Word, answer: Word, ps: Seq<PossibleAnswer>) -> nat
    decreases ps.len(),
{
    if ps.len() == 0 {
        0
    } else {
        remaining_after(guess, answer, ps.drop_last()) + if remains(guess, answer, ps.last().word) {
            1nat
        } else {
            0nat
        }
    }
}

/// The remaining possibilities summed over the answers in `answers` other
/// than `guess` itself.
pub open spec fn remaining_total(guess: Word, answers: Seq<PossibleAnswer>, ps: Seq<PossibleAnswer>) -> nat
    decreases answers.len(),
{
    if answers.len() == 0 {
        0
    } else {
        remaining_total(guess, answers.drop_last(), ps) + if answers.last().word.letters@ != guess.letters@ {
            remaining_after(guess, answers.last().word, ps)
        } else {
            0nat
        }
    }
}

/// The possibilities are well formed and spell words.
pub open spec fn valid_possibilities(ps: Seq<PossibleAnswer>) -> bool {
    forall|k: int| 0 <= k < ps.len() ==> (#[trigger] ps[k]).wf() && ps[k].word.valid()
}

/// Over every answer among the possibilities other than `word`, the number of
/// possibilities that would remain after guessing `word`, summed.
pub fn remaining_word_count(word: Word, possibilities: &[PossibleAnswer]) -> (r: usize)
    requires
        word.valid(),
        valid_possibilities(possibilities@),
        possibilities.len() * possibilities.len() <= usize::MAX,
    ensures
        r == remaining_total(word, possibilities@, possibilities@),
{
    let n = possibilities.len();
    let mut remaining_count: usize = 0;
    let mut i: usize = 0;
    while i < n
        invariant
            i <= n,
            n == possibilities.len(),
            n * n <= usize::MAX,
            word.valid(),
            valid_possibilities(possibilities@),
            remaining_count == remaining_total(word, possibilities@.take(i as int), possibilities@),
            remaining_count <= i * n,
        decreases n - i,
    {
        let answer = possibilities[i];
        assert(possibilities@.take(i + 1).drop_last() =~= possibilities@.take(i as int));
        if answer.word != word {
            let knowledge = WordKnowledge::from_guess(word, answer.word);
            let mut matching: usize = 0;
            let mut j: usize = 0;
            while j < n
                invariant
                    j <= n,
                    n == possibilities.len(),
                    valid_possibilities(possibilities@),
                    knowledge.wf(),
                    knowledge.learned_from(word, answer.word),
                    matching == remaining_after(word, answer.word, possibilities@.take(j as int)),
                    matching <= j,
                decreases n - j,
            {
                let p = possibilities[j];
                assert(possibilities@[j as int] == p);
                assert(forall|k: int| 0 <= k < 5 ==> (#[trigger] p.word.letters[k]).0 < 32);
                proof {
                    lemma_learned_admits(knowledge, word, answer.word, p.word);
                }
                if knowledge.matches(&p) {
                    matching += 1;
                }
                assert(possibilities@.take(j + 1).drop_last() =~= possibilities@.take(j as int));
                j += 1;
            }
            assert(possibilities@.take(n as int) =~= possibilities@);
            proof {
                assert(i * n + n == (i + 1) * n) by (nonlinear_arith);
                assert((i + 1) * n <= n * n) by (nonlinear_arith)
                    requires
                        i < n,
                ;
            }
            remaining_count += matching;
        } else {
            proof {
                assert(i * n <= (i + 1) * n) by (nonlinear_arith);
            }
        }
        i += 1;
    }
    assert(possibilities@.take(n as int) =~= possibilities@);
    remaining_count
}

/// The rank of the candidate at `i` in standard competition ranking: one
/// more than its position, unless it ties the score before it, whose rank it
/// then shares.
pub open spec fn competition_rank(s: Seq<ScoredGuess>, i: int) -> int
    decreases i,
{
    if i <= 0 {
        1
    } else if s[i].score == s[i - 1].score {
        competition_rank(s, i - 1)
    } else {
        i + 1
    }
}

/// Sets each candidate's rank by its position, ties sharing the rank of the
/// first candidate with their score.
pub fn compute_ranks(guesses: &mut Vec<ScoredGuess>)
    ensures
        final(guesses).len() == old(guesses).len(),
        forall|i: int|
            0 <= i < old(guesses).len() ==> (#[trigger] final(guesses)@[i]).rank == competition_rank(old(guesses)@, i)
                && final(guesses)@[i] == (ScoredGuess { rank: final(guesses)@[i].rank, ..old(guesses)@[i] }),
{
    let ghost s = guesses@;
    let n = guesses.len();
    if n > 0 {
        let mut count: usize = 1;
        let mut first = guesses[0];
        first.rank = count;
        guesses.set(0, first);
        let mut previous: usize = 0;
        let mut i: usize = 1;
        while i < n
            invariant
                1 <= i <= n,
                n == s.len(),
                guesses.len() == n,
                count == i,
                previous < i,
                guesses@[previous as int].score == s[i - 1].score,
                guesses@[previous as int].rank == competition_rank(s, i - 1),
                forall|k: int|
                    0 <= k < i ==> (#[trigger] guesses@[k]).rank == competition_rank(s, k) && guesses@[k] == (ScoredGuess {
                        rank: guesses@[k].rank,
                        ..s[k]
                    }),
                forall|k: int| i <= k < n ==> #[trigger] guesses@[k] == s[k],
            decreases n - i,
        {
            count += 1;
            let mut v = guesses[i];
            let prev = guesses[previous];
            if v.score == prev.score {
                v.rank = prev.rank;
            } else {
                v.rank = count;
                previous = i;
            }
            guesses.set(i, v);
            i += 1;
        }
    }
}

/// The sign of the difference of two numbers: -1, 0 or 1.
pub open spec fn sign(x: int, y: int) -> int {
    if x < y {
        -1
    } else if x == y {
        0
    } else {
        1
    }
}

/// Alphabetical order of two words from position `i` on, as a sign.
pub open spec fn word_sign_from(a: Seq<Letter>, b: Seq<Letter>, i: int) -> int
    decreases 5 - i,
{
    if i >= 5 || i < 0 {
        0
    } else if a[i].0 != b[i].0 {
        sign(a[i].0 as int, b[i].0 as int)
    } else {
        word_sign_from(a, b, i + 1)
    }
}

/// Alphabetical order of two words, as a sign.
pub fn word_sign(a: &Word, b: &Word) -> (r: i8)
    ensures
        r == word_sign_from(a.letters@, b.letters@, 0),
{
    let mut i: usize = 0;
    while i < 5
        invariant
            i <= 5,
            word_sign_from(a.letters@, b.letters@, 0) == word_sign_from(a.letters@, b.letters@, i as int),
        decreases 5 - i,
    {
        if a.letters[i].0 < b.letters[i].0 {
            return -1;
        } else if a.letters[i].0 > b.letters[i].0 {
            return 1;
        }
        i += 1;
    }
    0
}

/// The final order of two candidates, as a sign: by score; on a tie the
/// user's own guess first; then the higher green/yellow count, the higher
/// green count, and alphabetically.
pub open spec fn final_sign(a: ScoredGuess, b: ScoredGuess, user_guess: Option<Word>) -> int {
    if a.score != b.score {
        sign(a.score as int, b.score as int)
    } else if user_guess is Some && user_guess->0.letters@ == a.word.letters@ {
        -1
    } else if user_guess is Some && user_guess->0.letters@ == b.word.letters@ {
        1
    } else if a.green_yellow_count.0 != b.green_yellow_count.0 {
        sign(b.green_yellow_count.0 as int, a.green_yellow_count.0 as int)
    } else if a.green_count.0 != b.green_count.0 {
        sign(b.green_count.0 as int, a.green_count.0 as int)
    } else {
        word_sign_from(a.word.letters@, b.word.letters@, 0)
    }
}

/// The final order of two candidates, as a sign.
pub fn final_difference(a: &ScoredGuess, b: &ScoredGuess, user_guess: Option<Word>) -> (r: i8)
    ensures
        r == final_sign(*a, *b, user_guess),
{
    if a.score != b.score {
        if a.score < b.score {
            -1
        } else {
            1
        }
    } else {
        let guessed: i8 = match user_guess {
            Some(guess) => if guess == a.word {
                -1
            } else if guess == b.word {
                1
            } else {
                0
            },
            None => 0,
        };
        if guessed != 0 {
            guessed
        } else if a.green_yellow_count.0 != b.green_yellow_count.0 {
            if b.green_yellow_count.0 < a.green_yellow_count.0 {
                -1
            } else {
                1
            }
        } else if a.green_count.0 != b.green_count.0 {
            if b.green_count.0 < a.green_count.0 {
                -1
            } else {
                1
            }
        } else {
            word_sign(&a.word, &b.word)
        }
    }
}

/// The ordering that a sign stands for.
pub open spec fn sign_order(d: int) -> Ordering {
    if d < 0 {
        Ordering::Less
    } else if d == 0 {
        Ordering::Equal
    } else {
        Ordering::Greater
    }
}

/// The order of two candidates by score, as a sign.
pub open spec fn score_sign(a: ScoredGuess, b: ScoredGuess) -> int {
    sign(a.score as int, b.score as int)
}

/// Candidates ordered by score.
fn by_score(a: &ScoredGuess, b: &ScoredGuess) -> (r: Ordering)
    ensures
        r == sign_order(score_sign(*a, *b)),
{
    if a.score < b.score {
        Ordering::Less
    } else if a.score == b.score {
        Ordering::Equal
    } else {
        Ordering::Greater
    }
}

/// Candidates in their final order.
fn final_order(a: &ScoredGuess, b: &ScoredGuess, user_guess: Option<Word>) -> (r: Ordering)
    ensures
        r == sign_order(final_sign(*a, *b, user_guess)),
{
    let d = final_difference(a, b, user_guess);
    if d < 0 {
        Ordering::Less
    } else if d == 0 {
        Ordering::Equal
    } else {
        Ordering::Greater
    }
}

/// The first `k` candidates come in order of score, and none scores more
/// than any candidate after them.
pub open spec fn top_by_score(p: Seq<ScoredGuess>, k: usize) -> bool {
    &&& forall|i: int, j: int| 0 <= i <= j < k ==> (#[trigger] p[i]).score <= (#[trigger] p[j]).score
    &&& forall|i: int, j: int| 0 <= i < k <= j < p.len() ==> (#[trigger] p[i]).score <= (#[trigger] p[j]).score
}

/// The first `k` candidates come in final order, and none comes after any
/// candidate after them.
pub open spec fn top_in_final_order(p: Seq<ScoredGuess>, k: usize, user_guess: Option<Word>) -> bool {
    &&& forall|i: int, j: int| 0 <= i <= j < k ==> final_sign(#[trigger] p[i], #[trigger] p[j], user_guess) <= 0
    &&& forall|i: int, j: int| 0 <= i < k <= j < p.len() ==> final_sign(#[trigger] p[i], #[trigger] p[j], user_guess) <= 0
}

/// No two candidates are for the same word.
pub open spec fn distinct_words(p: Seq<ScoredGuess>) -> bool {
    forall|i: int, j: int| 0 <= i < j < p.len() ==> (#[trigger] p[i]).word.letters@ != (#[trigger] p[j]).word.letters@
}

/// Trusted: `partial_sort::PartialSort::partial_sort` on the candidates with
/// `by_score`, which the crate documents as rearranging the elements so that
/// the first `last` are the smallest ones, in ascending order; its source
/// asserts that `last` is at most the length.
#[verifier::external_body]
fn partial_sort_by_score(v: &mut Vec<ScoredGuess>, last: usize)
    requires
        last <= old(v).len(),
    ensures
        final(v)@.len() == old(v)@.len(),
        final(v)@.to_multiset() == old(v)@.to_multiset(),
        top_by_score(final(v)@, last),
{
    v.partial_sort(last, |a, b| by_score(a, b));
}

/// Trusted: `partial_sort::PartialSort::partial_sort` on the candidates with
/// `final_order`, documented as for `partial_sort_by_score`. Its source only
/// moves and swaps elements, so it keeps them whatever the comparison
/// answers; the documented order holds where `final_order` is a total order,
/// which it is for candidates of distinct words. For repeated words the order
/// is not stated.
#[verifier::external_body]
fn partial_sort_final(v: &mut Vec<ScoredGuess>, last: usize, user_guess: Option<Word>)
    requires
        last <= old(v).len(),
    ensures
        final(v)@.len() == old(v)@.len(),
        final(v)@.to_multiset() == old(v)@.to_multiset(),
        distinct_words(old(v)@) ==> top_in_final_order(final(v)@, last, user_guess),
{
    v.partial_sort(last, |a, b| final_order(a, b, user_guess));
}

/// Keeps the `count` candidates that come first in final order, in that
/// order, where no word occurs twice; with repeated words, which are kept
/// and in what order is not stated.
pub fn keep_top_scores_final(guesses: &mut Vec<ScoredGuess>, count: usize, user_guess: Option<Word>)
    ensures
        final(guesses).len() == if count < old(guesses).len() {
            count as int
        } else {
            old(guesses).len() as int
        },
        exists|p: Seq<ScoredGuess>|
            #[trigger] p.to_multiset() == old(guesses)@.to_multiset() && final(guesses)@ == p.take(final(guesses).len() as int)
                && (distinct_words(old(guesses)@) ==> top_in_final_order(p, final(guesses).len(), user_guess)),
{
    let k = if count < guesses.len() {
        count
    } else {
        guesses.len()
    };
    partial_sort_final(guesses, k, user_guess);
    let ghost p = guesses@;
    guesses.truncate(k);
    assert(guesses@ =~= p.take(k as int));
}

/// Keeps the `count` best scoring candidates, in order of score.
pub fn keep_top_scores(scores: &mut Vec<ScoredGuess>, count: usize)
    ensures
        final(scores).len() == if count < old(scores).len() {
            count as int
        } else {
            old(scores).len() as int
        },
        exists|p: Seq<ScoredGuess>|
            #[trigger] top_by_score(p, final(scores).len()) && p.to_multiset() == old(scores)@.to_multiset()
                && final(scores)@ == p.take(final(scores).len() as int),
{
    let k = if count < scores.len() {
        count
    } else {
        scores.len()
    };
    partial_sort_by_score(scores, k);
    let ghost p = scores@;
    scores.truncate(k);
    assert(scores@ =~= p.take(k as int));
}

/// The number of candidates below `n` that score better (lower) than `v`.
pub open spec fn better_count(s: Seq<ScoredGuess>, v: isize, n: int) -> nat
    decreases n,
{
    if n <= 0 {
        0
    } else {
        better_count(s, v, n - 1) + if s[n - 1].score < v {
            1nat
        } else {
            0nat
        }
    }
}

proof fn lemma_better_count_all(s: Seq<ScoredGuess>, v: isize, n: int)
    requires
        0 <= n <= s.len(),
        forall|j: int| 0 <= j < n ==> (#[trigger] s[j]).score < v,
    ensures
        better_count(s, v, n) == n,
    decreases n,
{
    if n > 0 {
        lemma_better_count_all(s, v, n - 1);
    }
}

/// On candidates in order of score, as `keep_top_scores_final` leaves them,
/// a candidate's rank is one more than the number of candidates that score
/// better: tied candidates share the rank of the first of them.
pub proof fn lemma_rank_counts_better(s: Seq<ScoredGuess>, i: int)
    requires
        0 <= i < s.len(),
        forall|j: int, k: int| 0 <= j <= k < s.len() ==> (#[trigger] s[j]).score <= (#[trigger] s[k]).score,
    ensures
        competition_rank(s, i) == 1 + better_count(s, s[i].score, i),
    decreases i,
{
    if i > 0 {
        lemma_rank_counts_better(s, i - 1);
        assert(s[i - 1].score <= s[i].score);
        if s[i].score != s[i - 1].score {
            assert forall|j: int| 0 <= j < i implies (#[trigger] s[j]).score < s[i].score by {
                assert(s[j].score <= s[i - 1].score);
            }
            lemma_better_count_all(s, s[i].score, i);
        }
    }
}

proof fn lemma_word_sign_antisymmetric(a: Seq<Letter>, b: Seq<Letter>, i: int)
    requires
        a.len() == 5,
        b.len() == 5,
        0 <= i <= 5,
    ensures
        word_sign_from(a, b, i) == -word_sign_from(b, a, i),
        word_sign_from(a, b, i) == 0 ==> forall|k: int| i <= k < 5 ==> (#[trigger] a[k]).0 == b[k].0,
    decreases 5 - i,
{
    if i < 5 {
        lemma_word_sign_antisymmetric(a, b, i + 1);
    }
}

/// The final order is deterministic: for candidates of different words it
/// never ties, and it puts every pair the same way round whichever is
/// compared first.
pub proof fn lemma_final_order_total(a: ScoredGuess, b: ScoredGuess, user_guess: Option<Word>)
    requires
        a.word.letters@ != b.word.letters@,
    ensures
        final_sign(a, b, user_guess) != 0,
        final_sign(a, b, user_guess) == -final_sign(b, a, user_guess),
{
    lemma_word_sign_antisymmetric(a.word.letters@, b.word.letters@, 0);
    if word_sign_from(a.word.letters@, b.word.letters@, 0) == 0 {
        assert(a.word.letters@ =~= b.word.letters@);
    }
}

/// The weighted colour count of `word` over the possibilities: 100 for each
/// green and 74 for each yellow.
pub open spec fn weighted_score(word: Word, ps: Seq<PossibleAnswer>) -> nat {
    total_counts(word, ps).0 * 100 + total_counts(word, ps).1 * 74
}

/// The weighted colour count of `word` over the possibilities.
fn score_of(word: Word, possibilities: &Vec<PossibleAnswer>) -> (r: usize)
    requires
        possibilities.len() <= 128,
    ensures
        r == weighted_score(word, possibilities@),
{
    let counts = color_counts(word, possibilities.as_slice());
    proof {
        assert(counts@.0 * 100 + counts@.1 * 74 <= 640 * 174) by (nonlinear_arith)
            requires
                counts@.0 <= 640,
                counts@.1 <= 640,
        ;
    }
    counts.weighted_count()
}

/// Trusted: `Itertools::position_min` on three scores, which the crate
/// documents as the position of the minimum element, the first of several
/// equal minima, and `None` only for no elements.
#[verifier::external_body]
fn position_min(scores: &[usize; 3]) -> (r: usize)
    ensures
        r < 3,
        forall|k: int| 0 <= k < 3 ==> scores[r as int] <= #[trigger] scores[k],
        forall|k: int| 0 <= k < r ==> scores[r as int] < #[trigger] scores[k],
{
    scores.iter().position_min().unwrap()
}

/// Three distinct positions of the possibilities, and no possibility left
/// out scores more than any of them.
pub open spec fn top_picks(picks: Seq<int>, ps: Seq<PossibleAnswer>) -> bool {
    &&& picks.len() == 3
    &&& forall|k: int| 0 <= k < 3 ==> 0 <= #[trigger] picks[k] < ps.len()
    &&& forall|k: int, m: int| 0 <= k < m < 3 ==> #[trigger] picks[k] != #[trigger] picks[m]
    &&& forall|j: int, k: int|
        0 <= j < ps.len() && !picks.contains(j) && 0 <= k < 3 ==> weighted_score(#[trigger] ps[j].word, ps) <= weighted_score(
            ps[#[trigger] picks[k]].word,
            ps,
        )
}

/// Each pick beyond the first three possibilities scores strictly more than
/// some possibility before it that was left out.
pub open spec fn outscores_earlier(picks: Seq<int>, ps: Seq<PossibleAnswer>) -> bool {
    forall|k: int|
        0 <= k < 3 && #[trigger] picks[k] >= 3 ==> exists|m: int|
            0 <= m < picks[k] && !picks.contains(m) && #[trigger] weighted_score(ps[m].word, ps) < weighted_score(
                ps[picks[k]].word,
                ps,
            )
}

/// The outside vector that holds its items inline, up to a fixed capacity.
#[verifier::external_type_specification]
#[verifier::external_body]
#[verifier::reject_recursive_types(T)]
pub struct ExArrayVec<T, const CAP: usize>(ArrayVec<T, CAP>);

/// The words that an `ArrayVec` of up to three words holds, in order.
pub uninterp spec fn words_held(v: ArrayVec<Word, 3>) -> Seq<Word>;

/// Trusted: `ArrayVec::new`, which the crate documents as creating an empty
/// `ArrayVec`.
#[verifier::external_body]
fn new_words() -> (r: ArrayVec<Word, 3>)
    ensures
        words_held(r) == Seq::<Word>::empty(),
{
    ArrayVec::new()
}

/// Trusted: `ArrayVec::push`, which the crate documents as pushing the item
/// to the end of the vector, and as panicking when the vector is already
/// full: `requires` leaves that out.
#[verifier::external_body]
fn push_word(v: &mut ArrayVec<Word, 3>, word: Word)
    requires
        words_held(*old(v)).len() < 3,
    ensures
        words_held(*final(v)) == words_held(*old(v)).push(word),
{
    v.push(word)
}

/// The words of the possibilities, in order.
pub open spec fn words_of(ps: Seq<PossibleAnswer>) -> Seq<Word> {
    ps.map_values(|p: PossibleAnswer| p.word)
}

/// Up to three words of the possibilities that score best by colour counts:
/// all of them where there are at most three; otherwise three, none
/// outscored by a word left out. Later words replace the worst kept word
/// only when they score strictly more, so a kept word beyond the first three
/// outscores an earlier word left out.
pub fn best_guesses_by_color_counts(possibilities: &SliceSubset<PossibleAnswer>) -> (r: ArrayVec<Word, 3>)
    requires
        possibilities.wf(),
    ensures
        possibilities@.len() <= 3 ==> words_held(r) == words_of(possibilities@),
        possibilities@.len() > 3 ==> words_held(r).len() == 3 && exists|picks: Seq<int>|
            #[trigger] top_picks(picks, possibilities@) && outscores_earlier(picks, possibilities@) && forall|k: int|
                0 <= k < 3 ==> words_held(r)[k] == possibilities@[picks[k]].word,
{
    proof {
        possibilities.lemma_len_bound();
    }
    let ghost ps = possibilities@;
    let mut present: Vec<PossibleAnswer> = Vec::new();
    let mut it = possibilities.iter();
    loop
        invariant
            it.wf(),
            present@ + it@ == ps,
        ensures
            present@ == ps,
        decreases it@.len(),
    {
        match it.next() {
            Some(p) => {
                present.push(*p);
                assert(present@ + it@ =~= ps);
            },
            None => {
                assert(present@ =~= ps);
                break;
            },
        }
    }
    let n = present.len();
    if n <= 3 {
        let mut words = new_words();
        let mut i: usize = 0;
        while i < n
            invariant
                i <= n,
                n <= 3,
                n == present.len(),
                present@ == ps,
                words_held(words) == words_of(ps).take(i as int),
            decreases n - i,
        {
            push_word(&mut words, present[i].word);
            assert(words_of(ps).take(i + 1) =~= words_of(ps).take(i as int).push(ps[i as int].word));
            i += 1;
        }
        assert(words_of(ps).take(n as int) =~= words_of(ps));
        return words;
    }
    let mut words: [Word; 3] = [present[0].word, present[1].word, present[2].word];
    let mut scores: [usize; 3] = [
        score_of(present[0].word, &present),
        score_of(present[1].word, &present),
        score_of(present[2].word, &present),
    ];
    let ghost mut picks: Seq<int> = seq![0int, 1int, 2int];
    let mut worst = position_min(&scores);
    let mut worst_score = scores[worst];
    let mut j: usize = 3;
    while j < n
        invariant
            3 <= j <= n,
            n == present.len(),
            n <= 128,
            present@ == ps,
            picks.len() == 3,
            forall|k: int| 0 <= k < 3 ==> 0 <= #[trigger] picks[k] < j,
            forall|k: int, m: int| 0 <= k < m < 3 ==> #[trigger] picks[k] != #[trigger] picks[m],
            forall|k: int|
                0 <= k < 3 ==> words[k] == ps[#[trigger] picks[k]].word && scores[k] == weighted_score(ps[picks[k]].word, ps),
            worst < 3,
            worst_score == scores[worst as int],
            forall|k: int| 0 <= k < 3 ==> worst_score <= #[trigger] scores[k],
            forall|m: int| 0 <= m < j && !picks.contains(m) ==> weighted_score(#[trigger] ps[m].word, ps) <= worst_score,
            outscores_earlier(picks, ps),
        decreases n - j,
    {
        let w = present[j].word;
        let s = score_of(w, &present);
        if s > worst_score {
            let ghost old_picks = picks;
            let ghost old_worst = worst_score;
            let ghost wi: int = worst as int;
            words[worst] = w;
            scores[worst] = s;
            proof {
                picks = picks.update(worst as int, j as int);
            }
            worst = position_min(&scores);
            worst_score = scores[worst];
            proof {
                assert forall|k: int| 0 <= k < 3 && #[trigger] picks[k] >= 3 implies exists|m: int|
                    0 <= m < picks[k] && !picks.contains(m) && #[trigger] weighted_score(ps[m].word, ps) < weighted_score(
                        ps[picks[k]].word,
                        ps,
                    ) by {
                    if k == wi {
                        let m0 = old_picks[wi];
                        if picks.contains(m0) {
                            let kk = choose|kk: int| 0 <= kk < 3 && picks[kk] == m0;
                            assert(kk != wi);
                            assert(old_picks[kk] == m0);
                        }
                        assert(weighted_score(ps[m0].word, ps) == old_worst);
                        assert(0 <= m0 < picks[k] && !picks.contains(m0) && weighted_score(ps[m0].word, ps) < weighted_score(
                            ps[picks[k]].word,
                            ps,
                        ));
                    } else {
                        assert(picks[k] == old_picks[k]);
                        assert(old_picks[k] >= 3);
                        let m = choose|m: int|
                            0 <= m < old_picks[k] && !old_picks.contains(m) && #[trigger] weighted_score(ps[m].word, ps)
                                < weighted_score(ps[old_picks[k]].word, ps);
                        if picks.contains(m) {
                            let kk = choose|kk: int| 0 <= kk < 3 && picks[kk] == m;
                            if kk != wi {
                                assert(old_picks[kk] == m);
                            }
                        }
                        assert(0 <= m < picks[k] && !picks.contains(m) && weighted_score(ps[m].word, ps) < weighted_score(
                            ps[picks[k]].word,
                            ps,
                        ));
                    }
                }
                assert forall|m: int| 0 <= m < j + 1 && !picks.contains(m) implies weighted_score(#[trigger] ps[m].word, ps)
                    <= worst_score by {
                    if m == j {
                        assert(picks[wi] == j);
                    }
                    if old_picks.contains(m) {
                        let k = choose|k: int| 0 <= k < 3 && old_picks[k] == m;
                        if k != wi {
                            assert(picks[k] == m);
                        }
                    }
                }
            }
        } else {
            proof {
                assert forall|m: int| 0 <= m < j + 1 && !picks.contains(m) implies weighted_score(#[trigger] ps[m].word, ps)
                    <= worst_score by {}
            }
        }
        j += 1;
    }
    let mut result = new_words();
    push_word(&mut result, words[0]);
    push_word(&mut result, words[1]);
    push_word(&mut result, words[2]);
    proof {
        assert forall|jj: int, k: int|
            0 <= jj < ps.len() && !picks.contains(jj) && 0 <= k < 3 implies weighted_score(#[trigger] ps[jj].word, ps)
            <= weighted_score(ps[#[trigger] picks[k]].word, ps) by {}
        assert(top_picks(picks, ps));
    }
    result
}

} // verus!
