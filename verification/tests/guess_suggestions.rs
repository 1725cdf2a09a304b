use tortordle::guess_suggestions::{
    color_counts, compute_ranks, keep_top_scores, keep_top_scores_final, remaining_word_count, word_sign, Points,
    ScoredGuess,
};
use tortordle::knowledge::WordKnowledge;
use tortordle::possibilities::PossibleAnswer;
use tortordle::slice_subset::SliceSubset;
use tortordle::guess_suggestions::best_guesses_by_color_counts;
use tortordle::test_helpers::{p, w};

fn scored(word: &str, score: isize) -> ScoredGuess {
    let mut s = ScoredGuess::init_with_word(w(word));
    s.score = score;
    s
}

#[test]
fn init_with_word_starts_at_one_hundred() {
    let s = ScoredGuess::init_with_word(w("CRANE"));
    assert!(s.word == w("CRANE"));
    assert_eq!(s.score, 100);
    assert_eq!(s.rank, 0);
    assert_eq!(s.green_count, Points::zero());
    assert_eq!(s.avg_score, Points(0));
}

#[test]
fn points_abs_and_neg() {
    assert_eq!(Points(-15).abs(), Points(15));
    assert_eq!(Points(15).abs(), Points(15));
    assert_eq!(Points(15).neg(), Points(-15));
    assert!(Points(-3) < Points(2));
}

#[test]
fn color_counts_sum_over_possibilities() {
    let ps = [p("CLEAR"), p("GEESE"), p("CRANE")];
    let counts = color_counts(w("CRANE"), &ps);
    // CLEAR: 1 green, 3 yellows; GEESE: 1 green (E); CRANE: 5 greens.
    assert_eq!(counts.green_count(), 7);
    assert_eq!(counts.yellow_count(), 3);
    assert_eq!(color_counts(w("CRANE"), &[]).green_count(), 0);
}

#[test]
fn remaining_word_count_sums_remaining() {
    let ps = [p("CLEAR"), p("CRANE"), p("SLATE"), p("STALE")];
    let mut expected = 0;
    for answer in &ps {
        if answer.word != w("CRANE") {
            let k = WordKnowledge::from_guess(w("CRANE"), answer.word);
            expected += ps.iter().filter(|q| k.matches(q)).count();
        }
    }
    assert_eq!(remaining_word_count(w("CRANE"), &ps), expected);
    // Each answer other than the guess leaves at least itself.
    assert!(expected >= 3);
    let single: [PossibleAnswer; 1] = [p("CRANE")];
    assert_eq!(remaining_word_count(w("CRANE"), &single), 0);
}

#[test]
fn ranks_share_ties() {
    let mut v = vec![scored("AAAAA", 1), scored("BBBBB", 2), scored("CCCCC", 2), scored("DDDDD", 5), scored("EEEEE", 5), scored("FFFFF", 7)];
    compute_ranks(&mut v);
    let ranks: Vec<usize> = v.iter().map(|s| s.rank).collect();
    assert_eq!(ranks, vec![1, 2, 2, 4, 4, 6]);
    let mut empty: Vec<ScoredGuess> = Vec::new();
    compute_ranks(&mut empty);
    assert!(empty.is_empty());
}

#[test]
fn keep_top_scores_keeps_lowest() {
    let mut v = vec![scored("AAAAA", 9), scored("BBBBB", 3), scored("CCCCC", 7), scored("DDDDD", 1), scored("EEEEE", 5)];
    keep_top_scores(&mut v, 3);
    let scores: Vec<isize> = v.iter().map(|s| s.score).collect();
    assert_eq!(scores, vec![1, 3, 5]);
    keep_top_scores(&mut v, 10);
    assert_eq!(v.len(), 3);
}

#[test]
fn keep_top_scores_final_breaks_ties() {
    let mut a = scored("ZESTY", 4);
    a.green_yellow_count = Points(20);
    let mut b = scored("APPLE", 4);
    b.green_yellow_count = Points(20);
    let mut c = scored("MANGO", 4);
    c.green_yellow_count = Points(30);
    let d = scored("LEMON", 2);
    let e = scored("GUAVA", 4);
    let mut v = vec![a, b, c, d, e];
    keep_top_scores_final(&mut v, 4, Some(w("GUAVA")));
    let words: Vec<String> = v.iter().map(|s| s.word.to_string()).collect();
    assert_eq!(words, vec!["LEMON", "GUAVA", "MANGO", "APPLE"]);

    let mut v = vec![a, b, c, d, e];
    keep_top_scores_final(&mut v, 5, None);
    let words: Vec<String> = v.iter().map(|s| s.word.to_string()).collect();
    assert_eq!(words, vec!["LEMON", "MANGO", "APPLE", "ZESTY", "GUAVA"]);
}

#[test]
fn words_in_alphabetical_order() {
    assert_eq!(word_sign(&w("APPLE"), &w("APPLY")), -1);
    assert_eq!(word_sign(&w("APPLY"), &w("APPLE")), 1);
    assert_eq!(word_sign(&w("MANGO"), &w("MANGO")), 0);
}

#[test]
fn final_order_is_deterministic() {
    let make = |word: &str, score: isize, gy: i32, g: i32| {
        let mut s = scored(word, score);
        s.green_yellow_count = Points(gy);
        s.green_count = Points(g);
        s
    };
    let candidates = [
        make("APPLE", 4, 20, 5),
        make("BERRY", 4, 20, 5),
        make("CHARD", 4, 20, 7),
        make("DATES", 4, 25, 1),
        make("ELDER", 3, 0, 0),
        make("FIGGY", 4, 20, 5),
    ];
    let mut forward: Vec<ScoredGuess> = candidates.to_vec();
    let mut backward: Vec<ScoredGuess> = candidates.iter().rev().copied().collect();
    keep_top_scores_final(&mut forward, 6, None);
    keep_top_scores_final(&mut backward, 6, None);
    let a: Vec<String> = forward.iter().map(|s| s.word.to_string()).collect();
    let b: Vec<String> = backward.iter().map(|s| s.word.to_string()).collect();
    assert_eq!(a, vec!["ELDER", "DATES", "CHARD", "APPLE", "BERRY", "FIGGY"]);
    assert_eq!(a, b);
}

#[test]
fn best_by_color_counts_small() {
    let ps = [p("CRANE"), p("SLATE")];
    let subset = SliceSubset::from_slice(&ps).unwrap();
    let words: Vec<String> = best_guesses_by_color_counts(&subset).iter().map(|w| w.to_string()).collect();
    assert_eq!(words, vec!["CRANE", "SLATE"]);
}

#[test]
fn best_by_color_counts_keeps_top_three() {
    let ps = [p("QUIZZ"), p("CRANE"), p("FJORD"), p("SLATE"), p("STALE"), p("TRACE")];
    let subset = SliceSubset::from_slice(&ps).unwrap();
    let best = best_guesses_by_color_counts(&subset);
    assert_eq!(best.len(), 3);
    let score = |word| color_counts(word, &ps).weighted_count();
    let kept: Vec<usize> = best.iter().map(|&word| score(word)).collect();
    let worst_kept = *kept.iter().min().unwrap();
    for q in &ps {
        if !best.iter().any(|&word| word == q.word) {
            assert!(score(q.word) <= worst_kept, "{}", q.word.to_string());
        }
    }
    assert!(!best.iter().any(|&word| word == w("QUIZZ")));
    assert!(!best.iter().any(|&word| word == w("FJORD")));
}

#[test]
fn best_by_color_counts_keeps_earlier_words_on_ties() {
    // Every rotation scores the same against the others, so none replaces
    // the first three.
    let ps = [p("ABCDE"), p("BCDEA"), p("CDEAB"), p("DEABC"), p("EABCD")];
    let subset = SliceSubset::from_slice(&ps).unwrap();
    let words: Vec<String> = best_guesses_by_color_counts(&subset).iter().map(|w| w.to_string()).collect();
    assert_eq!(words, vec!["ABCDE", "BCDEA", "CDEAB"]);
}
