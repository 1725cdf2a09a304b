use tortordle::colored_guess::ColoredGuess;
use tortordle::game::{column_count_for_width, play_guess, retain_matching, worth_showing};
use tortordle::guess_suggestions::ScoredGuess;
use tortordle::knowledge::WordKnowledge;
use tortordle::possibilities::PossibleAnswer;
use tortordle::test_helpers::{p, w};

fn words(ps: &[PossibleAnswer]) -> Vec<String> {
    ps.iter().map(|q| q.word.to_string()).collect()
}

#[test]
fn retain_matching_keeps_admitted() {
    let mut k = WordKnowledge::new();
    k.add_guess(&tortordle::test_helpers::g("CHEER", "EMBER"));
    let mut ps = vec![p("METER"), p("DRYER"), p("EMBER"), p("CHEER")];
    retain_matching(&k, &mut ps);
    assert_eq!(words(&ps), vec!["METER", "EMBER"]);
}

#[test]
fn play_until_solved() {
    let mut k = WordKnowledge::new();
    let mut ps = vec![p("CLEAR"), p("CRANE"), p("SLATE"), p("STALE"), p("STEAL")];
    let mut guesses: Vec<ColoredGuess> = Vec::new();
    assert!(!play_guess(&mut k, &mut ps, &mut guesses, w("SLATE"), w("STALE")));
    assert_eq!(guesses.len(), 1);
    assert_eq!(words(&ps), vec!["STALE"]);
    assert!(play_guess(&mut k, &mut ps, &mut guesses, w("STALE"), w("STALE")));
    assert_eq!(guesses.len(), 2);
    assert_eq!(words(&ps), vec!["STALE"]);
}

#[test]
fn answer_is_never_ruled_out() {
    let all = ["CLEAR", "CRANE", "SLATE", "STALE", "STEAL", "GEESE", "EERIE", "THERE", "RARER", "ERROR"];
    for answer in all {
        let mut k = WordKnowledge::new();
        let mut ps: Vec<PossibleAnswer> = all.iter().map(|s| p(s)).collect();
        let mut guesses = Vec::new();
        for guess in ["EERIE", "CRANE", "STEAL"] {
            if play_guess(&mut k, &mut ps, &mut guesses, w(guess), w(answer)) {
                break;
            }
            assert!(words(&ps).contains(&answer.to_string()), "{guess} against {answer}");
        }
    }
}

#[test]
fn column_counts() {
    assert_eq!(column_count_for_width(0), 1);
    assert_eq!(column_count_for_width(29), 1);
    assert_eq!(column_count_for_width(30), 1);
    assert_eq!(column_count_for_width(80), 9);
    assert_eq!(column_count_for_width(215), 31);
    assert_eq!(column_count_for_width(300), 32);
    assert_eq!(column_count_for_width(u16::MAX), 32);
}

#[test]
fn suggestions_worth_showing() {
    let mut a = ScoredGuess::init_with_word(w("CRANE"));
    let mut b = ScoredGuess::init_with_word(w("SLATE"));
    let mut c = ScoredGuess::init_with_word(w("TRACE"));
    a.rank = 1;
    b.rank = 1;
    c.rank = 1;
    assert!(!worth_showing(&[]));
    assert!(!worth_showing(&[a]));
    b.rank = 2;
    // Two suggestions are equally good, whatever their ranks.
    assert!(!worth_showing(&[a, b]));
    assert!(!worth_showing(&[a, c, c]));
    c.rank = 3;
    assert!(worth_showing(&[a, b, c]));
}
