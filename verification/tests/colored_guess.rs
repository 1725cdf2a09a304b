use tortordle::colored_guess::{color_guess, GuessColor};
use tortordle::guess_coloring::{ColorCounts, ColoredGuess as CountedGuess, GuessColor as CountedColor};
use tortordle::letter::{Color, Letter};
use tortordle::word::Word;
use tortordle::test_helpers::{g, l, w};

fn colours(guess: &str, answer: &str) -> Vec<GuessColor> {
    g(guess, answer).into_iter().iter().map(|&(_, c)| c).collect()
}


fn codes(s: &str) -> Vec<GuessColor> {
    s.chars()
        .map(|c| match c {
            'G' => GuessColor::Green,
            'Y' => GuessColor::Yellow,
            _ => GuessColor::Black,
        })
        .collect()
}

#[test]
fn color_guess_greens_and_yellows() {
    assert_eq!(colours("CRANE", "CLEAR"), codes("GYYBY"));
    assert_eq!(colours("EERIE", "GEESE"), codes("YGBBG"));
    assert_eq!(colours("LLAMA", "ALARM"), codes("BGGYY"));
    assert_eq!(colours("ERROR", "RARER"), codes("YYGBG"));
}

#[test]
fn weighted_green_yellow_count() {
    assert_eq!(g("CRANE", "CLEAR").weighted_green_yellow_count(), 100 + 3 * 74);
    assert_eq!(g("ROBOT", "ROBOT").weighted_green_yellow_count(), 500);
    assert_eq!(g("QUIZZ", "CRANE").weighted_green_yellow_count(), 0);
}

#[test]
fn colour_of_guess_colours() {
    assert_eq!(GuessColor::Black.color(), Color::Black);
    assert_eq!(GuessColor::Yellow.color(), Color::Yellow);
    assert_eq!(GuessColor::Green.color(), Color::Green);
    assert_eq!(GuessColor::Black.block_color(), Color::White);
    assert_eq!(GuessColor::Yellow.block_color(), Color::Yellow);
    assert_eq!(GuessColor::Green.block_color(), Color::Green);
}

#[test]
fn color_guess_formatted() {
    colored::control::set_override(false);
    assert_eq!(color_guess(w("EERIE"), w("GEESE")).formatted(), "EERIE");
    colored::control::set_override(true);
    assert_eq!(
        color_guess(w("EERIE"), w("GEESE")).formatted(),
        "\u{1b}[43;30mE\u{1b}[0m\u{1b}[42;30mE\u{1b}[0mRI\u{1b}[42;30mE\u{1b}[0m"
    );
    colored::control::set_override(false);
}

#[test]
fn colorings_agree() {
    let words = ["CRANE", "CLEAR", "EERIE", "GEESE", "LLAMA", "ALARM", "ERROR", "RARER", "SASSY", "ASSAY"];
    for guess in words {
        for answer in words {
            let one: Vec<GuessColor> = colours(guess, answer);
            let other: Vec<GuessColor> = CountedGuess::new(w(guess), w(answer))
                .into_iter()
                .iter()
                .map(|&(_, c)| match c {
                    CountedColor::Black => GuessColor::Black,
                    CountedColor::Yellow => GuessColor::Yellow,
                    CountedColor::Green => GuessColor::Green,
                })
                .collect();
            assert_eq!(one, other, "{guess} against {answer}");
        }
    }
}

#[test]
fn no_letter_guess_slots() {
    let n = Letter::no_letter();
    let guess = |letters: [Letter; 5]| Word { letters };
    let shown = |word: Word, answer: &str| -> Vec<GuessColor> {
        color_guess(word, w(answer)).into_iter().iter().map(|&(_, c)| c).collect()
    };
    let one_blank = guess([n, l('B'), l('C'), l('D'), l('E')]);
    assert_eq!(shown(one_blank, "ABCDE"), codes("YGGGG"));
    let blank = guess([n, n, n, n, n]);
    assert_eq!(shown(blank, "ABCDE"), codes("BBBBB"));
    let a_then_blanks = guess([l('A'), n, n, n, n]);
    assert_eq!(shown(a_then_blanks, "BCDEA"), codes("YYYYY"));
}

#[test]
fn weighted_count_agrees_with_color_counts() {
    let words = ["CHEER", "EMBER", "CRANE", "CLEAR", "EERIE", "GEESE", "ROBOT", "QUIZZ", "SLATE", "STALE"];
    for guess in words {
        for answer in words {
            let counts = ColorCounts::from_guess(w(guess), w(answer));
            assert_eq!(g(guess, answer).weighted_green_yellow_count(), counts.weighted_count(), "{guess} {answer}");
            assert!(counts.green_count() + counts.yellow_count() <= 5);
        }
    }
    assert_eq!(g("CHEER", "EMBER").weighted_green_yellow_count(), 274);
}
