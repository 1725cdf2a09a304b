use tortordle::guess_coloring::{ColorCounts, ColoredGuess, GuessColor};
use tortordle::test_helpers::{l, w};

fn colours(guess: &str, answer: &str) -> Vec<GuessColor> {
    ColoredGuess::new(w(guess), w(answer)).into_iter().iter().map(|&(_, c)| c).collect()
}


fn codes(s: &str) -> Vec<GuessColor> {
    s.chars()
        .map(|c| match c {
            'G' => GuessColor::Green,
            'Y' => GuessColor::Yellow,
            _ => GuessColor::Black,
        })
        .collect()
}

#[test]
fn coloring_greens_and_yellows() {
    assert_eq!(colours("CRANE", "CLEAR"), codes("GYYBY"));
    assert_eq!(colours("EERIE", "GEESE"), codes("YGBBG"));
    assert_eq!(colours("SPEED", "ABIDE"), codes("BBYBY"));
    assert_eq!(colours("LLAMA", "ALARM"), codes("BGGYY"));
    assert_eq!(colours("ROBOT", "ROBOT"), codes("GGGGG"));
    let guess = ColoredGuess::new(w("CRANE"), w("CLEAR"));
    assert_eq!(guess.iter()[1], (l('R'), GuessColor::Yellow));
}

#[test]
fn color_counts_match_colours() {
    let pairs = [("CRANE", "CLEAR"), ("EERIE", "GEESE"), ("SPEED", "ABIDE"), ("LLAMA", "ALARM"), ("ROBOT", "ROBOT")];
    for (guess, answer) in pairs {
        let counts = ColorCounts::from_guess(w(guess), w(answer));
        let shown = colours(guess, answer);
        let greens = shown.iter().filter(|&&c| c == GuessColor::Green).count();
        let yellows = shown.iter().filter(|&&c| c == GuessColor::Yellow).count();
        assert_eq!(counts.green_count(), greens, "{guess} {answer}");
        assert_eq!(counts.yellow_count(), yellows, "{guess} {answer}");
        assert_eq!(counts.green_yellow_count(), greens + yellows);
        assert_eq!(counts.weighted_count(), 100 * greens + 74 * yellows);
    }
}

#[test]
fn color_counts_add() {
    let mut total = ColorCounts::default();
    total.add_assign(ColorCounts::from_guess(w("CRANE"), w("CLEAR")));
    total.add_assign(ColorCounts::from_guess(w("EERIE"), w("GEESE")));
    assert_eq!(total.green_count(), 3);
    assert_eq!(total.yellow_count(), 4);
}

#[test]
fn guess_color_weights() {
    assert_eq!(GuessColor::Black.weight(), 0);
    assert_eq!(GuessColor::Yellow.weight(), 74);
    assert_eq!(GuessColor::Green.weight(), 100);
}

#[test]
fn coloring_formatted() {
    colored::control::set_override(false);
    assert_eq!(ColoredGuess::new(w("CRANE"), w("CLEAR")).formatted(), "CRANE");
    colored::control::set_override(true);
    assert_eq!(
        ColoredGuess::new(w("CRANE"), w("CLEAR")).formatted(),
        "\u{1b}[42;30mC\u{1b}[0m\u{1b}[43;30mR\u{1b}[0m\u{1b}[43;30mA\u{1b}[0mN\u{1b}[43;30mE\u{1b}[0m"
    );
    colored::control::set_override(false);
}
