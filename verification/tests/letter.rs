use tortordle::letter::Letter;
use tortordle::test_helpers::{dbg, l};
use tortordle::letter::{fmt_letters, letters_to_string};
use tortordle::letter::{letter_with_bg, letter_with_fg, letters_with_bg, letters_with_fg, Color};

#[test]
fn test_from_index() {
    assert_eq!(Letter::from_index(0), l('A'));
    assert_eq!(Letter::from_index(15), l('P'));
    assert_eq!(Letter::from_index(25), l('Z'));
    assert!(!Letter::from_index(26).is_valid());
    assert!(!Letter::from_index(u8::MAX).is_valid());
}

#[test]
fn test_from_char() {
    assert_eq!(Letter::from_char('a'), Letter::from_index(0));
    assert_eq!(Letter::from_char('A'), Letter::from_index(0));
    assert_eq!(Letter::from_char('P'), Letter::from_index(15));
    assert_eq!(Letter::from_char('p'), Letter::from_index(15));
    assert_eq!(Letter::from_char('Z'), Letter::from_index(25));
    assert_eq!(Letter::from_char('z'), Letter::from_index(25));
    assert_eq!(Letter::from_char('0'), Letter::no_letter());
    assert_eq!(Letter::from_char(' '), Letter::no_letter());
    assert_eq!(Letter::from_char('_'), Letter::no_letter());
    assert_eq!(Letter::from_char('🙂'), Letter::no_letter());
}

#[test]
fn test_index() {
    for i in u8::MIN..=u8::MAX {
        assert_eq!(i, Letter::from_index(i).index())
    }
}

#[test]
fn test_char() {
    assert_eq!(Letter::from_index(0).char(), 'A');
    assert_eq!(Letter::from_index(15).char(), 'P');
    assert_eq!(Letter::from_index(25).char(), 'Z');
    assert_eq!(Letter::from_index(26).char(), '_');
    assert_eq!(Letter::from_index(u8::MAX).char(), '_');
}

#[test]
fn test_is_valid() {
    assert!(Letter::from_index(0).is_valid());
    assert!(Letter::from_char('p').is_valid());
    assert!(Letter::from_char('Z').is_valid());
    assert!(!Letter::from_index(27).is_valid());
    assert!(!Letter::from_char('7').is_valid());
    assert!(!Letter::no_letter().is_valid());
}

#[test]
fn letter_test_display() {
    assert_eq!(Letter::from_index(0).to_string(), "A");
    assert_eq!(Letter::from_char('p').to_string(), "P");
    assert_eq!(Letter::from_char('Z').to_string(), "Z");
    assert_eq!(Letter::from_index(67).to_string(), "_");
    assert_eq!(Letter::no_letter().to_string(), "_");
}

#[test]
fn letter_test_debug() {
    assert_eq!(dbg(Letter::from_index(0)), "A");
    assert_eq!(dbg(Letter::from_char('p')), "P");
    assert_eq!(dbg(Letter::from_char('Z')), "Z");
    assert_eq!(dbg(Letter::from_index(67)), "_");
    assert_eq!(dbg(Letter::no_letter()), "_");
}

#[test]
fn letters_in_colour() {
    let abc = [l('A'), l('B'), l('C')];
    colored::control::set_override(false);
    assert_eq!(letters_with_fg(&abc, Color::Green), "ABC");
    assert_eq!(letter_with_bg(l('Q'), Color::Yellow), "Q");
    colored::control::set_override(true);
    assert_eq!(letters_with_fg(&abc, Color::Green), "\u{1b}[32mABC\u{1b}[0m");
    assert_eq!(letters_with_fg(&abc, Color::Red), "\u{1b}[31mABC\u{1b}[0m");
    assert_eq!(letters_with_bg(&abc, Color::Blue), "\u{1b}[44;30mABC\u{1b}[0m");
    assert_eq!(letter_with_fg(l('Q'), Color::Magenta), "\u{1b}[35mQ\u{1b}[0m");
    assert_eq!(letter_with_bg(l('Q'), Color::White), "\u{1b}[47;30mQ\u{1b}[0m");
    assert_eq!(letter_with_fg(l('Q'), Color::Yellow), "\u{1b}[33mQ\u{1b}[0m");
    assert_eq!(letter_with_bg(l('Q'), Color::Black), "\u{1b}[40;30mQ\u{1b}[0m");
    colored::control::set_override(false);
}

#[test]
fn char_round_trip() {
    for c in 'A'..='Z' {
        assert_eq!(Letter::from_char(c).char(), c);
    }
    for i in 0..26u8 {
        assert_eq!(Letter::from_char(Letter::from_index(i).char()).index(), i);
    }
}

#[test]
fn fmt_letters_appends() {
    let mut out = String::from(">");
    fmt_letters(&[l('X'), Letter::no_letter(), l('Y')], &mut out);
    assert_eq!(out, ">X_Y");
    assert_eq!(letters_to_string(&[l('H'), l('I')]), "HI");
}
