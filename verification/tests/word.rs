use itertools::assert_equal;
use tortordle::test_helpers::{dbg, l, ls, w};
use tortordle::word::Word;

#[test]
fn test_from_str() {
    assert!(Word::from_str("").is_none());
    assert!(Word::from_str("a").is_none());
    assert!(Word::from_str("abcd").is_none());
    assert!(Word::from_str("abcdef").is_none());
    assert!(Word::from_str("ab cd").is_none());
    assert!(Word::from_str("ab.cd").is_none());
    assert!(Word::from_str("àbcdé").is_none());

    assert_eq!(
        Word::from_str("ABCDE"),
        Some(Word {
            letters: [l('A'), l('B'), l('C'), l('D'), l('E')]
        })
    );
    assert_eq!(
        Word::from_str("abcde"),
        Some(Word {
            letters: [l('A'), l('B'), l('C'), l('D'), l('E')]
        })
    );
}

#[test]
fn word_test_iter() {
    assert_equal(w("ZYXWV").iter().iter().copied(), ls("ZYXWV"));
}

#[test]
fn test_into_iter() {
    assert_equal(w("ZYXWV").into_iter(), ls("ZYXWV"));
}

#[test]
fn word_test_display() {
    assert_eq!(w("LMNOP").to_string(), "LMNOP");
}

#[test]
fn word_test_debug() {
    assert_eq!(dbg(w("LMNOP")), "LMNOP");
}

#[test]
fn word_from_bytes() {
    assert!(Word::from_bytes(b"crane") == Word::from_str("CRANE"));
    assert!(Word::from_bytes(b"cran").is_none());
    assert!(Word::from_bytes(b"cr4ne").is_none());
}
