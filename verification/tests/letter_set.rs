use tortordle::letter::Letter;
use tortordle::letter_set::LetterSet;
use tortordle::test_helpers::{dbg, l, lset};

#[test]
fn letter_set_insert_contains() {
    let mut set = LetterSet::new();
    assert_eq!(dbg(set), "");
    set.insert(l('Q'));
    set.insert(l('C'));
    set.insert(l('Q'));
    assert!(set.contains(l('C')));
    assert!(set.contains(l('Q')));
    assert!(!set.contains(l('A')));
    assert_eq!(dbg(set), "CQ");
    assert_eq!(set.letters(), vec![l('C'), l('Q')]);
}

#[test]
fn letter_set_iterates_in_order() {
    let set = lset("AEIOU");
    let mut it = set.into_iter();
    let mut seen: Vec<Letter> = Vec::new();
    while it.has_next() {
        if let Some(letter) = it.next() {
            seen.push(letter);
        }
    }
    assert_eq!(seen, vec![l('A'), l('E'), l('I'), l('O'), l('U')]);
    assert!(it.next().is_none());
}
