use tortordle::data_structures::{Alphagram, LetterSet};

fn alphagram_of(letters: &[u8]) -> Alphagram {
    let mut result = Alphagram::new();
    for &c in letters {
        result.add_letter(c);
    }
    result
}

#[test]
fn letter_set_insert_and_contains() {
    let mut set = LetterSet::new();
    assert!(set.letters().is_empty());
    set.insert(b'Q');
    set.insert(b'C');
    set.insert(b'Q');
    assert!(set.contains(b'C'));
    assert!(set.contains(b'Q'));
    assert!(!set.contains(b'A'));
    assert!(!set.contains(b'Z'));
    assert_eq!(set.letters(), b"CQ".to_vec());
}

#[test]
fn letter_set_all_letters() {
    let mut set = LetterSet::new();
    for c in b'A'..=b'Z' {
        set.insert(c);
    }
    assert_eq!(set.letters(), (b'A'..=b'Z').collect::<Vec<u8>>());
}

#[test]
fn alphagram_from_word_sorts() {
    assert_eq!(Alphagram::from_word(*b"CRANE").letters(), b"ACENR".to_vec());
    assert_eq!(Alphagram::from_word(*b"EERIE").letters(), b"EEEIR".to_vec());
    assert!(Alphagram::new().letters().is_empty());
}

#[test]
fn alphagram_add_letter_keeps_order_and_drops_largest() {
    let mut a = alphagram_of(b"MCA");
    assert_eq!(a.letters(), b"ACM".to_vec());
    a.add_letter(b'B');
    a.add_letter(b'Z');
    assert_eq!(a.letters(), b"ABCMZ".to_vec());
    a.add_letter(b'D');
    assert_eq!(a.letters(), b"ABCDM".to_vec());
    a.add_letter(b'Z');
    assert_eq!(a.letters(), b"ABCDM".to_vec());
}

#[test]
fn ascii_alphagram_remove_letter() {
    let mut a = Alphagram::from_word(*b"EERIE");
    a.remove_letter(b'E');
    assert_eq!(a.letters(), b"EEIR".to_vec());
    a.remove_letter(b'Q');
    assert_eq!(a.letters(), b"EEIR".to_vec());
    a.remove_letter(b'R');
    assert_eq!(a.letters(), b"EEI".to_vec());
    assert!(a.contains(b'I'));
    assert!(!a.contains(b'R'));
    assert!(a.contains(b'_'));
}

#[test]
fn alphagram_remove_undoes_add() {
    let before = alphagram_of(b"SET");
    let mut a = before;
    a.add_letter(b'A');
    a.remove_letter(b'A');
    assert_eq!(a.letters(), before.letters());
}

#[test]
fn ascii_alphagram_contains_other() {
    let steal = Alphagram::from_word(*b"STEAL");
    assert!(steal.contains_other(Alphagram::new()));
    assert!(steal.contains_other(alphagram_of(b"LA")));
    assert!(steal.contains_other(steal));
    assert!(!steal.contains_other(alphagram_of(b"AA")));
    assert!(!steal.contains_other(alphagram_of(b"Z")));
    assert!(!Alphagram::new().contains_other(alphagram_of(b"A")));
    let geese = Alphagram::from_word(*b"GEESE");
    assert!(geese.contains_other(alphagram_of(b"EEE")));
    assert!(!geese.contains_other(alphagram_of(b"EEEE")));
}

#[test]
fn ascii_alphagram_merge_via_max() {
    let mut a = Alphagram::from_word(*b"EERIE");
    a.merge_via_max(Alphagram::from_word(*b"THERE"));
    assert_eq!(a.letters(), b"EEEHI".to_vec());

    let mut b = alphagram_of(b"A");
    b.merge_via_max(alphagram_of(b"B"));
    assert_eq!(b.letters(), b"AB".to_vec());

    let mut c = alphagram_of(b"AAB");
    c.merge_via_max(alphagram_of(b"ABB"));
    assert_eq!(c.letters(), b"AABB".to_vec());

    let mut d = Alphagram::new();
    d.merge_via_max(Alphagram::new());
    assert!(d.letters().is_empty());
}

#[test]
fn added_letters_come_out_sorted() {
    let mut a = Alphagram::new();
    for &c in b"ZEBRA" {
        a.add_letter(c);
    }
    assert_eq!(a.letters(), b"ABERZ".to_vec());
    let mut set = LetterSet::new();
    for &c in b"BANANA" {
        set.insert(c);
    }
    assert_eq!(set.letters(), b"ABN".to_vec());
}
