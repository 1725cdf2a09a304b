use tortordle::alphagram::Alphagram;
use tortordle::letter::Letter;
use tortordle::test_helpers::{a, dbg, l, w};

#[test]
fn alphagram_new_is_empty() {
    assert_eq!(dbg(Alphagram::new()), "_____");
    assert!(!Alphagram::new().is_full());
}

#[test]
fn alphagram_from_word() {
    assert_eq!(dbg(Alphagram::from_word(w("CRANE"))), "ACENR");
    assert_eq!(dbg(Alphagram::from_word(w("EERIE"))), "EEEIR");
    assert!(Alphagram::from_word(w("EERIE")).is_full());
}

#[test]
fn alphagram_insert_and_remove() {
    let mut x = a("MC");
    assert_eq!(dbg(x), "CM___");
    x.insert(l('A'));
    assert_eq!(dbg(x), "ACM__");
    assert!(x.remove(l('C')));
    assert_eq!(dbg(x), "AM___");
    assert!(!x.remove(l('C')));
    assert_eq!(dbg(x), "AM___");
    assert!(x.contains(l('M')));
    assert!(!x.contains(l('C')));
    assert!(x.contains(Letter::no_letter()));
}

#[test]
fn alphagram_remove_undoes_insert() {
    let before = a("SET");
    let mut x = before;
    x.insert(l('A'));
    assert!(x.remove(l('A')));
    assert!(x == before);
}

#[test]
fn alphagram_iter() {
    let letters: Vec<Letter> = {
        let mut it = a("BAD").into_iter();
        let mut v = Vec::new();
        while let Some(letter) = it.next() {
            v.push(letter);
        }
        v
    };
    assert_eq!(letters, vec![l('A'), l('B'), l('D')]);
}

#[test]
fn alphagram_contains_other() {
    let steal = Alphagram::from_word(w("STEAL"));
    assert!(steal.contains_other(Alphagram::new()));
    assert!(steal.contains_other(a("LA")));
    assert!(!steal.contains_other(a("AA")));
    assert!(!Alphagram::new().contains_other(a("A")));
}

#[test]
fn alphagram_merged() {
    let m = Alphagram::from_word(w("EERIE")).merged(Alphagram::from_word(w("THERE")));
    assert_eq!(dbg(m), "EEEHI");
    assert_eq!(dbg(a("AAB").merged(a("ABB"))), "AABB_");
    assert_eq!(dbg(a("A").merged(a("B"))), "AB___");
}

#[test]
fn merged_laws() {
    let x = a("AEL");
    let y = a("EEP");
    assert!(x.merged(y) == y.merged(x));
    assert!(x.merged(x) == x);
    assert!(x.merged(Alphagram::new()) == x);
    assert!(Alphagram::new().merged(x) == x);
}
