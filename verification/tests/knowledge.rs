use tortordle::knowledge::{add_indefinite_article_to_letter, index_to_ordinal, Conflict, WordKnowledge};
use tortordle::letter::Letter;
use tortordle::test_helpers::{g, l, p, w};

#[test] // GH-1
fn same_letter_green_and_yellow() {
    let mut k = WordKnowledge::new();
    k.add_guess(&g("CHEER", "EMBER"));

    assert!(k.matches(&p("METER")));
    assert!(!k.matches(&p("DRYER")));
}

#[test] // GH-1: This scenario is extremely unlikely, but bugs is bugs.
fn same_letter_green_and_green_and_yellow() {
    let mut k = WordKnowledge::new();
    k.add_guess(&g("ERROR", "RARER"));

    assert!(k.matches(&p("RARER")));
    assert!(!k.matches(&p("PURER")));
}

#[test]
fn new_knowledge_matches_everything() {
    let k = WordKnowledge::new();
    assert!(k.matches(&p("CRANE")));
    assert!(k.matches(&p("ZZZZZ")));
    assert!(k.check_for_conflicts(w("QUIRK")).is_empty());
}

#[test]
fn added_guess_keeps_the_answer() {
    let pairs = [
        ("CRANE", "SLATE"),
        ("EERIE", "THERE"),
        ("SPEED", "ABIDE"),
        ("LLAMA", "ALARM"),
        ("ARRAY", "RADAR"),
        ("SASSY", "ASSAY"),
    ];
    for (guess, answer) in pairs {
        let mut k = WordKnowledge::new();
        k.add_guess(&g(guess, answer));
        assert!(k.matches(&p(answer)), "{guess} against {answer}");
        let mut k2 = WordKnowledge::new();
        k2.add_guess(&g("ROUTE", answer));
        k2.add_guess(&g(guess, answer));
        assert!(k2.matches(&p(answer)), "ROUTE, {guess} against {answer}");
    }
}

#[test]
fn learned_knowledge_keeps_the_answer() {
    let pairs = [("CRANE", "SLATE"), ("EERIE", "THERE"), ("SPEED", "ABIDE"), ("SASSY", "ASSAY")];
    for (guess, answer) in pairs {
        let k = WordKnowledge::from_guess(w(guess), w(answer));
        assert!(k.matches(&p(answer)), "{guess} against {answer}");
    }
}

#[test]
fn from_guess_agrees_with_add_guess_on_one_guess() {
    let guesses = ["CRANE", "EERIE", "SPEED", "ERROR", "CHEER"];
    let answers = ["SLATE", "THERE", "ABIDE", "RARER", "EMBER", "METER", "DRYER", "PURER"];
    for guess in guesses {
        for answer in answers {
            let learned = WordKnowledge::from_guess(w(guess), w(answer));
            for candidate in answers {
                let mut added = WordKnowledge::new();
                added.add_guess(&g(guess, answer));
                assert_eq!(added.matches(&p(candidate)), learned.matches(&p(candidate)), "{guess} {answer} {candidate}");
            }
        }
    }
}

#[test]
fn black_letter_rules_out_word() {
    let k = WordKnowledge::from_guess(w("CRANE"), w("SLOTH"));
    assert!(!k.matches(&p("CLOTH")));
    assert!(k.matches(&p("SLOTH")));
    assert!(k.matches(&p("MOIST")));
}

#[test]
fn yellow_letter_must_appear_elsewhere() {
    let k = WordKnowledge::from_guess(w("TRAIN"), w("ACTOR"));
    // T, R and A are yellow; I and N are black.
    assert!(k.matches(&p("ACTOR")));
    assert!(!k.matches(&p("TRACT")));
    assert!(!k.matches(&p("CAROM")));
}

#[test]
fn conflicts_in_slot_order_then_missing() {
    let mut k = WordKnowledge::new();
    k.add_guess(&g("CRANE", "CLEAR"));
    // C green; R, A, E yellow; N black.
    let conflicts = k.check_for_conflicts(w("TRUNK"));
    assert_eq!(
        conflicts,
        vec![
            Conflict::MustBe(0, l('C')),
            Conflict::CannotBe(1, l('R')),
            Conflict::CannotBe(3, l('N')),
            Conflict::Missing(l('A'), 1),
            Conflict::Missing(l('E'), 1),
        ]
    );
    assert!(k.check_for_conflicts(w("CLEAR")).is_empty());
}

#[test]
fn missing_counts_repeated_yellows() {
    let mut k = WordKnowledge::new();
    k.add_guess(&g("EERIE", "GEESE"));
    let conflicts = k.check_for_conflicts(w("ABBEY"));
    assert_eq!(
        conflicts,
        vec![Conflict::MustBe(1, l('E')), Conflict::MustBe(4, l('E'))]
    );
    assert!(k.check_for_conflicts(w("GEESE")).is_empty());
}

#[test]
fn conflict_texts() {
    assert_eq!(Conflict::MustBe(0, l('A')).as_text(), "The first letter must be an A.");
    assert_eq!(Conflict::MustBe(4, l('B')).as_text(), "The fifth letter must be a B.");
    assert_eq!(Conflict::CannotBe(1, l('S')).as_text(), "The second letter cannot be an S.");
    assert_eq!(Conflict::CannotBe(2, l('T')).as_text(), "The third letter cannot be a T.");
    assert_eq!(Conflict::Missing(l('X'), 1).as_text(), "The word must contain an X.");
    assert_eq!(Conflict::Missing(l('Q'), 1).as_text(), "The word must contain a Q.");
    assert_eq!(Conflict::Missing(l('E'), 2).as_text(), "The word must contain 2 E's.");
    assert_eq!(Conflict::Missing(l('P'), 12).as_text(), "The word must contain 12 P's.");
}

#[test]
fn ordinals() {
    assert_eq!(index_to_ordinal(0), "first");
    assert_eq!(index_to_ordinal(1), "second");
    assert_eq!(index_to_ordinal(2), "third");
    assert_eq!(index_to_ordinal(3), "fourth");
    assert_eq!(index_to_ordinal(4), "fifth");
}

#[test]
fn indefinite_articles() {
    let an = "AEFHILMNORSX";
    for c in 'A'..='Z' {
        let expected = if an.contains(c) { format!("an {c}") } else { format!("a {c}") };
        assert_eq!(add_indefinite_article_to_letter(l(c)), expected);
    }
    assert_eq!(add_indefinite_article_to_letter(Letter::no_letter()), "a _");
}

#[test]
fn formatted_without_colour() {
    colored::control::set_override(false);
    let mut k = WordKnowledge::new();
    assert_eq!(k.formatted(), "[||||]");
    k.add_guess(&g("CRANE", "CLEAR"));
    // Slot 0 is known; the others show the possible yellows, then the exclusions.
    assert_eq!(k.formatted(), "[C|AENR|ERAN|AERN|AREN]");
    assert_eq!(k.format_word(w("CLEAR")), "CLEAR");
}

#[test]
fn formatted_with_colour() {
    colored::control::set_override(true);
    let mut k = WordKnowledge::new();
    k.add_guess(&g("CRANE", "CLEAR"));
    assert_eq!(
        k.format_word(w("CLEAR")),
        "\u{1b}[32mC\u{1b}[0mL\u{1b}[33mE\u{1b}[0m\u{1b}[33mA\u{1b}[0m\u{1b}[33mR\u{1b}[0m"
    );
    assert_eq!(
        k.formatted(),
        "[\u{1b}[32mC\u{1b}[0m|\u{1b}[33mAE\u{1b}[0m\u{1b}[31mNR\u{1b}[0m|\u{1b}[33mER\u{1b}[0m\u{1b}[31mAN\u{1b}[0m|\u{1b}[33mAER\u{1b}[0m\u{1b}[31mN\u{1b}[0m|\u{1b}[33mAR\u{1b}[0m\u{1b}[31mEN\u{1b}[0m]"
    );
    colored::control::set_override(false);
}

#[test]
fn placed_yellows_become_known() {
    colored::control::set_override(false);
    let mut k = WordKnowledge::new();
    k.add_guess(&g("SLATE", "STALE"));
    // L can only go in the fourth slot and T only in the second.
    assert_eq!(k.formatted(), "[S|T|A|L|E]");
    assert!(k.matches(&p("STALE")));
    assert!(!k.matches(&p("SLATE")));
    assert_eq!(k.check_for_conflicts(w("STEAL")), vec![Conflict::MustBe(2, l('A')), Conflict::MustBe(3, l('L')), Conflict::MustBe(4, l('E'))]);
}

#[test]
fn conflicts_agree_with_matches() {
    let mut k = WordKnowledge::new();
    k.add_guess(&g("CHEER", "EMBER"));
    // Two E's are known, one of them green: DRYER holds only the green one,
    // and no E outside the slot known to hold it.
    assert!(k.check_for_conflicts(w("METER")).is_empty());
    assert_eq!(k.check_for_conflicts(w("DRYER")), vec![Conflict::Missing(l('E'), 1)]);
    assert!(!k.matches(&p("DRYER")));
    for word in ["METER", "DRYER", "EMBER", "CHEER", "ELDER", "ENTER", "SHEER"] {
        assert_eq!(k.check_for_conflicts(w(word)).is_empty(), k.matches(&p(word)), "{word}");
    }
}

#[test]
fn missing_counts_only_yellow_letters() {
    let mut k = WordKnowledge::new();
    k.add_guess(&g("CHEER", "EMBER"));
    assert_eq!(
        k.check_for_conflicts(w("CHEEK")),
        vec![
            Conflict::CannotBe(0, l('C')),
            Conflict::CannotBe(1, l('H')),
            Conflict::CannotBe(2, l('E')),
            Conflict::MustBe(4, l('R')),
        ]
    );
    assert_eq!(
        k.check_for_conflicts(w("ABBOT")),
        vec![Conflict::MustBe(3, l('E')), Conflict::MustBe(4, l('R')), Conflict::Missing(l('E'), 1)]
    );
}
