use tortordle::alphagram::Alphagram;
use tortordle::possibilities::{answers_from_text, PossibleAnswer};
use tortordle::test_helpers::{dbg, w};

#[test]
fn possible_answer_from_word() {
    let pa = PossibleAnswer::from_word(w("CRANE"));
    assert!(pa.word == w("CRANE"));
    assert!(pa.alphagram == Alphagram::from_word(w("CRANE")));
    assert_eq!(dbg(pa), "CRANE");
}


#[test]
fn answers_from_word_list_text() {
    let answers = answers_from_text("  ABBEY\ncrane\nZESTY\n\n").expect("three words");
    let words: Vec<String> = answers.iter().map(|a| a.word.to_string()).collect();
    assert_eq!(words, vec!["ABBEY", "CRANE", "ZESTY"]);
    assert!(answers[1].alphagram == Alphagram::from_word(w("CRANE")));
    assert_eq!(answers_from_text("ABBEY").map(|v| v.len()), Some(1));
    assert!(answers_from_text("ABBEY\n\nCRANE").is_none());
    assert!(answers_from_text("ABBEY\r\nCRANE").is_none());
    assert!(answers_from_text("ABBEY\nCRAN").is_none());
    assert!(answers_from_text("").is_none());
    assert!(answers_from_text(" \n\t ").is_none());
}
