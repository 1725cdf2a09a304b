//! A letter of the alphabet stored by its zero-based position.

use vstd::prelude::*;

use colored::Colorize;

use crate::text::push_char;

verus! {

/// A letter, stored as its zero-indexed position in the alphabet. Any index of
/// 26 or more stands for "no letter".
#[derive(Clone, Copy, PartialEq, Eq, Structural, Debug, PartialOrd, Ord, Hash)]
pub struct Letter(pub u8);

/// The character that `Letter::char` gives for a letter index.
pub open spec fn letter_char(index: u8) -> char {
    if index < 26 {
        (index + 65) as char
    } else {
        '_'
    }
}

/// The letter index that `Letter::from_char` gives for a character.
pub open spec fn char_index(c: char) -> u8 {
    if 'A' <= c && c <= 'Z' {
        (c as u32 - 65) as u8
    } else if 'a' <= c && c <= 'z' {
        (c as u32 - 97) as u8
    } else {
        255u8
    }
}

impl Letter {
    /// The letter that stands for "no letter".
    pub fn no_letter() -> (r: Letter)
        ensures
            r.0 == 255,
    {
        Letter(255)
    }

    pub open spec fn valid(self) -> bool {
        self.0 < 26
    }

    pub fn from_index(b: u8) -> (r: Letter)
        ensures
            r.0 == b,
    {
        Letter(b)
    }

    pub fn from_char(c: char) -> (r: Letter)
        ensures
            r.0 == char_index(c),
    {
        if 'A' <= c && c <= 'Z' {
            Letter((c as u32 - 65) as u8)
        } else if 'a' <= c && c <= 'z' {
            Letter((c as u32 - 97) as u8)
        } else {
            Letter::no_letter()
        }
    }

    pub fn index(&self) -> (r: u8)
        ensures
            r == self.0,
    {
        self.0
    }

    pub fn char(&self) -> (r: char)
        ensures
            r == letter_char(self.0),
    {
        if self.is_valid() {
            (self.0 + 65) as char
        } else {
            '_'
        }
    }

    pub fn is_valid(&self) -> (r: bool)
        ensures
            r == self.valid(),
    {
        self.0 < 26
    }

    /// The letter as a one-character string.
    pub fn to_string(&self) -> (r: String)
        ensures
            r@ == seq![letter_char(self.0)],
    {
        let mut s = String::new();
        push_char(&mut s, self.char());
        s
    }
}

} // verus!

verus! {

/// Reading back the character of a letter of the alphabet gives the letter,
/// and the letter of a capital gives back the capital.
pub proof fn lemma_char_round_trip(index: u8, c: char)
    ensures
        index < 26 ==> char_index(letter_char(index)) == index,
        'A' <= c <= 'Z' ==> letter_char(char_index(c)) == c,
{
    if index < 26 {
        assert(((index + 65) as char) as u32 == index + 65);
    }
    if 'A' <= c <= 'Z' {
        assert((((c as u32 - 65) as u8 + 65) as char) as u32 == c as u32);
    }
}

/// The indices of a sequence of letters.
pub open spec fn indices(s: Seq<Letter>) -> Seq<u8> {
    s.map_values(|l: Letter| l.0)
}

} // verus!

verus! {

/// The terminal colours that the analyser draws letters in.
#[derive(Clone, Copy, PartialEq, Eq, Structural, Debug)]
pub enum Color {
    Black,
    Red,
    Green,
    Yellow,
    Blue,
    Magenta,
    White,
}

} // verus!

verus! {

/// The characters of `letters`, each as `Letter::char` gives it.
pub open spec fn letters_text(letters: Seq<Letter>) -> Seq<char> {
    letters.map_values(|l: Letter| letter_char(l.0))
}

/// The text a value is shown as when debugging.
pub trait DebugString {
    /// The text.
    spec fn debug_text(&self) -> Seq<char>;

    fn debug_string(&self) -> (r: String)
        ensures
            r@ == self.debug_text(),
    ;
}

impl DebugString for Letter {
    open spec fn debug_text(&self) -> Seq<char> {
        seq![letter_char(self.0)]
    }

    fn debug_string(&self) -> (r: String) {
        self.to_string()
    }
}

/// Writes the characters of `letters` to `out`.
pub fn fmt_letters(letters: &[Letter], out: &mut String)
    ensures
        final(out)@ == old(out)@ + letters_text(letters@),
{
    let mut i: usize = 0;
    while i < letters.len()
        invariant
            i <= letters@.len(),
            out@ == old(out)@ + letters_text(letters@.take(i as int)),
        decreases letters@.len() - i,
    {
        let c = letters[i].char();
        push_char(out, c);
        assert(letters@.take(i + 1) == letters@.take(i as int).push(letters@[i as int]));
        assert(letters_text(letters@.take(i + 1)) =~= letters_text(letters@.take(i as int)).push(c));
        i += 1;
    }
    assert(letters@.take(letters@.len() as int) == letters@);
}

/// The characters of `letters` as a string.
pub fn letters_to_string(letters: &[Letter]) -> (r: String)
    ensures
        r@ == letters_text(letters@),
{
    let mut s = String::new();
    fmt_letters(letters, &mut s);
    s
}

} // verus!

verus! {

/// The code of the foreground colour in an ANSI escape sequence.
pub open spec fn fg_code(c: Color) -> Seq<char> {
    match c {
        Color::Black => seq!['3', '0'],
        Color::Red => seq!['3', '1'],
        Color::Green => seq!['3', '2'],
        Color::Yellow => seq!['3', '3'],
        Color::Blue => seq!['3', '4'],
        Color::Magenta => seq!['3', '5'],
        Color::White => seq!['3', '7'],
    }
}

/// The code of the background colour in an ANSI escape sequence.
pub open spec fn bg_code(c: Color) -> Seq<char> {
    match c {
        Color::Black => seq!['4', '0'],
        Color::Red => seq!['4', '1'],
        Color::Green => seq!['4', '2'],
        Color::Yellow => seq!['4', '3'],
        Color::Blue => seq!['4', '4'],
        Color::Magenta => seq!['4', '5'],
        Color::White => seq!['4', '7'],
    }
}

/// The escape sequence that selects the graphic rendition `codes`.
pub open spec fn escape(codes: Seq<char>) -> Seq<char> {
    seq!['\u{1b}', '['] + codes + seq!['m']
}

/// The escape sequence that resets the graphic rendition.
pub open spec fn reset_code() -> Seq<char> {
    seq!['\u{1b}', '[', '0', 'm']
}

/// `text` in the foreground colour `c`.
pub open spec fn with_fg(text: Seq<char>, c: Color) -> Seq<char> {
    escape(fg_code(c)) + text + reset_code()
}

/// `text` in black on the background colour `c`.
pub open spec fn with_bg(text: Seq<char>, c: Color) -> Seq<char> {
    escape(bg_code(c) + seq![';'] + fg_code(Color::Black)) + text + reset_code()
}

/// `r` is `text` in the foreground colour `c`, or, with colouring off,
/// `text` itself.
pub open spec fn shown_fg(r: Seq<char>, text: Seq<char>, c: Color) -> bool {
    r == text || r == with_fg(text, c)
}

/// `r` is `text` in black on the background colour `c`, or, with colouring
/// off, `text` itself.
pub open spec fn shown_bg(r: Seq<char>, text: Seq<char>, c: Color) -> bool {
    r == text || r == with_bg(text, c)
}

/// The text holds no escape character.
pub open spec fn plain(text: Seq<char>) -> bool {
    !text.contains('\u{1b}')
}

/// Trusted: colored's `Colorize::color` on the text, then `ToString::to_string`.
/// colored's source writes the text unchanged when colouring is off (which it
/// decides from the environment, whether standard output is a terminal, and
/// any override), and otherwise the escape sequence of the foreground colour,
/// the text and the reset sequence; for text with no escape character in it
/// the text is written as it is. Whether colouring is on is not stated.
#[verifier::external_body]
fn paint_fg(text: &str, color: Color) -> (r: String)
    ensures
        plain(text@) ==> shown_fg(r@, text@, color),
{
    let c = match color {
        Color::Black => colored::Color::Black,
        Color::Red => colored::Color::Red,
        Color::Green => colored::Color::Green,
        Color::Yellow => colored::Color::Yellow,
        Color::Blue => colored::Color::Blue,
        Color::Magenta => colored::Color::Magenta,
        Color::White => colored::Color::White,
    };
    text.color(c).to_string()
}

/// Trusted: colored's `Colorize::on_color` on the text, then `color` with
/// black, then `ToString::to_string`. As for `paint_fg`, colored's source
/// writes the text unchanged when colouring is off, and otherwise one escape
/// sequence with the background code, a `;` and the code of a black
/// foreground, then the text and the reset sequence. Whether colouring is on
/// is not stated.
#[verifier::external_body]
fn paint_bg(text: &str, color: Color) -> (r: String)
    ensures
        plain(text@) ==> shown_bg(r@, text@, color),
{
    let c = match color {
        Color::Black => colored::Color::Black,
        Color::Red => colored::Color::Red,
        Color::Green => colored::Color::Green,
        Color::Yellow => colored::Color::Yellow,
        Color::Blue => colored::Color::Blue,
        Color::Magenta => colored::Color::Magenta,
        Color::White => colored::Color::White,
    };
    text.on_color(c).color(colored::Color::Black).to_string()
}

/// Letters never write an escape character.
pub proof fn lemma_letters_plain(letters: Seq<Letter>)
    ensures
        plain(letters_text(letters)),
{
    assert forall|k: int| 0 <= k < letters_text(letters).len() implies letters_text(letters)[k] != '\u{1b}' by {
        let x = letters[k].0;
        if x < 26 {
            assert(((x + 65) as char) as u32 == x + 65);
        }
    }
}

/// The letters in the foreground colour `color`.
pub fn letters_with_fg(letters: &[Letter], color: Color) -> (r: String)
    ensures
        shown_fg(r@, letters_text(letters@), color),
{
    let text = letters_to_string(letters);
    proof {
        lemma_letters_plain(letters@);
    }
    paint_fg(text.as_str(), color)
}

/// The letters in black on the background colour `color`.
pub fn letters_with_bg(letters: &[Letter], color: Color) -> (r: String)
    ensures
        shown_bg(r@, letters_text(letters@), color),
{
    let text = letters_to_string(letters);
    proof {
        lemma_letters_plain(letters@);
    }
    paint_bg(text.as_str(), color)
}

/// The letter in the foreground colour `color`.
pub fn letter_with_fg(letter: Letter, color: Color) -> (r: String)
    ensures
        shown_fg(r@, seq![letter_char(letter.0)], color),
{
    let text = letter.to_string();
    proof {
        lemma_letters_plain(seq![letter]);
        assert(letters_text(seq![letter]) =~= seq![letter_char(letter.0)]);
    }
    paint_fg(text.as_str(), color)
}

/// The letter in black on the background colour `color`.
pub fn letter_with_bg(letter: Letter, color: Color) -> (r: String)
    ensures
        shown_bg(r@, seq![letter_char(letter.0)], color),
{
    let text = letter.to_string();
    proof {
        lemma_letters_plain(seq![letter]);
        assert(letters_text(seq![letter]) =~= seq![letter_char(letter.0)]);
    }
    paint_bg(text.as_str(), color)
}

} // verus!
