//! A five-letter word.

use vstd::prelude::*;
use vstd::string::StringSliceAdditionalSpecFns;

use crate::letter::{char_index, letters_text, letters_to_string, DebugString, Letter};

verus! {

/// The letter index that `Letter::from_char` gives for the character with
/// code `b`.
pub open spec fn byte_index(b: u8) -> u8 {
    if 65 <= b && b <= 90 {
        (b - 65) as u8
    } else if 97 <= b && b <= 122 {
        (b - 97) as u8
    } else {
        255u8
    }
}

/// Whether the bytes spell a word: exactly five ASCII letters of either case.
pub open spec fn spells_word(bytes: Seq<u8>) -> bool {
    &&& bytes.len() == 5
    &&& forall|i: int| 0 <= i < 5 ==> byte_index(#[trigger] bytes[i]) < 26
}

#[derive(Clone, Copy, Debug, PartialOrd, Ord, Hash)]
pub struct Word {
    pub letters: [Letter; 5],
}

impl PartialEq for Word {
    fn eq(&self, other: &Self) -> (r: bool) {
        let mut i: usize = 0;
        while i < 5
            invariant
                i <= 5,
                forall|k: int| 0 <= k < i ==> self.letters[k] == other.letters[k],
            decreases 5 - i,
        {
            if self.letters[i] != other.letters[i] {
                return false;
            }
            i += 1;
        }
        assert(self.letters@ =~= other.letters@);
        true
    }
}

impl vstd::std_specs::cmp::PartialEqSpecImpl for Word {
    open spec fn obeys_eq_spec() -> bool {
        true
    }

    open spec fn eq_spec(&self, other: &Self) -> bool {
        self.letters@ == other.letters@
    }
}

impl Eq for Word {
}

impl Word {
    pub const LENGTH: usize = 5;

    /// Every letter of the word is a letter of the alphabet.
    pub open spec fn valid(self) -> bool {
        forall|i: int| 0 <= i < 5 ==> (#[trigger] self.letters[i]).valid()
    }

    /// Parses five ASCII letters of either case.
    pub fn from_str(s: &str) -> (r: Option<Word>)
        ensures
            r is Some <==> spells_word(s.spec_bytes()),
            r matches Some(w) ==> w.valid() && forall|i: int|
                0 <= i < 5 ==> (#[trigger] w.letters[i]).0 == byte_index(s.spec_bytes()[i]),
    {
        Word::from_bytes(s.as_bytes())
    }

    /// Parses five ASCII codes of letters of either case.
    pub fn from_bytes(bytes: &[u8]) -> (r: Option<Word>)
        ensures
            r is Some <==> spells_word(bytes@),
            r matches Some(w) ==> w.valid() && forall|i: int|
                0 <= i < 5 ==> (#[trigger] w.letters[i]).0 == byte_index(bytes@[i]),
    {
        if bytes.len() != 5 {
            return None;
        }
        let mut letters = [Letter::no_letter();5];
        let mut i: usize = 0;
        while i < 5
            invariant
                bytes@.len() == 5,
                i <= 5,
                forall|k: int| 0 <= k < i ==> byte_index(#[trigger] bytes@[k]) < 26,
                forall|k: int| 0 <= k < i ==> (#[trigger] letters[k]).0 == byte_index(bytes@[k]),
            decreases 5 - i,
        {
            letters[i] = Letter::from_char(bytes[i] as char);
            assert(char_index(bytes@[i as int] as char) == byte_index(bytes@[i as int]));
            if !letters[i].is_valid() {
                return None;
            }
            i += 1;
        }
        Some(Word { letters })
    }

    /// Like `from_str`, for text that is known to spell a word.
    pub fn expect_from_str(s: &str) -> (r: Word)
        requires
            spells_word(s.spec_bytes()),
        ensures
            r.valid(),
            forall|i: int| 0 <= i < 5 ==> (#[trigger] r.letters[i]).0 == byte_index(s.spec_bytes()[i]),
    {
        match Word::from_str(s) {
            Some(w) => w,
            None => {
                proof { assert(false); }
                Word { letters: [Letter::no_letter();5] }
            },
        }
    }

    /// The letters of the word, in order.
    pub fn iter(&self) -> (r: &[Letter])
        ensures
            r@ == self.letters@,
    {
        self.letters.as_slice()
    }

    /// The letters of the word, by value.
    pub fn into_iter(self) -> (r: [Letter; 5])
        ensures
            r@ == self.letters@,
    {
        self.letters
    }

    /// The letters of the word, in order, for changing in place.
    pub fn iter_mut(&mut self) -> (r: &mut [Letter; 5])
        ensures
            *r == old(self).letters,
            final(self).letters == *final(r),
    {
        &mut self.letters
    }

    /// The word as text: its letters, in order.
    pub fn to_string(&self) -> (r: String)
        ensures
            r@ == letters_text(self.letters@),
    {
        letters_to_string(self.letters.as_slice())
    }
}

impl DebugString for Word {
    open spec fn debug_text(&self) -> Seq<char> {
        letters_text(self.letters@)
    }

    fn debug_string(&self) -> (r: String) {
        self.to_string()
    }
}

} // verus!
