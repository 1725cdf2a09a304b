//! Short constructors for letters, words and the structures built on them,
//! from text.

use vstd::prelude::*;
use vstd::string::{StrSliceExecFns, StringSliceAdditionalSpecFns};

use crate::alphagram::Alphagram;
use crate::colored_guess::{color_guess, slot_color, ColoredGuess};
use crate::counting::{count, lemma_count_push};
use crate::letter::{char_index, DebugString, Letter};
use crate::letter_set::LetterSet;
use crate::possibilities::PossibleAnswer;
use crate::word::{byte_index, spells_word, Word};

verus! {

/// Every character is a capital letter.
pub open spec fn capitals(s: Seq<char>) -> bool {
    forall|i: int| 0 <= i < s.len() ==> 'A' <= #[trigger] s[i] && s[i] <= 'Z'
}

/// The letter indices of the characters.
pub open spec fn char_indices(s: Seq<char>) -> Seq<u8> {
    s.map_values(|c: char| char_index(c))
}

/// The letter indices of the bytes of a word.
pub open spec fn word_indices(bytes: Seq<u8>) -> Seq<u8> {
    Seq::new(5, |i: int| byte_index(bytes[i]))
}

/// The character at `k` comes after the one before it (after `'\0'` for
/// the first).
pub open spec fn ascending_at(s: Seq<char>, k: int) -> bool {
    (if k == 0 {
        '\0'
    } else {
        s[k - 1]
    }) < s[k]
}

/// The characters are in strictly increasing order, none of them `'\0'`.
pub open spec fn strictly_ascending(s: Seq<char>) -> bool {
    forall|k: int| 0 <= k < s.len() ==> #[trigger] ascending_at(s, k)
}

/// Whether the characters are in strictly increasing order, none of them
/// `'\0'`.
pub fn is_sorted_and_unique(s: &str) -> (r: bool)
    ensures
        r == strictly_ascending(s@),
{
    let n = s.unicode_len();
    let mut previous = '\0';
    let mut i: usize = 0;
    while i < n
        invariant
            n == s@.len(),
            i <= n,
            previous == if i == 0 {
                '\0'
            } else {
                s@[i - 1]
            },
            forall|k: int| 0 <= k < i ==> #[trigger] ascending_at(s@, k),
        decreases n - i,
    {
        let c = s.get_char(i);
        if c <= previous {
            assert(!ascending_at(s@, i as int));
            return false;
        }
        previous = c;
        i += 1;
    }
    true
}

/// The letter for a capital.
pub fn l(c: char) -> (r: Letter)
    requires
        'A' <= c && c <= 'Z',
    ensures
        r.0 == char_index(c),
        r.valid(),
{
    Letter::from_char(c)
}

/// The letters for a string of capitals.
pub fn ls(s: &str) -> (r: Vec<Letter>)
    requires
        capitals(s@),
    ensures
        r@.len() == s@.len(),
        forall|i: int| 0 <= i < s@.len() ==> (#[trigger] r@[i]).0 == char_index(s@[i]),
{
    let n = s.unicode_len();
    let mut r: Vec<Letter> = Vec::new();
    let mut i: usize = 0;
    while i < n
        invariant
            n == s@.len(),
            i <= n,
            capitals(s@),
            r@.len() == i,
            forall|k: int| 0 <= k < i ==> (#[trigger] r@[k]).0 == char_index(s@[k]),
        decreases n - i,
    {
        let c = s.get_char(i);
        r.push(l(c));
        i += 1;
    }
    r
}

/// The word spelled by `s`.
pub fn w(s: &str) -> (r: Word)
    requires
        spells_word(s.spec_bytes()),
    ensures
        r.valid(),
        forall|i: int| 0 <= i < 5 ==> (#[trigger] r.letters[i]).0 == byte_index(s.spec_bytes()[i]),
{
    Word::expect_from_str(s)
}

/// Up to five capitals as letters, padded with "no letter".
pub fn ar(s: &str) -> (r: [Letter; 5])
    requires
        s.spec_bytes().len() <= 5,
        forall|i: int| 0 <= i < s.spec_bytes().len() ==> 65 <= #[trigger] s.spec_bytes()[i] <= 90,
    ensures
        forall|i: int| 0 <= i < s.spec_bytes().len() ==> (#[trigger] r[i]).0 == s.spec_bytes()[i] - 65,
        forall|i: int| s.spec_bytes().len() <= i < 5 ==> (#[trigger] r[i]).0 == 255,
{
    let bytes = s.as_bytes();
    let mut ar = [Letter::no_letter();5];
    let mut i: usize = 0;
    while i < bytes.len()
        invariant
            bytes@ == s.spec_bytes(),
            bytes@.len() <= 5,
            i <= bytes@.len(),
            forall|k: int| 0 <= k < bytes@.len() ==> 65 <= #[trigger] bytes@[k] <= 90,
            forall|k: int| 0 <= k < i ==> (#[trigger] ar[k]).0 == bytes@[k] - 65,
            forall|k: int| i <= k < 5 ==> (#[trigger] ar[k]).0 == 255,
        decreases bytes@.len() - i,
    {
        let b = bytes[i];
        ar[i] = l(b as char);
        i += 1;
    }
    ar
}

/// The set of the letters of a string of capitals in strictly increasing
/// order.
pub fn lset(s: &str) -> (r: LetterSet)
    requires
        capitals(s@),
        strictly_ascending(s@),
    ensures
        r@ == char_indices(s@).to_set(),
{
    let n = s.unicode_len();
    let mut result = LetterSet::new();
    let mut i: usize = 0;
    while i < n
        invariant
            n == s@.len(),
            i <= n,
            capitals(s@),
            result@ == char_indices(s@.take(i as int)).to_set(),
        decreases n - i,
    {
        let c = s.get_char(i);
        result.insert(l(c));
        proof {
            assert(char_indices(s@.take(i + 1)) =~= char_indices(s@.take(i as int)).push(char_index(c)));
            assert(char_indices(s@.take(i as int)).push(char_index(c)).to_set() =~= char_indices(s@.take(i as int)).to_set().insert(char_index(c))) by {
                char_indices(s@.take(i as int)).lemma_push_to_set_commute(char_index(c));
            }
        }
        i += 1;
    }
    assert(s@.take(n as int) =~= s@);
    result
}

/// The alphagram of up to five capitals.
pub fn a(s: &str) -> (r: Alphagram)
    requires
        capitals(s@),
        s@.len() <= 5,
    ensures
        r.wf(),
        forall|x: u8| x != 255 ==> #[trigger] count(r@, x) == count(char_indices(s@), x),
{
    let n = s.unicode_len();
    let mut result = Alphagram::new();
    let mut i: usize = 0;
    proof {
        assert forall|x: u8| x != 255 implies #[trigger] count(result@, x) == 0 by {
            crate::counting::lemma_count5(result@, x);
        }
        assert(char_indices(s@.take(0)) =~= Seq::<u8>::empty());
    }
    while i < n
        invariant
            n == s@.len(),
            n <= 5,
            i <= n,
            capitals(s@),
            result.wf(),
            result.size() == i,
            forall|x: u8| x != 255 ==> #[trigger] count(result@, x) == count(char_indices(s@.take(i as int)), x),
        decreases n - i,
    {
        let c = s.get_char(i);
        result.insert(l(c));
        proof {
            assert(char_indices(s@.take(i + 1)) =~= char_indices(s@.take(i as int)).push(char_index(c)));
            assert forall|x: u8| x != 255 implies #[trigger] count(result@, x) == count(char_indices(s@.take(i + 1)), x) by {
                lemma_count_push(char_indices(s@.take(i as int)), char_index(c), x);
            }
        }
        i += 1;
    }
    assert(s@.take(n as int) =~= s@);
    result
}

/// The colouring of one word against another.
pub fn g(word: &str, answer: &str) -> (r: ColoredGuess)
    requires
        spells_word(word.spec_bytes()),
        spells_word(answer.spec_bytes()),
    ensures
        r@.len() == 5,
        forall|i: int| 0 <= i < 5 ==> (#[trigger] r@[i]).0.0 == byte_index(word.spec_bytes()[i]),
        forall|i: int| 0 <= i < 5 ==> (#[trigger] r@[i]).1 == slot_color(
            word_indices(word.spec_bytes()),
            word_indices(answer.spec_bytes()),
            i,
        ),
{
    let gw = w(word);
    let aw = w(answer);
    let r = color_guess(gw, aw);
    proof {
        assert(crate::letter::indices(gw.letters@) =~= word_indices(word.spec_bytes()));
        assert(crate::letter::indices(aw.letters@) =~= word_indices(answer.spec_bytes()));
    }
    r
}

/// The possible answer spelled by `s`.
pub fn p(s: &str) -> (r: PossibleAnswer)
    requires
        spells_word(s.spec_bytes()),
    ensures
        r.wf(),
        r.word.valid(),
        forall|i: int| 0 <= i < 5 ==> (#[trigger] r.word.letters[i]).0 == byte_index(s.spec_bytes()[i]),
{
    PossibleAnswer::from_word(w(s))
}

/// The debugging text of `v`.
pub fn dbg<T: DebugString>(v: T) -> (r: String)
    ensures
        r@ == v.debug_text(),
{
    v.debug_string()
}

} // verus!
