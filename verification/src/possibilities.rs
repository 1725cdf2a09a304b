//! A possible answer: a word together with its alphagram.

use vstd::prelude::*;
use vstd::string::StringSliceAdditionalSpecFns;

use crate::alphagram::Alphagram;
use crate::counting::count;
use crate::letter::{indices, letters_text, DebugString};
use crate::word::{byte_index, spells_word, Word};

verus! {

#[derive(Clone, Copy, Debug)]
pub struct PossibleAnswer {
    pub word: Word,
    pub alphagram: Alphagram,
}

impl PossibleAnswer {
    /// The alphagram is the word's letters in order.
    pub open spec fn wf(&self) -> bool {
        &&& self.alphagram.wf()
        &&& forall|x: u8| #[trigger] count(self.alphagram@, x) == count(indices(self.word.letters@), x)
    }

    pub fn from_word(word: Word) -> (r: PossibleAnswer)
        ensures
            r.word == word,
            r.wf(),
    {
        PossibleAnswer { word, alphagram: Alphagram::from_word(word) }
    }
}

impl DebugString for PossibleAnswer {
    /// The word's letters.
    open spec fn debug_text(&self) -> Seq<char> {
        letters_text(self.word.letters@)
    }

    fn debug_string(&self) -> (r: String) {
        self.word.to_string()
    }
}

/// ASCII whitespace: space, tab, line feed, form feed and carriage return.
pub open spec fn is_ascii_space(b: u8) -> bool {
    b == 32 || b == 9 || b == 10 || b == 12 || b == 13
}

/// `t` is `s` without its leading and trailing ASCII whitespace.
pub open spec fn trimmed(s: Seq<u8>, t: Seq<u8>) -> bool {
    exists|i: int, j: int|
        #![trigger s.subrange(i, j)]
        0 <= i <= j <= s.len() && t == s.subrange(i, j) && (forall|k: int| 0 <= k < i ==> is_ascii_space(#[trigger] s[k]))
            && (forall|k: int| j <= k < s.len() ==> is_ascii_space(#[trigger] s[k])) && (i < j ==> !is_ascii_space(s[i])
            && !is_ascii_space(s[j - 1]))
}

/// The lines of `s`: the pieces between line feeds.
pub open spec fn lines(s: Seq<u8>) -> Seq<Seq<u8>>
    decreases s.len(),
{
    if s.len() == 0 {
        seq![Seq::empty()]
    } else {
        let l = lines(s.drop_last());
        if s.last() == 10 {
            l.push(Seq::empty())
        } else {
            l.update(l.len() - 1, l.last().push(s.last()))
        }
    }
}

proof fn lemma_lines_len(s: Seq<u8>)
    ensures
        lines(s).len() >= 1,
    decreases s.len(),
{
    if s.len() > 0 {
        lemma_lines_len(s.drop_last());
    }
}

/// The answers of a word list: the text without its leading and trailing
/// ASCII whitespace, one word per line. `None` where a line does not spell a
/// word.
pub fn answers_from_text(text: &str) -> (r: Option<Vec<PossibleAnswer>>)
    ensures
        exists|t: Seq<u8>|
            #[trigger] trimmed(text.spec_bytes(), t) && (r is Some <==> forall|k: int|
                0 <= k < lines(t).len() ==> spells_word(#[trigger] lines(t)[k])) && (r matches Some(answers) ==> answers@.len()
                == lines(t).len() && forall|k: int|
                0 <= k < answers@.len() ==> (#[trigger] answers@[k]).wf() && answers@[k].word.valid() && forall|i: int|
                    0 <= i < 5 ==> (#[trigger] answers@[k].word.letters[i]).0 == byte_index(lines(t)[k][i])),
{
    let bytes = text.as_bytes();
    let n = bytes.len();
    let mut start: usize = 0;
    while start < n && (bytes[start] == 32 || bytes[start] == 9 || bytes[start] == 10 || bytes[start] == 12
        || bytes[start] == 13)
        invariant
            start <= n,
            n == bytes@.len(),
            forall|k: int| 0 <= k < start ==> is_ascii_space(#[trigger] bytes@[k]),
        decreases n - start,
    {
        start += 1;
    }
    let mut end: usize = n;
    while end > start && (bytes[end - 1] == 32 || bytes[end - 1] == 9 || bytes[end - 1] == 10 || bytes[end - 1] == 12
        || bytes[end - 1] == 13)
        invariant
            start <= end <= n,
            n == bytes@.len(),
            forall|k: int| end <= k < n ==> is_ascii_space(#[trigger] bytes@[k]),
        decreases end,
    {
        end -= 1;
    }
    let ghost s = bytes@;
    let ghost t = s.subrange(start as int, end as int);
    proof {
        assert(trimmed(s, t));
    }
    let mut answers: Vec<PossibleAnswer> = Vec::new();
    let mut line: Vec<u8> = Vec::new();
    let mut i: usize = start;
    assert(t.subrange(0, 0) =~= Seq::<u8>::empty());
    while i < end
        invariant
            start <= i <= end <= n,
            n == bytes@.len(),
            s == bytes@,
            s == text.spec_bytes(),
            trimmed(s, t),
            t == s.subrange(start as int, end as int),
            lines(t.subrange(0, i - start)).len() == answers@.len() + 1,
            lines(t.subrange(0, i - start)).last() == line@,
            forall|k: int| 0 <= k < answers@.len() ==> spells_word(#[trigger] lines(t.subrange(0, i - start))[k]),
            forall|k: int|
                0 <= k < answers@.len() ==> (#[trigger] answers@[k]).wf() && answers@[k].word.valid() && forall|j: int|
                    0 <= j < 5 ==> (#[trigger] answers@[k].word.letters[j]).0 == byte_index(
                        lines(t.subrange(0, i - start))[k][j],
                    ),
        decreases end - i,
    {
        let ghost before = t.subrange(0, i - start);
        let ghost after = t.subrange(0, i + 1 - start);
        assert(after.drop_last() =~= before);
        assert(after.last() == bytes@[i as int]);
        proof {
            lemma_lines_len(before);
        }
        if bytes[i] == 10 {
            match Word::from_bytes(line.as_slice()) {
                Some(word) => {
                    answers.push(PossibleAnswer::from_word(word));
                    line = Vec::new();
                    proof {
                        assert(lines(after) == lines(before).push(Seq::empty()));
                        assert forall|k: int| 0 <= k < answers@.len() implies spells_word(#[trigger] lines(after)[k]) by {
                            assert(lines(after)[k] == lines(before)[k]);
                        }
                        assert forall|k: int| 0 <= k < answers@.len() implies (#[trigger] answers@[k]).wf()
                            && answers@[k].word.valid() && forall|j: int|
                            0 <= j < 5 ==> (#[trigger] answers@[k].word.letters[j]).0 == byte_index(lines(after)[k][j]) by {
                            assert(lines(after)[k] == lines(before)[k]);
                        }
                    }
                },
                None => {
                    proof {
                        assert(!spells_word(lines(before).last()));
                        lemma_lines_prefix_bad(t, (i - start) as int);
                        assert(trimmed(text.spec_bytes(), t));
                    }
                    return None;
                },
            }
        } else {
            line.push(bytes[i]);
            proof {
                assert forall|k: int| 0 <= k < answers@.len() implies #[trigger] lines(after)[k] == lines(before)[k] by {}
            }
        }
        i += 1;
    }
    assert(t.subrange(0, end - start) =~= t);
    proof {
        lemma_lines_len(t);
    }
    match Word::from_bytes(line.as_slice()) {
        Some(word) => {
            answers.push(PossibleAnswer::from_word(word));
            proof {
                assert(trimmed(text.spec_bytes(), t));
                assert forall|k: int| 0 <= k < lines(t).len() implies spells_word(#[trigger] lines(t)[k]) by {
                    if k < lines(t).len() - 1 {
                        assert(spells_word(lines(t)[k]));
                    }
                }
            }
            Some(answers)
        },
        None => {
            proof {
                assert(!spells_word(lines(t)[lines(t).len() - 1]));
                assert(trimmed(text.spec_bytes(), t));
            }
            None
        },
    }
}

/// A line that does not spell a word stays one among the lines of any longer
/// text.
proof fn lemma_lines_prefix_bad(t: Seq<u8>, m: int)
    requires
        0 <= m < t.len(),
        t[m] == 10,
        !spells_word(lines(t.subrange(0, m)).last()),
    ensures
        exists|k: int| 0 <= k < lines(t).len() && !spells_word(#[trigger] lines(t)[k]),
{
    lemma_lines_len(t.subrange(0, m));
    let k = lines(t.subrange(0, m)).len() - 1;
    assert(t.subrange(0, m + 1).drop_last() =~= t.subrange(0, m));
    assert(t.subrange(0, m + 1).last() == 10);
    assert(lines(t.subrange(0, m + 1)) == lines(t.subrange(0, m)).push(Seq::empty()));
    assert(lines(t.subrange(0, m + 1))[k] == lines(t.subrange(0, m))[k]);
    lemma_lines_keep(t, m + 1, k);
    assert(t.subrange(0, t.len() as int) =~= t);
    assert(!spells_word(lines(t)[k]));
}

/// The lines before the last of a prefix are lines of the whole text.
proof fn lemma_lines_keep(t: Seq<u8>, m: int, k: int)
    requires
        0 <= m <= t.len(),
        0 <= k < lines(t.subrange(0, m)).len() - 1,
    ensures
        k < lines(t.subrange(0, t.len() as int)).len() - 1,
        lines(t.subrange(0, t.len() as int))[k] == lines(t.subrange(0, m))[k],
    decreases t.len() - m,
{
    if m < t.len() {
        let a = t.subrange(0, m);
        let b = t.subrange(0, m + 1);
        assert(b.drop_last() =~= a);
        lemma_lines_len(a);
        lemma_lines_keep(t, m + 1, k);
    }
}

} // verus!
