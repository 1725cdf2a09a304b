//! A set of letters held as the bits of an integer.

use vstd::prelude::*;

use crate::bits::{
    bit32, lemma_bit32_reset, lemma_bit32_set, lemma_bit32_test, lemma_bit32_zero, u32_bit_any,
    u32_bit_reset, u32_bit_set, u32_bit_test,
};
use crate::letter::{letters_text, letters_to_string, DebugString, Letter};

verus! {

/// The letter indices whose bits are set in `bits`.
pub open spec fn bit_letters(bits: u32) -> Set<u8> {
    Set::new(|i: u8| i < 32 && bit32(bits, i as u32))
}

#[derive(Clone, Copy, PartialEq, Eq, Structural, Debug)]
pub struct LetterSet {
    bits: u32,
}

impl View for LetterSet {
    type V = Set<u8>;

    /// The indices of the letters in the set.
    closed spec fn view(&self) -> Set<u8> {
        bit_letters(self.bits)
    }
}

impl LetterSet {
    pub fn new() -> (r: LetterSet)
        ensures
            r@ == Set::<u8>::empty(),
    {
        let r = LetterSet { bits: 0 };
        proof {
            assert forall|i: u8| !r@.contains(i) by {
                lemma_bit32_zero(i as u32);
            }
            assert(r@ =~= Set::<u8>::empty());
        }
        r
    }

    pub fn insert(&mut self, letter: Letter)
        requires
            letter.0 < 32,
        ensures
            final(self)@ == old(self)@.insert(letter.0),
    {
        let ghost old_bits = self.bits;
        u32_bit_set(&mut self.bits, letter.index() as usize);
        proof {
            assert forall|i: u8| i < 32 implies #[trigger] bit32(self.bits, i as u32) == (i == letter.0 || bit32(old_bits, i as u32)) by {
                lemma_bit32_set(old_bits, letter.0 as u32, i as u32);
            }
            assert(self@ =~= old(self)@.insert(letter.0));
        }
    }

    pub fn contains(self, letter: Letter) -> (r: bool)
        requires
            letter.0 < 32,
        ensures
            r == self@.contains(letter.0),
    {
        proof {
            lemma_bit32_test(self.bits, letter.0 as u32);
        }
        u32_bit_test(self.bits, letter.index() as usize)
    }

    pub fn into_iter(self) -> (r: Iter)
        ensures
            r@ == self@,
    {
        Iter { bits: self.bits }
    }

    /// The letters of the set, in alphabetical order.
    pub fn letters(self) -> (r: Vec<Letter>)
        ensures
            r@ == set_letters(self@, 32),
    {
        let mut it = self.into_iter();
        let mut r: Vec<Letter> = Vec::new();
        let ghost mut lo: int = 0;
        proof {
            assert(it@ =~= Set::new(|i: u8| self@.contains(i) && lo <= i));
        }
        while it.has_next()
            invariant
                0 <= lo <= 32,
                forall|i: u8| self@.contains(i) ==> i < 32,
                it@ == Set::new(|i: u8| self@.contains(i) && lo <= i),
                r@ == set_letters(self@, lo),
            decreases it.rank(),
        {
            let ghost remaining = it@;
            match it.next() {
                Some(l) => {
                    proof {
                        assert forall|i: u8| lo <= i < l.0 implies !self@.contains(i) by {
                            if self@.contains(i) {
                                assert(remaining.contains(i));
                            }
                        }
                        lemma_set_letters_gap(self@, lo, l.0 as int);
                        assert(set_letters(self@, l.0 + 1) == set_letters(self@, l.0 as int) + seq![Letter(l.0)]);
                        lo = l.0 + 1;
                        assert(it@ =~= Set::new(|i: u8| self@.contains(i) && lo <= i));
                    }
                    r.push(l);
                },
                None => {
                    proof { assert(false); }
                },
            }
        }
        proof {
            assert forall|i: u8| lo <= i < 32 implies !self@.contains(i) by {
                if self@.contains(i) {
                    assert(it@.contains(i));
                }
            }
            lemma_set_letters_gap(self@, lo, 32);
        }
        r
    }
}

/// The letters of `s` below `n`, in alphabetical order.
pub open spec fn set_letters(s: Set<u8>, n: int) -> Seq<Letter>
    decreases n,
{
    if n <= 0 {
        Seq::empty()
    } else {
        set_letters(s, n - 1) + if s.contains((n - 1) as u8) {
            seq![Letter((n - 1) as u8)]
        } else {
            Seq::empty()
        }
    }
}

/// Without elements in `[m, n)`, the letters below `n` are those below `m`.
pub proof fn lemma_set_letters_gap(s: Set<u8>, m: int, n: int)
    requires
        0 <= m <= n <= 256,
        forall|i: u8| m <= i < n ==> !s.contains(i),
    ensures
        set_letters(s, n) == set_letters(s, m),
    decreases n,
{
    if n > m {
        lemma_set_letters_gap(s, m, n - 1);
    }
}

/// The letters of a `LetterSet`, from the first in the alphabet on.
pub struct Iter {
    bits: u32,
}

impl View for Iter {
    type V = Set<u8>;

    /// The indices of the letters not yet visited.
    closed spec fn view(&self) -> Set<u8> {
        bit_letters(self.bits)
    }
}

impl Iter {
    /// A measure that every step of the walk decreases.
    pub closed spec fn rank(&self) -> nat {
        self.bits as nat
    }

    /// Whether a letter remains.
    pub fn has_next(&self) -> (r: bool)
        ensures
            r == (self@ != Set::<u8>::empty()),
    {
        let r = u32_bit_any(self.bits);
        proof {
            if r {
                let t = self.bits.trailing_zeros();
                vstd::std_specs::bits::axiom_u32_trailing_zeros(self.bits);
                assert(self@.contains(t as u8));
            } else {
                assert forall|i: u8| !self@.contains(i) by {
                    lemma_bit32_zero(i as u32);
                }
                assert(self@ =~= Set::<u8>::empty());
            }
        }
        r
    }

    /// The first remaining letter in the alphabet, which it then leaves out.
    pub fn next(&mut self) -> (r: Option<Letter>)
        ensures
            old(self)@ == Set::<u8>::empty() ==> r is None && final(self)@ == old(self)@,
            old(self)@ != Set::<u8>::empty() ==> (r matches Some(l) && old(self)@.contains(l.0)
                && (forall|i: u8| old(self)@.contains(i) ==> l.0 <= i) && final(self)@ == old(self)@.remove(l.0)
                && final(self).rank() < old(self).rank()),
    {
        let ghost old_bits = self.bits;
        if u32_bit_any(self.bits) {
            let index = self.bits.trailing_zeros();
            proof {
                vstd::std_specs::bits::axiom_u32_trailing_zeros(old_bits);
                assert forall|i: u8| old(self)@.contains(i) implies index <= i by {
                    if (i as u32) < index {
                        assert(!bit32(old_bits, i as u32));
                    }
                }
            }
            u32_bit_reset(&mut self.bits, index as usize);
            proof {
                let ob = old_bits;
                assert(ob & !(1u32 << index) < ob) by (bit_vector)
                    requires
                        index < 32,
                        (ob >> index) & 1u32 == 1u32,
                ;
                assert forall|i: u8| i < 32 implies #[trigger] bit32(self.bits, i as u32) == (i != index && bit32(old_bits, i as u32)) by {
                    lemma_bit32_reset(old_bits, index, i as u32);
                }
                assert(self@ =~= old(self)@.remove(index as u8));
            }
            Some(Letter::from_index(index as u8))
        } else {
            proof {
                assert forall|i: u8| !old(self)@.contains(i) by {
                    lemma_bit32_zero(i as u32);
                }
                assert(old(self)@ =~= Set::<u8>::empty());
            }
            None
        }
    }
}

impl DebugString for LetterSet {
    open spec fn debug_text(&self) -> Seq<char> {
        letters_text(set_letters(self@, 32))
    }

    /// The letters of the set in alphabetical order.
    fn debug_string(&self) -> (r: String) {
        let v = self.letters();
        letters_to_string(v.as_slice())
    }
}

} // verus!
