//! Letter sets and alphagrams over the ASCII capitals `A` to `Z`, where an
//! alphagram marks a slot that holds no letter with `_`, which sorts after
//! every capital.

use vstd::prelude::*;

use crate::alphagram::{max_count, smallest_of_max_union};
use crate::bits::{bit32, lemma_bit32_set, lemma_bit32_test, lemma_bit32_zero};
use crate::counting::{
    count, ind, lemma_count5, lemma_count_absent, lemma_count_contains, lemma_count_sorted_before,
    lemma_count_sorted_remaining, lemma_count_split, lemma_count_take_le, lemma_count_take_succ,
    sorted,
};

verus! {

/// The code of the first capital, `A`.
pub const FIRST_LETTER: u8 = 65u8;

/// The code of the last capital, `Z`.
pub const LAST_LETTER: u8 = 90u8;

/// The code that marks an alphagram slot holding no letter, `_`; it is larger
/// than the code of every capital.
pub const NO_DATA: u8 = 95u8;

/// `c` is the code of a capital letter.
pub open spec fn is_capital(c: u8) -> bool {
    FIRST_LETTER <= c <= LAST_LETTER
}

/// The capitals whose bits are set in `bits`, bit 0 standing for `A`.
pub open spec fn capitals_of(bits: u32) -> Set<u8> {
    Set::new(|c: u8| FIRST_LETTER <= c < FIRST_LETTER + 32 && bit32(bits, (c - FIRST_LETTER) as u32))
}

/// The members of `s` among the first `n` capitals, in alphabetical order.
pub open spec fn members(s: Set<u8>, n: int) -> Seq<u8>
    decreases n,
{
    if n <= 0 {
        Seq::empty()
    } else {
        members(s, n - 1) + if s.contains((FIRST_LETTER + n - 1) as u8) {
            seq![(FIRST_LETTER + n - 1) as u8]
        } else {
            Seq::empty()
        }
    }
}

/// A set of capital letters held as the bits of an integer.
#[derive(Clone, Copy, Debug)]
pub struct LetterSet {
    bits: u32,
}

impl View for LetterSet {
    type V = Set<u8>;

    /// The codes of the letters in the set.
    closed spec fn view(&self) -> Set<u8> {
        capitals_of(self.bits)
    }
}

impl LetterSet {
    pub fn new() -> (r: LetterSet)
        ensures
            r@ == Set::<u8>::empty(),
    {
        let r = LetterSet { bits: 0 };
        proof {
            assert forall|c: u8| !r@.contains(c) by {
                lemma_bit32_zero((c - FIRST_LETTER) as u32);
            }
            assert(r@ =~= Set::<u8>::empty());
        }
        r
    }

    /// Adds the letter with code `letter`, which must be within 32 of `A`.
    pub fn insert(&mut self, letter: u8)
        requires
            FIRST_LETTER <= letter < FIRST_LETTER + 32,
        ensures
            final(self)@ == old(self)@.insert(letter),
    {
        let ghost old_bits = self.bits;
        let shift: u32 = (letter - FIRST_LETTER) as u32;
        self.bits = self.bits | (1u32 << shift);
        proof {
            assert forall|c: u8| FIRST_LETTER <= c < FIRST_LETTER + 32 implies #[trigger] bit32(
                self.bits,
                (c - FIRST_LETTER) as u32,
            ) == (c == letter || bit32(old_bits, (c - FIRST_LETTER) as u32)) by {
                lemma_bit32_set(old_bits, shift, (c - FIRST_LETTER) as u32);
            }
            assert(self@ =~= old(self)@.insert(letter));
        }
    }

    /// Whether the set holds the letter with code `letter`, which must be
    /// within 32 of `A`.
    pub fn contains(self, letter: u8) -> (r: bool)
        requires
            FIRST_LETTER <= letter < FIRST_LETTER + 32,
        ensures
            r == self@.contains(letter),
    {
        let shift: u32 = (letter - FIRST_LETTER) as u32;
        proof {
            lemma_bit32_test(self.bits, shift);
        }
        self.bits & (1u32 << shift) != 0
    }

    /// The capitals of the set, in alphabetical order.
    pub fn letters(self) -> (r: Vec<u8>)
        ensures
            r@ == members(self@, 26),
    {
        let mut r: Vec<u8> = Vec::new();
        let mut c: u8 = FIRST_LETTER;
        while c <= LAST_LETTER
            invariant
                FIRST_LETTER <= c <= LAST_LETTER + 1,
                r@ == members(self@, c - FIRST_LETTER),
            decreases LAST_LETTER + 1 - c,
        {
            if self.contains(c) {
                r.push(c);
            }
            proof {
                assert(members(self@, c + 1 - FIRST_LETTER) == members(self@, c - FIRST_LETTER) + if self@.contains(c) {
                    seq![c]
                } else {
                    Seq::empty()
                });
            }
            c += 1;
        }
        r
    }
}

/// `c` may stand in an alphagram slot: a capital, or `_`.
pub open spec fn valid_slot(c: u8) -> bool {
    is_capital(c) || c == NO_DATA
}

/// The larger of two codes.
pub open spec fn max_code(a: u8, b: u8) -> u8 {
    if a >= b {
        a
    } else {
        b
    }
}

/// The letters of a word, sorted, in five slots; `_` fills the slots after
/// the last letter.
#[derive(Clone, Copy, Debug)]
pub struct Alphagram {
    slots: [u8; 5],
}

impl View for Alphagram {
    type V = Seq<u8>;

    /// The five slots, in order.
    closed spec fn view(&self) -> Seq<u8> {
        self.slots@
    }
}

impl Alphagram {
    /// Five slots in alphabetical order, each a capital or `_`.
    pub open spec fn wf(&self) -> bool {
        &&& self@.len() == 5
        &&& sorted(self@)
        &&& forall|k: int| 0 <= k < 5 ==> valid_slot(#[trigger] self@[k])
    }

    proof fn lemma_view(&self)
        ensures
            self@.len() == 5,
            forall|i: int| 0 <= i < 5 ==> self@[i] == #[trigger] self.slots[i],
    {
    }

    /// No letters: every slot holds `_`.
    pub fn new() -> (r: Alphagram)
        ensures
            r.wf(),
            r@ == seq![NO_DATA, NO_DATA, NO_DATA, NO_DATA, NO_DATA],
    {
        let r = Alphagram { slots: [NO_DATA;5] };
        assert(r@ =~= seq![NO_DATA, NO_DATA, NO_DATA, NO_DATA, NO_DATA]);
        r
    }

    /// The letters of a word of five capitals, sorted.
    pub fn from_word(word: [u8; 5]) -> (r: Alphagram)
        requires
            forall|k: int| 0 <= k < 5 ==> is_capital(#[trigger] word[k]),
        ensures
            r.wf(),
            forall|x: u8| #[trigger] count(r@, x) == count(word@, x),
    {
        let mut alphagram = Alphagram::new();
        proof {
            assert forall|x: u8| #[trigger] count(alphagram@, x) == count(word@.take(0), x) + 5 * ind(x == NO_DATA) by {
                lemma_count5(alphagram@, x);
                assert(word@.take(0) =~= Seq::<u8>::empty());
            }
        }
        let mut i: usize = 0;
        while i < 5
            invariant
                i <= 5,
                alphagram.wf(),
                forall|k: int| 0 <= k < 5 ==> is_capital(#[trigger] word[k]),
                forall|x: u8| #[trigger] count(alphagram@, x) == count(word@.take(i as int), x) + (5 - i) * ind(x == NO_DATA),
            decreases 5 - i,
        {
            let letter = word[i];
            proof {
                alphagram.lemma_view();
                lemma_count5(alphagram@, NO_DATA);
                if alphagram@[4] != NO_DATA {
                    assert forall|k: int| 0 <= k < 5 implies alphagram@[k] != NO_DATA by {
                        assert(alphagram@[k] <= alphagram@[4]);
                    }
                    assert(count(word@.take(i as int), NO_DATA) == 0) by {
                        lemma_count_absent(word@.take(i as int), NO_DATA);
                    }
                }
            }
            let ghost before = alphagram@;
            alphagram.add_letter(letter);
            proof {
                assert(max_code(before[4], letter) == NO_DATA);
                assert forall|x: u8| #[trigger] count(alphagram@, x) == count(word@.take(i + 1), x) + (5 - (i + 1)) * ind(x == NO_DATA) by {
                    lemma_count_take_succ(word@, i as int, x);
                }
            }
            i += 1;
        }
        assert(word@.take(5) =~= word@);
        alphagram
    }

    /// Adds a letter in alphabetical order; of the six codes, the largest no
    /// longer fits and is left out.
    pub fn add_letter(&mut self, letter: u8)
        requires
            old(self).wf(),
            valid_slot(letter),
        ensures
            final(self).wf(),
            forall|x: u8| #[trigger] count(final(self)@, x) + ind(x == max_code(old(self)@[4], letter)) == count(old(self)@, x)
                + ind(x == letter),
    {
        proof {
            self.lemma_view();
        }
        let ghost old_s = self@;
        let ghost first = letter;
        let mut letter = letter;
        let mut i: usize = 0;
        assert(self@.take(0) =~= Seq::<u8>::empty());
        assert(old_s.take(0) =~= Seq::<u8>::empty());
        while i < 5
            invariant
                i <= 5,
                old_s.len() == 5,
                sorted(old_s),
                forall|k: int| 0 <= k < 5 ==> valid_slot(#[trigger] old_s[k]),
                valid_slot(first),
                self@.len() == 5,
                forall|k: int| i <= k < 5 ==> self@[k] == old_s[k],
                forall|k: int| 0 <= k < 5 ==> valid_slot(#[trigger] self@[k]),
                forall|k: int, m: int| 0 <= k <= m < i ==> self@[k] <= self@[m],
                forall|k: int| 0 <= k < i ==> self@[k] <= letter,
                forall|k: int, m: int| 0 <= k < i <= m < 5 ==> self@[k] <= old_s[m],
                letter == if i == 0 {
                    first
                } else {
                    max_code(old_s[i - 1], first)
                },
                forall|x: u8| #[trigger] count(self@.take(i as int), x) + ind(letter == x) == count(old_s.take(i as int), x) + ind(
                    first == x,
                ),
            decreases 5 - i,
        {
            let ghost before = self@;
            if letter < self.slots[i] {
                let temp = self.slots[i];
                self.slots[i] = letter;
                letter = temp;
            }
            proof {
                let after = self@;
                assert(forall|k: int| 0 <= k < 5 && k != i ==> after[k] == before[k]);
                assert(after[i as int] <= letter);
                assert(after[i as int] <= old_s[i as int]);
                assert(forall|m: int| i <= m < 5 ==> old_s[i as int] <= old_s[m]);
                if i > 0 {
                    assert(old_s[i - 1] <= old_s[i as int]);
                }
                assert forall|x: u8| #[trigger] count(after.take(i + 1), x) + ind(letter == x) == count(old_s.take(i + 1), x) + ind(
                    first == x,
                ) by {
                    lemma_count_take_succ(after, i as int, x);
                    lemma_count_take_succ(old_s, i as int, x);
                    assert(after.take(i as int) =~= before.take(i as int));
                }
            }
            i += 1;
        }
        proof {
            assert(self@.take(5) =~= self@);
            assert(old_s.take(5) =~= old_s);
        }
    }

    /// Removes the first slot holding `letter`, if any, shifting the later
    /// slots left and filling the last with `_`.
    pub fn remove_letter(&mut self, letter: u8)
        requires
            old(self).wf(),
        ensures
            final(self).wf(),
            count(old(self)@, letter) > 0 ==> forall|x: u8| #[trigger] count(final(self)@, x) == count(old(self)@, x) - ind(
                x == letter,
            ) + ind(x == NO_DATA),
            count(old(self)@, letter) == 0 ==> final(self)@ == old(self)@,
    {
        proof {
            self.lemma_view();
        }
        let ghost old_s = self@;
        let mut i: usize = 0;
        while i < 5
            invariant
                i <= 5,
                old_s == self@,
                old_s == old(self)@,
                old_s.len() == 5,
                sorted(old_s),
                forall|k: int| 0 <= k < 5 ==> valid_slot(#[trigger] old_s[k]),
                forall|k: int| 0 <= k < i ==> old_s[k] != letter,
            decreases 5 - i,
        {
            if self.slots[i] == letter {
                let mut j: usize = i;
                while j < 4
                    invariant
                        i <= j <= 4,
                        old_s.len() == 5,
                        self@.len() == 5,
                        forall|k: int| 0 <= k < i ==> self@[k] == old_s[k],
                        forall|k: int| i <= k < j ==> self@[k] == old_s[k + 1],
                        forall|k: int| j <= k < 5 ==> self@[k] == old_s[k],
                    decreases 4 - j,
                {
                    self.slots[j] = self.slots[j + 1];
                    j += 1;
                }
                self.slots[4] = NO_DATA;
                proof {
                    let removed = old_s.take(i as int) + old_s.skip(i + 1);
                    assert(self@ =~= removed.push(NO_DATA));
                    assert(old_s =~= old_s.take(i as int) + seq![old_s[i as int]] + old_s.skip(i + 1));
                    assert forall|x: u8| #[trigger] count(self@, x) == count(old_s, x) - ind(x == letter) + ind(x == NO_DATA) by {
                        crate::counting::lemma_count_push(removed, NO_DATA, x);
                        crate::counting::lemma_count_concat(old_s.take(i as int), old_s.skip(i + 1), x);
                        crate::counting::lemma_count_concat(old_s.take(i as int), seq![old_s[i as int]], x);
                        crate::counting::lemma_count_concat(old_s.take(i as int) + seq![old_s[i as int]], old_s.skip(i + 1), x);
                        assert(seq![old_s[i as int]] =~= Seq::<u8>::empty().push(old_s[i as int]));
                        crate::counting::lemma_count_push(Seq::<u8>::empty(), old_s[i as int], x);
                    }
                    assert forall|k: int, m: int| 0 <= k <= m < 5 implies #[trigger] self@[k] <= #[trigger] self@[m] by {
                        if m < 4 {
                            if k < i && m >= i {
                                assert(old_s[k] <= old_s[m + 1]);
                            } else if k >= i {
                                assert(old_s[k + 1] <= old_s[m + 1]);
                            }
                        }
                    }
                    assert(old_s[i as int] == letter);
                    lemma_count_contains(old_s, letter);
                }
                return;
            }
            i += 1;
        }
        proof {
            lemma_count_contains(old_s, letter);
        }
    }

    /// The letters, up to the first slot holding `_`.
    pub fn letters(&self) -> (r: Vec<u8>)
        ensures
            r.len() <= 5,
            r@ == self@.take(r.len() as int),
            forall|k: int| 0 <= k < r.len() ==> r[k] != NO_DATA,
            r.len() < 5 ==> self@[r.len() as int] == NO_DATA,
    {
        let mut r: Vec<u8> = Vec::new();
        let mut i: usize = 0;
        while i < 5
            invariant
                i <= 5,
                r.len() == i,
                r@ == self@.take(i as int),
                self@.len() == 5,
                forall|k: int| 0 <= k < i ==> self@[k] != NO_DATA,
            decreases 5 - i,
        {
            if self.slots[i] == NO_DATA {
                return r;
            }
            r.push(self.slots[i]);
            i += 1;
        }
        r
    }

    /// Whether some slot holds `letter`.
    pub fn contains(self, letter: u8) -> (r: bool)
        ensures
            r == self@.contains(letter),
    {
        let mut i: usize = 0;
        while i < 5
            invariant
                i <= 5,
                self@.len() == 5,
                forall|k: int| 0 <= k < i ==> self@[k] != letter,
            decreases 5 - i,
        {
            if self.slots[i] == letter {
                assert(self@[i as int] == letter);
                return true;
            }
            i += 1;
        }
        false
    }
}

/// Every code of `sub` other than `_` occurs in `sup` at least as often.
pub open spec fn holds_letters_of(sup: Seq<u8>, sub: Seq<u8>) -> bool {
    forall|x: u8| x != NO_DATA ==> #[trigger] count(sub, x) <= #[trigger] count(sup, x)
}

/// A sorted sequence of slots ends in `_` from the first `_` on.
proof fn lemma_no_data_tail(s: Seq<u8>, i: int)
    requires
        sorted(s),
        forall|k: int| 0 <= k < s.len() ==> valid_slot(#[trigger] s[k]),
        0 <= i <= s.len(),
        i == s.len() || s[i] == NO_DATA,
    ensures
        forall|x: u8| x != NO_DATA ==> #[trigger] count(s, x) == count(s.take(i), x),
{
    assert forall|x: u8| x != NO_DATA implies #[trigger] count(s, x) == count(s.take(i), x) by {
        lemma_count_split(s, i, x);
        assert forall|k: int| 0 <= k < s.skip(i).len() implies s.skip(i)[k] != x by {
            assert(s[i] <= s[i + k]);
        }
        lemma_count_absent(s.skip(i), x);
    }
}

impl Alphagram {
    /// Whether `self` holds every letter of `subset` at least as often,
    /// walking both in alphabetical order.
    pub fn contains_other(self, subset: Self) -> (r: bool)
        requires
            self.wf(),
            subset.wf(),
        ensures
            r == holds_letters_of(self@, subset@),
    {
        let ghost a = self@;
        let ghost b = subset@;
        let mut i: usize = 0;
        let mut j: usize = 0;
        assert(a.take(0) =~= Seq::<u8>::empty());
        assert(b.take(0) =~= Seq::<u8>::empty());
        loop
            invariant
                a == self@,
                b == subset@,
                self.wf(),
                subset.wf(),
                i < 5,
                j < 5,
                forall|x: u8| #[trigger] count(b.take(j as int), x) <= count(a.take(i as int), x),
                count(a.take(i as int), b[j as int]) == count(b.take(j as int), b[j as int]),
                forall|k: int| 0 <= k < i ==> a[k] <= b[j as int],
            decreases 5 - i,
        {
            let ghost ii = i as int;
            let ghost jj = j as int;
            let ghost t = b[jj];
            proof {
                lemma_count_take_succ(b, jj, t);
                lemma_count_take_le(b, jj + 1, t);
            }
            if self.slots[i] == subset.slots[j] {
                i += 1;
                j += 1;
                proof {
                    assert forall|x: u8| #[trigger] count(b.take(j as int), x) <= count(a.take(i as int), x) by {
                        lemma_count_take_succ(b, jj, x);
                        lemma_count_take_succ(a, ii, x);
                    }
                    lemma_count_take_succ(a, ii, t);
                    if j < 5 {
                        assert(b[jj] <= b[j as int]);
                        if b[j as int] != t {
                            assert forall|k: int| 0 <= k < j implies #[trigger] b.take(j as int)[k] != b[j as int] by {
                                assert(b[k] <= b[jj]);
                            }
                            lemma_count_absent(b.take(j as int), b[j as int]);
                            assert forall|k: int| 0 <= k < i implies #[trigger] a.take(i as int)[k] != b[j as int] by {
                                assert(a[k] <= t);
                            }
                            lemma_count_absent(a.take(i as int), b[j as int]);
                        }
                    }
                }
            } else if self.slots[i] > subset.slots[j] {
                proof {
                    lemma_count_sorted_before(a, ii, t);
                    assert(t != NO_DATA);
                    assert(count(b, t) > count(a, t));
                }
                return false;
            } else {
                i += 1;
                proof {
                    assert forall|x: u8| #[trigger] count(b.take(jj), x) <= count(a.take(i as int), x) by {
                        lemma_count_take_succ(a, ii, x);
                    }
                    lemma_count_take_succ(a, ii, t);
                }
            }
            if j == 5 || subset.slots[j] == NO_DATA {
                proof {
                    lemma_no_data_tail(b, j as int);
                    assert forall|x: u8| x != NO_DATA implies #[trigger] count(b, x) <= #[trigger] count(a, x) by {
                        lemma_count_take_le(a, i as int, x);
                    }
                }
                return true;
            } else if i == 5 || self.slots[i] == NO_DATA {
                proof {
                    let t2 = b[j as int];
                    lemma_no_data_tail(a, i as int);
                    lemma_count_take_succ(b, j as int, t2);
                    lemma_count_take_le(b, j + 1, t2);
                    assert(count(b, t2) > count(a, t2));
                }
                return false;
            }
        }
    }

    /// Merges `other` in, keeping the higher count of every code; where the
    /// merged codes do not fit, the five smallest are kept.
    pub fn merge_via_max(&mut self, other: Self)
        requires
            old(self).wf(),
            other.wf(),
        ensures
            final(self).wf(),
            smallest_of_max_union(final(self)@, old(self)@, other@),
    {
        let ghost a = self@;
        let ghost b = other@;
        let mut new: [u8; 5] = [NO_DATA;5];
        let mut i: usize = 0;
        let mut j: usize = 0;
        let mut k: usize = 0;
        assert(a.take(0) =~= Seq::<u8>::empty());
        assert(b.take(0) =~= Seq::<u8>::empty());
        assert(new@.take(0) =~= Seq::<u8>::empty());
        while k < 5
            invariant
                a == self@,
                b == other@,
                a == old(self)@,
                self.wf(),
                other.wf(),
                k <= 5,
                i <= k,
                j <= k,
                new@.len() == 5,
                forall|p: int| 0 <= p < 5 ==> valid_slot(#[trigger] new@[p]),
                forall|p: int, q: int| 0 <= p <= q < k ==> new@[p] <= new@[q],
                forall|p: int| 0 <= p < k && i < 5 ==> new@[p] <= a[i as int],
                forall|p: int| 0 <= p < k && j < 5 ==> new@[p] <= b[j as int],
                forall|x: u8| #[trigger] count(new@.take(k as int), x) == max_count(a.take(i as int), b.take(j as int), x),
                forall|x: u8| #[trigger] count(a.take(i as int), x) < count(a, x) ==> count(a.take(i as int), x) >= count(
                    b.take(j as int),
                    x,
                ),
                forall|x: u8| #[trigger] count(b.take(j as int), x) < count(b, x) ==> count(b.take(j as int), x) >= count(
                    a.take(i as int),
                    x,
                ),
            ensures
                k == 5,
            decreases 5 - k,
        {
            let ghost o = new@;
            let ghost ii = i as int;
            let ghost jj = j as int;
            let ghost kk = k as int;
            proof {
                lemma_count_take_succ(a, ii, a[ii]);
                lemma_count_take_le(a, ii + 1, a[ii]);
                lemma_count_take_succ(b, jj, b[jj]);
                lemma_count_take_le(b, jj + 1, b[jj]);
            }
            if self.slots[i] == other.slots[j] {
                new[k] = self.slots[i];
                i += 1;
                j += 1;
                k += 1;
            } else if self.slots[i] > other.slots[j] {
                new[k] = other.slots[j];
                j += 1;
                k += 1;
                proof {
                    lemma_count_sorted_before(a, ii, b[jj]);
                    lemma_count_take_le(a, ii, b[jj]);
                }
            } else {
                new[k] = self.slots[i];
                i += 1;
                k += 1;
                proof {
                    lemma_count_sorted_before(b, jj, a[ii]);
                    lemma_count_take_le(b, jj, a[ii]);
                }
            }
            proof {
                let o2 = new@;
                assert(o2.take(kk) =~= o.take(kk));
                assert(forall|p: int| 0 <= p < kk ==> o2[p] == o[p]);
                assert forall|x: u8| #[trigger] count(o2.take(k as int), x) == max_count(a.take(i as int), b.take(j as int), x) by {
                    lemma_count_take_succ(o2, kk, x);
                    if i > ii {
                        lemma_count_take_succ(a, ii, x);
                    }
                    if j > jj {
                        lemma_count_take_succ(b, jj, x);
                    }
                }
                assert forall|x: u8| #[trigger] count(a.take(i as int), x) < count(a, x) implies count(a.take(i as int), x) >= count(
                    b.take(j as int),
                    x,
                ) by {
                    if i > ii {
                        lemma_count_take_succ(a, ii, x);
                    }
                    if j > jj {
                        lemma_count_take_succ(b, jj, x);
                    }
                    lemma_count_take_le(a, ii, x);
                }
                assert forall|x: u8| #[trigger] count(b.take(j as int), x) < count(b, x) implies count(b.take(j as int), x) >= count(
                    a.take(i as int),
                    x,
                ) by {
                    if i > ii {
                        lemma_count_take_succ(a, ii, x);
                    }
                    if j > jj {
                        lemma_count_take_succ(b, jj, x);
                    }
                    lemma_count_take_le(b, jj, x);
                }
                if i < 5 && i > ii {
                    assert(a[ii] <= a[i as int]);
                }
                if j < 5 && j > jj {
                    assert(b[jj] <= b[j as int]);
                }
            }
            if i == 5 {
                let ghost j0 = j;
                let ghost n0 = new;
                while j < 5 && k < 5
                    invariant
                        k == 5,
                        j == j0,
                        new == n0,
                    decreases 5 - k,
                {
                    new[k] = other.slots[j];
                    j += 1;
                    k += 1;
                }
                break;
            } else if j == 5 {
                let ghost i0 = i;
                let ghost n0 = new;
                while i < 5 && k < 5
                    invariant
                        k == 5,
                        i == i0,
                        new == n0,
                    decreases 5 - k,
                {
                    new[k] = self.slots[i];
                    i += 1;
                    k += 1;
                }
                break;
            }
        }
        self.slots = new;
        proof {
            assert(new@.take(5) =~= self@);
            assert forall|x: u8| #[trigger] count(self@, x) <= max_count(a, b, x) by {
                lemma_count_take_le(a, i as int, x);
                lemma_count_take_le(b, j as int, x);
            }
            assert forall|x: u8, p: int|
                #![trigger count(self@, x), self@[p]]
                count(self@, x) < max_count(a, b, x) && 0 <= p < self@.len() implies self@[p] <= x by {
                lemma_count_take_le(a, i as int, x);
                lemma_count_take_le(b, j as int, x);
                if count(a.take(i as int), x) < count(a, x) {
                    lemma_count_sorted_remaining(a, i as int, x);
                } else {
                    lemma_count_sorted_remaining(b, j as int, x);
                }
            }
        }
    }
}

/// Removing a letter just added to an alphagram with room left restores the
/// alphagram: `remove_letter` undoes `add_letter`.
pub proof fn lemma_remove_letter_undoes_add_letter(before: Alphagram, added: Alphagram, after: Alphagram, letter: u8)
    requires
        before.wf(),
        added.wf(),
        after.wf(),
        valid_slot(letter),
        before@[4] == NO_DATA,
        forall|x: u8| #[trigger] count(added@, x) + ind(x == max_code(before@[4], letter)) == count(before@, x) + ind(x == letter),
        count(added@, letter) > 0 ==> forall|x: u8| #[trigger] count(after@, x) == count(added@, x) - ind(x == letter) + ind(x == NO_DATA),
        count(added@, letter) == 0 ==> after@ == added@,
    ensures
        after@ == before@,
{
    assert(max_code(before@[4], letter) == NO_DATA);
    if letter != NO_DATA {
        assert(count(added@, letter) + 0 == count(before@, letter) + 1);
    } else {
        assert(before@.contains(NO_DATA));
        lemma_count_contains(before@, NO_DATA);
    }
    assert forall|x: u8| #[trigger] count(after@, x) == count(before@, x) by {}
    crate::counting::lemma_sorted_counts_equal(after@, before@);
}

/// The letters among the first `n` capitals that `s` holds come in strictly
/// increasing order, and they are exactly those capitals.
pub proof fn lemma_members(s: Set<u8>, n: int)
    requires
        0 <= n <= 26,
    ensures
        forall|i: int, j: int| 0 <= i < j < members(s, n).len() ==> (#[trigger] members(s, n)[i]) < (#[trigger] members(s, n)[j]),
        forall|i: int| 0 <= i < members(s, n).len() ==> FIRST_LETTER <= #[trigger] members(s, n)[i] < FIRST_LETTER + n,
        forall|c: u8| #[trigger] members(s, n).contains(c) <==> s.contains(c) && FIRST_LETTER <= c < FIRST_LETTER + n,
    decreases n,
{
    if n > 0 {
        lemma_members(s, n - 1);
        let m = members(s, n - 1);
        let c = (FIRST_LETTER + n - 1) as u8;
        let tail = if s.contains(c) {
            seq![c]
        } else {
            Seq::<u8>::empty()
        };
        assert(members(s, n) == m + tail);
        assert forall|i: int| 0 <= i < members(s, n).len() implies FIRST_LETTER <= #[trigger] members(s, n)[i] < FIRST_LETTER + n by {
            if i < m.len() {
                assert(members(s, n)[i] == m[i]);
            }
        }
        assert forall|i: int, j: int| 0 <= i < j < members(s, n).len() implies (#[trigger] members(s, n)[i]) < (#[trigger] members(s, n)[j]) by {
            assert(members(s, n)[i] == m[i]);
            if j < m.len() {
                assert(members(s, n)[j] == m[j]);
            }
        }
        assert forall|d: u8| #[trigger] members(s, n).contains(d) <==> s.contains(d) && FIRST_LETTER <= d < FIRST_LETTER + n by {
            if members(s, n).contains(d) {
                let i = choose|i: int| 0 <= i < members(s, n).len() && members(s, n)[i] == d;
                if i < m.len() {
                    assert(members(s, n)[i] == m[i]);
                    assert(m[i] == d);
                    assert(m.contains(d));
                }
            }
            if s.contains(d) && FIRST_LETTER <= d < FIRST_LETTER + n {
                if d < FIRST_LETTER + n - 1 {
                    assert(m.contains(d));
                    let i = choose|i: int| 0 <= i < m.len() && m[i] == d;
                    assert(members(s, n)[i] == d);
                } else {
                    assert(members(s, n)[m.len() as int] == d);
                }
            }
        }
    }
}

/// Inserting capitals into an empty letter set one by one gives the set of
/// them: `letters` then lists the distinct letters inserted, in strictly
/// increasing order, and nothing else.
pub proof fn lemma_inserted_letters(states: Seq<LetterSet>, xs: Seq<u8>)
    requires
        states.len() == xs.len() + 1,
        states[0]@ == Set::<u8>::empty(),
        forall|n: int| 0 <= n < xs.len() ==> is_capital(#[trigger] xs[n]) && states[n + 1]@ == states[n]@.insert(xs[n]),
    ensures
        forall|c: u8| #[trigger] states.last()@.contains(c) <==> xs.contains(c),
        forall|c: u8| #[trigger] members(states.last()@, 26).contains(c) <==> xs.contains(c),
        forall|i: int, j: int|
            0 <= i < j < members(states.last()@, 26).len() ==> (#[trigger] members(states.last()@, 26)[i]) < (
            #[trigger] members(states.last()@, 26)[j]),
    decreases xs.len(),
{
    if xs.len() > 0 {
        let m = xs.len() - 1;
        assert forall|n: int| 0 <= n < xs.drop_last().len() implies is_capital(#[trigger] xs.drop_last()[n])
            && states.drop_last()[n + 1]@ == states.drop_last()[n]@.insert(xs.drop_last()[n]) by {
            assert(xs.drop_last()[n] == xs[n]);
        }
        lemma_inserted_letters(states.drop_last(), xs.drop_last());
        assert(states.drop_last().last() == states[m]);
        assert(states.last() == states[m + 1]);
        assert(is_capital(xs[m]));
        assert forall|c: u8| #[trigger] states.last()@.contains(c) <==> xs.contains(c) by {
            if xs.contains(c) && c != xs[m] {
                let i = choose|i: int| 0 <= i < xs.len() && xs[i] == c;
                assert(xs.drop_last()[i] == c);
            }
            if xs.drop_last().contains(c) {
                let i = choose|i: int| 0 <= i < xs.drop_last().len() && xs.drop_last()[i] == c;
                assert(xs[i] == c);
            }
            if c == xs[m] {
                assert(xs[m] == c);
            }
        }
    }
    lemma_members(states.last()@, 26);
    assert forall|c: u8| #[trigger] members(states.last()@, 26).contains(c) <==> xs.contains(c) by {
        if xs.contains(c) {
            let i = choose|i: int| 0 <= i < xs.len() && xs[i] == c;
            if xs.len() > 0 {
                assert(is_capital(xs[i]));
            }
        }
    }
}

/// Counts of a sequence all of whose elements are `v`.
proof fn lemma_count_all(s: Seq<u8>, v: u8)
    requires
        forall|k: int| 0 <= k < s.len() ==> s[k] == v,
    ensures
        count(s, v) == s.len(),
    decreases s.len(),
{
    if s.len() > 0 {
        lemma_count_all(s.drop_last(), v);
    }
}

/// Adding capitals one by one to an empty alphagram sorts them: the first
/// slots hold the letters added, in alphabetical order and each as often as
/// added, and the remaining slots hold `_`.
pub proof fn lemma_added_letters(states: Seq<Alphagram>, xs: Seq<u8>)
    requires
        states.len() == xs.len() + 1,
        xs.len() <= 5,
        states[0]@ == seq![NO_DATA, NO_DATA, NO_DATA, NO_DATA, NO_DATA],
        forall|n: int| 0 <= n < states.len() ==> (#[trigger] states[n]).wf(),
        forall|n: int|
            0 <= n < xs.len() ==> is_capital(#[trigger] xs[n]) && forall|x: u8| #[trigger] count(states[n + 1]@, x) + ind(
                x == max_code(states[n]@[4], xs[n]),
            ) == count(states[n]@, x) + ind(x == xs[n]),
    ensures
        forall|x: u8| x != NO_DATA ==> #[trigger] count(states.last()@, x) == count(xs, x),
        count(states.last()@, NO_DATA) == 5 - xs.len(),
        sorted(states.last()@),
        forall|k: int| 0 <= k < xs.len() ==> #[trigger] states.last()@[k] != NO_DATA,
        forall|k: int| xs.len() <= k < 5 ==> #[trigger] states.last()@[k] == NO_DATA,
    decreases xs.len(),
{
    let last = states.last();
    assert(states[states.len() - 1] == last);
    if xs.len() == 0 {
        assert forall|x: u8| #[trigger] count(last@, x) == if x == NO_DATA { 5nat } else { 0nat } by {
            lemma_count5(last@, x);
        }
        assert(xs =~= Seq::<u8>::empty());
    } else {
        let m = xs.len() - 1;
        let ys = xs.drop_last();
        assert forall|n: int| 0 <= n < states.drop_last().len() implies (#[trigger] states.drop_last()[n]).wf() by {
            assert(states.drop_last()[n] == states[n]);
        }
        assert forall|n: int|
            0 <= n < ys.len() implies is_capital(#[trigger] ys[n]) && forall|x: u8| #[trigger] count(states.drop_last()[n + 1]@, x)
                + ind(x == max_code(states.drop_last()[n]@[4], ys[n])) == count(states.drop_last()[n]@, x) + ind(x == ys[n]) by {
            assert(ys[n] == xs[n]);
            assert(states.drop_last()[n] == states[n] && states.drop_last()[n + 1] == states[n + 1]);
        }
        assert(states.drop_last()[0] == states[0]);
        lemma_added_letters(states.drop_last(), ys);
        let prev = states[m];
        assert(states.drop_last().last() == prev);
        assert(prev@[4] == NO_DATA);
        assert(is_capital(xs[m]));
        assert(max_code(prev@[4], xs[m]) == NO_DATA);
        assert(xs =~= ys.push(xs[m]));
        assert forall|x: u8| x != NO_DATA implies #[trigger] count(last@, x) == count(xs, x) by {
            crate::counting::lemma_count_push(ys, xs[m], x);
            assert(count(last@, x) + ind(x == NO_DATA) == count(prev@, x) + ind(x == xs[m]));
        }
        crate::counting::lemma_count_push(ys, xs[m], NO_DATA);
        assert(count(last@, NO_DATA) + 1 == count(prev@, NO_DATA) + ind(NO_DATA == xs[m]));
    }
    let n = xs.len() as int;
    assert forall|k: int| 0 <= k < n implies #[trigger] last@[k] != NO_DATA by {
        if last@[k] == NO_DATA {
            assert forall|j: int| 0 <= j < last@.skip(k).len() implies #[trigger] last@.skip(k)[j] == NO_DATA by {
                assert(last@[k] <= last@[k + j]);
                assert(valid_slot(last@[k + j]));
            }
            lemma_count_all(last@.skip(k), NO_DATA);
            lemma_count_split(last@, k, NO_DATA);
        }
    }
    assert forall|k: int| n <= k < 5 implies #[trigger] last@[k] == NO_DATA by {
        if last@[k] != NO_DATA {
            assert forall|j: int| 0 <= j < last@.take(k + 1).len() implies #[trigger] last@.take(k + 1)[j] != NO_DATA by {
                assert(last@[j] <= last@[k]);
                assert(valid_slot(last@[k]));
            }
            lemma_count_absent(last@.take(k + 1), NO_DATA);
            lemma_count_split(last@, k + 1, NO_DATA);
            crate::counting::lemma_count_le_len(last@.skip(k + 1), NO_DATA);
        }
    }
}

} // verus!
