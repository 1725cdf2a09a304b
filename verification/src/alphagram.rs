//! An alphagram: the letters of a word listed in alphabetical order, in five
//! slots padded at the end with "no letter".

use vstd::prelude::*;

use crate::counting::{count, ind, lemma_count5, lemma_count_absent, lemma_count_contains, lemma_count_le_len, lemma_count_push, lemma_count_sorted_before, lemma_count_sorted_remaining, lemma_count_split, lemma_count_take_le, lemma_count_take_succ, sorted};
use crate::letter::{indices, letter_char, letters_to_string, DebugString, Letter};
use crate::word::Word;

verus! {

#[derive(Clone, Copy, Debug)]
pub struct Alphagram {
    slots: [Letter; 5],
}

impl View for Alphagram {
    type V = Seq<u8>;

    /// The letter indices of the five slots, in order.
    closed spec fn view(&self) -> Seq<u8> {
        indices(self.slots@)
    }
}

impl PartialEq for Alphagram {
    fn eq(&self, other: &Self) -> (r: bool) {
        proof {
            self.lemma_view();
            other.lemma_view();
        }
        let mut i: usize = 0;
        while i < 5
            invariant
                i <= 5,
                self@.len() == 5,
                other@.len() == 5,
                forall|k: int| 0 <= k < 5 ==> self@[k] == #[trigger] self.slots[k].0,
                forall|k: int| 0 <= k < 5 ==> other@[k] == #[trigger] other.slots[k].0,
                forall|k: int| 0 <= k < i ==> self@[k] == other@[k],
            decreases 5 - i,
        {
            if self.slots[i].0 != other.slots[i].0 {
                return false;
            }
            i += 1;
        }
        assert(self@ =~= other@);
        true
    }
}

impl vstd::std_specs::cmp::PartialEqSpecImpl for Alphagram {
    open spec fn obeys_eq_spec() -> bool {
        true
    }

    open spec fn eq_spec(&self, other: &Self) -> bool {
        self@ == other@
    }
}

impl Eq for Alphagram {
}

/// The larger of the counts of `x` in `a` and in `b`.
pub open spec fn max_count(a: Seq<u8>, b: Seq<u8>, x: u8) -> nat {
    if count(a, x) >= count(b, x) {
        count(a, x)
    } else {
        count(b, x)
    }
}

/// `r` holds the smallest elements of the multiset in which each `x` occurs
/// as often as it does in whichever of `a` and `b` has more of it: no element
/// occurs more often than there, and whatever is left out is at least as
/// large as everything in `r`.
pub open spec fn smallest_of_max_union(r: Seq<u8>, a: Seq<u8>, b: Seq<u8>) -> bool {
    &&& forall|x: u8| #[trigger] count(r, x) <= max_count(a, b, x)
    &&& forall|x: u8, k: int|
        #![trigger count(r, x), r[k]]
        count(r, x) < max_count(a, b, x) && 0 <= k < r.len() ==> r[k] <= x
}

/// Every letter of `sub` that is a letter of the alphabet occurs in `sup` at
/// least as often.
pub open spec fn contains_letters_of(sup: Seq<u8>, sub: Seq<u8>) -> bool {
    forall|x: u8| x < 26 ==> #[trigger] count(sub, x) <= #[trigger] count(sup, x)
}

impl Alphagram {
    /// Five slots in alphabetical order.
    pub open spec fn wf(&self) -> bool {
        &&& self@.len() == 5
        &&& sorted(self@)
    }

    /// The number of letters held: the slots that do not hold "no letter".
    pub open spec fn size(&self) -> int {
        5 - count(self@, 255u8)
    }

    proof fn lemma_view(&self)
        ensures
            self@.len() == 5,
            forall|i: int| 0 <= i < 5 ==> self@[i] == #[trigger] self.slots[i].0,
    {
    }

    pub fn new() -> (r: Alphagram)
        ensures
            r.wf(),
            r@ == seq![255u8, 255u8, 255u8, 255u8, 255u8],
            r.size() == 0,
    {
        let r = Alphagram { slots: [Letter::no_letter();5] };
        proof {
            r.lemma_view();
            assert(r@ =~= seq![255u8, 255u8, 255u8, 255u8, 255u8]);
            lemma_count5(r@, 255u8);
        }
        r
    }

    pub fn from_word(word: Word) -> (r: Alphagram)
        ensures
            r.wf(),
            forall|x: u8| #[trigger] count(r@, x) == count(indices(word.letters@), x),
    {
        let slots = sorted5(word.letters);
        let r = Alphagram { slots };
        proof {
            r.lemma_view();
            assert(r@ =~= indices(slots@));
        }
        r
    }

    pub fn is_full(self) -> (r: bool)
        requires
            self.wf(),
        ensures
            r == (self.size() == 5),
            r == (self@[4] != 255),
    {
        proof {
            self.lemma_view();
            lemma_count5(self@, 255u8);
        }
        self.slots[4].0 != 255
    }
}

impl Alphagram {
    proof fn lemma_full_iff_last(&self)
        requires
            self.wf(),
        ensures
            (self.size() == 5) == (self@[4] != 255),
            self.size() <= 5,
    {
        lemma_count5(self@, 255u8);
        if self@[4] != 255 {
            assert forall|k: int| 0 <= k < 5 implies self@[k] != 255 by {
                assert(self@[k] <= self@[4]);
            }
        }
    }

    /// Adds a letter, keeping the slots in alphabetical order.
    pub fn insert(&mut self, letter: Letter)
        requires
            old(self).wf(),
            old(self).size() < 5,
        ensures
            final(self).wf(),
            forall|x: u8| #[trigger] count(final(self)@, x) == count(old(self)@, x) + ind(x == letter.0) - ind(x == 255),
            final(self).size() == old(self).size() + ind(letter.0 != 255),
    {
        proof {
            self.lemma_view();
            self.lemma_full_iff_last();
        }
        let ghost old_s = self@;
        let mut slots = self.slots;
        let mut letter = letter;
        let ghost first = letter.0;
        let mut i: usize = 0;
        assert(indices(slots@).take(0) =~= Seq::<u8>::empty());
        assert(old_s.take(0) =~= Seq::<u8>::empty());
        while i < 5
            invariant
                i <= 5,
                old_s.len() == 5,
                sorted(old_s),
                old_s[4] == 255,
                indices(slots@).len() == 5,
                forall|k: int| i <= k < 5 ==> indices(slots@)[k] == old_s[k],
                forall|k: int, m: int| 0 <= k <= m < i ==> indices(slots@)[k] <= indices(slots@)[m],
                forall|k: int| 0 <= k < i ==> indices(slots@)[k] <= letter.0,
                forall|k: int, m: int| 0 <= k < i <= m < 5 ==> indices(slots@)[k] <= old_s[m],
                i == 5 ==> letter.0 == 255,
                forall|x: u8| #[trigger] count(indices(slots@).take(i as int), x) + ind(letter.0 == x)
                    == count(old_s.take(i as int), x) + ind(first == x),
            decreases 5 - i,
        {
            let ghost before = indices(slots@);
            let ghost carried = letter.0;
            if letter.0 < slots[i].0 {
                let temp = slots[i];
                slots[i] = letter;
                letter = temp;
            }
            proof {
                let after = indices(slots@);
                assert(forall|k: int| 0 <= k < i ==> after[k] == before[k]);
                assert(forall|k: int| i < k < 5 ==> after[k] == before[k]);
                assert(after[i as int] <= letter.0);
                assert(after[i as int] <= old_s[i as int]);
                assert(forall|m: int| i <= m < 5 ==> old_s[i as int] <= old_s[m]);
                assert(forall|k: int| 0 <= k < i ==> before[k] <= old_s[i as int]);
                assert(forall|k: int| 0 <= k < i ==> after[k] <= after[i as int]);
                assert forall|x: u8| #[trigger] count(after.take(i + 1), x) + ind(letter.0 == x)
                    == count(old_s.take(i + 1), x) + ind(first == x) by {
                    lemma_count_take_succ(after, i as int, x);
                    lemma_count_take_succ(old_s, i as int, x);
                    assert(after.take(i as int) =~= before.take(i as int));
                }
            }
            i += 1;
        }
        self.slots = slots;
        proof {
            self.lemma_view();
            assert(indices(slots@).take(5) =~= self@);
            assert(old_s.take(5) =~= old_s);
            lemma_count5(self@, 255u8);
            lemma_count5(old_s, 255u8);
        }
    }
}

impl Alphagram {
    /// Removes one occurrence of `letter`, if there is one, shifting the later
    /// slots left; reports whether it found one.
    pub fn remove(&mut self, letter: Letter) -> (r: bool)
        requires
            old(self).wf(),
        ensures
            final(self).wf(),
            r == (count(old(self)@, letter.0) > 0),
            forall|x: u8| #[trigger] count(final(self)@, x) == count(old(self)@, x) - ind(r && x == letter.0) + ind(r && x == 255),
            final(self).size() == old(self).size() - ind(r && letter.0 != 255),
    {
        proof {
            self.lemma_view();
        }
        let ghost old_s = self@;
        let mut i: usize = 0;
        while i < 5
            invariant
                i <= 5,
                old_s == self@,
                old_s == old(self)@,
                old_s.len() == 5,
                sorted(old_s),
                forall|k: int| 0 <= k < 5 ==> old_s[k] == #[trigger] self.slots[k].0,
                forall|k: int| 0 <= k < i ==> old_s[k] != letter.0,
            decreases 5 - i,
        {
            if self.slots[i] == letter {
                assert(old_s[i as int] == letter.0);
                let mut slots = self.slots;
                let mut j: usize = i;
                while j < 4
                    invariant
                        i <= j <= 4,
                        old_s.len() == 5,
                        indices(slots@).len() == 5,
                        forall|k: int| 0 <= k < i ==> indices(slots@)[k] == old_s[k],
                        forall|k: int| i <= k < j ==> indices(slots@)[k] == old_s[k + 1],
                        forall|k: int| j <= k < 5 ==> indices(slots@)[k] == old_s[k],
                    decreases 4 - j,
                {
                    let ghost before = indices(slots@);
                    assert(before[j + 1] == old_s[j + 1]);
                    slots[j] = slots[j + 1];
                    assert(indices(slots@) =~= before.update(j as int, old_s[j + 1]));
                    j += 1;
                }
                let ghost before4 = indices(slots@);
                slots[4] = Letter::no_letter();
                assert(indices(slots@) =~= before4.update(4, 255u8));
                self.slots = slots;
                proof {
                    self.lemma_view();
                    let removed = old_s.take(i as int) + old_s.skip(i + 1);
                    assert(self@.len() == 5);
                    assert(forall|k: int| 0 <= k < i ==> self@[k] == old_s[k]);
                    assert(forall|k: int| i <= k < 4 ==> self@[k] == old_s[k + 1]);
                    assert(self@[4] == 255);
                    assert(self@ =~= removed.push(255u8));
                    assert(old_s =~= old_s.take(i as int) + seq![old_s[i as int]] + old_s.skip(i + 1));
                    assert forall|x: u8| #[trigger] count(self@, x) == count(old_s, x) - ind(x == letter.0) + ind(x == 255) by {
                        lemma_count_push(removed, 255u8, x);
                        crate::counting::lemma_count_concat(old_s.take(i as int), old_s.skip(i + 1), x);
                        crate::counting::lemma_count_concat(old_s.take(i as int), seq![old_s[i as int]], x);
                        crate::counting::lemma_count_concat(old_s.take(i as int) + seq![old_s[i as int]], old_s.skip(i + 1), x);
                        assert(seq![old_s[i as int]] =~= Seq::<u8>::empty().push(old_s[i as int]));
                        lemma_count_push(Seq::<u8>::empty(), old_s[i as int], x);
                        assert(count(Seq::<u8>::empty(), x) == 0);
                        assert(count(removed.push(255u8), x) == count(removed, x) + ind(255u8 == x));
                    }
                    assert(old_s.contains(letter.0));
                    lemma_count_contains(old_s, letter.0);
                    assert(forall|k: int, m: int| 0 <= k <= m < 5 ==> #[trigger] self@[k] <= #[trigger] self@[m]);
                    assert(sorted(self@));
                }
                return true;
            }
            i += 1;
        }
        proof {
            lemma_count_contains(old_s, letter.0);
        }
        false
    }

    /// Whether some slot holds `letter` (a slot holding "no letter" counts
    /// for `Letter::no_letter()`).
    pub fn contains(self, letter: Letter) -> (r: bool)
        ensures
            r == (count(self@, letter.0) > 0),
            r == self@.contains(letter.0),
    {
        proof {
            self.lemma_view();
            lemma_count_contains(self@, letter.0);
        }
        let mut i: usize = 0;
        while i < 5
            invariant
                i <= 5,
                self@.len() == 5,
                forall|k: int| 0 <= k < 5 ==> self@[k] == #[trigger] self.slots[k].0,
                forall|k: int| 0 <= k < i ==> self@[k] != letter.0,
            decreases 5 - i,
        {
            if self.slots[i] == letter {
                assert(self.slots[i as int].0 == letter.0);
                assert(self@[i as int] == letter.0);
                assert(self@.contains(letter.0));
                proof {
                    lemma_count_contains(self@, letter.0);
                }
                return true;
            }
            i += 1;
        }
        false
    }
}

/// The letters of an alphagram, in order, up to the first slot that holds no
/// letter of the alphabet.
pub struct Iter {
    slots: [Letter; 5],
    index: usize,
}

impl Iter {
    /// The slots being walked.
    pub closed spec fn letters(&self) -> Seq<Letter> {
        self.slots@
    }

    /// The number of slots already visited.
    pub closed spec fn position(&self) -> nat {
        self.index as nat
    }

    /// The next slot's letter, or `None` at the end or at a slot that holds
    /// no letter of the alphabet.
    pub fn next(&mut self) -> (r: Option<Letter>)
        requires
            old(self).position() <= 5,
        ensures
            final(self).letters() == old(self).letters(),
            final(self).position() <= 5,
            old(self).position() < 5 ==> final(self).position() == old(self).position() + 1 && r == (
            if old(self).letters()[old(self).position() as int].valid() {
                Some(old(self).letters()[old(self).position() as int])
            } else {
                None
            }),
            old(self).position() == 5 ==> final(self).position() == 5 && r is None,
    {
        if self.index < 5 {
            let letter = self.slots[self.index];
            self.index += 1;
            if letter.is_valid() {
                Some(letter)
            } else {
                None
            }
        } else {
            None
        }
    }
}

impl Alphagram {
    pub fn into_iter(self) -> (r: Iter)
        ensures
            indices(r.letters()) == self@,
            r.letters().len() == 5,
            r.position() == 0,
    {
        Iter { slots: self.slots, index: 0 }
    }

    /// Whether `self` holds every letter of `other` at least as often.
    pub fn contains_other(self, other: Self) -> (r: bool)
        requires
            self.wf(),
            other.wf(),
        ensures
            r == contains_letters_of(self@, other@),
    {
        proof {
            self.lemma_view();
            other.lemma_view();
        }
        let ghost a = self@;
        let ghost b = other@;
        let mut letters_to_find = other.into_iter();
        let first = letters_to_find.next();
        let mut letter_to_find = match first {
            Some(letter) => letter,
            None => {
                proof {
                    assert forall|x: u8| x < 26 implies #[trigger] count(b, x) <= #[trigger] count(a, x) by {
                        lemma_count_sorted_before(b, 0, x);
                        assert(b.take(0) =~= Seq::<u8>::empty());
                    }
                }
                return true;
            },
        };
        assert(b.take(0) =~= Seq::<u8>::empty());
        assert(a.take(0) =~= Seq::<u8>::empty());
        let mut i: usize = 0;
        while i < 5
            invariant
                a == self@,
                b == other@,
                a.len() == 5,
                b.len() == 5,
                sorted(a),
                sorted(b),
                forall|k: int| 0 <= k < 5 ==> a[k] == #[trigger] self.slots[k].0,
                indices(letters_to_find.letters()) == b,
                letters_to_find.letters().len() == 5,
                1 <= letters_to_find.position() <= 5,
                i <= 5,
                letter_to_find.0 == b[letters_to_find.position() - 1],
                letter_to_find.0 < 26,
                forall|x: u8| #[trigger] count(b.take(letters_to_find.position() - 1), x) <= count(a.take(i as int), x),
                count(a.take(i as int), letter_to_find.0) == count(b.take(letters_to_find.position() - 1), letter_to_find.0),
                forall|k: int| 0 <= k < i ==> a[k] <= letter_to_find.0,
            decreases 5 - i,
        {
            let letter = self.slots[i];
            let ghost j = letters_to_find.position() - 1;
            let ghost t = letter_to_find.0;
            proof {
                lemma_count_take_succ(b, j, t);
                lemma_count_take_le(b, j + 1, t);
            }
            if letter.0 > letter_to_find.0 {
                proof {
                    lemma_count_sorted_before(a, i as int, t);
                    assert(count(b, t) > count(a, t));
                }
                return false;
            } else if letter.0 == letter_to_find.0 {
                let next = letters_to_find.next();
                match next {
                    Some(l) => {
                        proof {
                            assert forall|x: u8| #[trigger] count(b.take(j + 1), x) <= count(a.take(i + 1), x) by {
                                lemma_count_take_succ(b, j, x);
                                lemma_count_take_succ(a, i as int, x);
                            }
                            lemma_count_take_succ(a, i as int, t);
                            assert(indices(letters_to_find.letters())[j + 1] == b[j + 1]);
                            assert(l.0 == b[j + 1]);
                            assert(b[j] <= b[j + 1]);
                            if l.0 != t {
                                assert(t <= l.0);
                                assert forall|k: int| 0 <= k < j + 1 implies #[trigger] b.take(j + 1)[k] != l.0 by {
                                    assert(b[k] <= b[j]);
                                }
                                crate::counting::lemma_count_absent(b.take(j + 1), l.0);
                                assert forall|k: int| 0 <= k < i + 1 implies #[trigger] a.take(i + 1)[k] != l.0 by {
                                    assert(a[k] <= t);
                                }
                                crate::counting::lemma_count_absent(a.take(i + 1), l.0);
                            }
                        }
                        letter_to_find = l;
                    },
                    None => {
                        proof {
                            assert forall|x: u8| x < 26 implies #[trigger] count(b, x) <= #[trigger] count(a, x) by {
                                lemma_count_take_succ(b, j, x);
                                lemma_count_take_succ(a, i as int, x);
                                lemma_count_take_le(a, i + 1, x);
                                if j + 1 < 5 {
                                    lemma_count_sorted_before(b, j + 1, x);
                                } else {
                                    assert(b.take(5) =~= b);
                                }
                            }
                        }
                        return true;
                    },
                }
            } else {
                proof {
                    assert forall|x: u8| #[trigger] count(b.take(j), x) <= count(a.take(i + 1), x) by {
                        lemma_count_take_succ(a, i as int, x);
                    }
                    lemma_count_take_succ(a, i as int, t);
                }
            }
            i += 1;
        }
        proof {
            let j = letters_to_find.position() - 1;
            let t = letter_to_find.0;
            assert(a.take(5) =~= a);
            lemma_count_take_succ(b, j, t);
            lemma_count_take_le(b, j + 1, t);
            assert(count(b, t) > count(a, t));
        }
        false
    }
}

impl Alphagram {
    /// Merges two alphagrams, keeping the higher count of every letter; where
    /// the merged letters do not fit, the five smallest are kept.
    pub fn merged(self, other: Self) -> (r: Alphagram)
        requires
            self.wf(),
            other.wf(),
        ensures
            r.wf(),
            smallest_of_max_union(r@, self@, other@),
    {
        proof {
            self.lemma_view();
            other.lemma_view();
        }
        let ghost a = self@;
        let ghost b = other@;
        let mut i: usize = 0;
        let mut j: usize = 0;
        let mut slots = [Letter::no_letter();5];
        let mut k: usize = 0;
        assert(a.take(0) =~= Seq::<u8>::empty());
        assert(b.take(0) =~= Seq::<u8>::empty());
        assert(indices(slots@).take(0) =~= Seq::<u8>::empty());
        while k < 5
            invariant
                a == self@,
                b == other@,
                a.len() == 5,
                b.len() == 5,
                sorted(a),
                sorted(b),
                forall|p: int| 0 <= p < 5 ==> a[p] == #[trigger] self.slots[p].0,
                forall|p: int| 0 <= p < 5 ==> b[p] == #[trigger] other.slots[p].0,
                k <= 5,
                i <= k,
                j <= k,
                indices(slots@).len() == 5,
                forall|p: int, q: int| 0 <= p <= q < k ==> indices(slots@)[p] <= indices(slots@)[q],
                forall|p: int| 0 <= p < k && i < 5 ==> indices(slots@)[p] <= a[i as int],
                forall|p: int| 0 <= p < k && j < 5 ==> indices(slots@)[p] <= b[j as int],
                forall|x: u8| #[trigger] count(indices(slots@).take(k as int), x) == max_count(a.take(i as int), b.take(j as int), x),
                forall|x: u8| #[trigger] count(a.take(i as int), x) < count(a, x) ==> count(a.take(i as int), x) >= count(b.take(j as int), x),
                forall|x: u8| #[trigger] count(b.take(j as int), x) < count(b, x) ==> count(b.take(j as int), x) >= count(a.take(i as int), x),
            decreases 5 - k,
        {
            let ghost o = indices(slots@);
            let ghost ii = i as int;
            let ghost jj = j as int;
            let ai = self.slots[i];
            let bj = other.slots[j];
            proof {
                lemma_count_take_succ(a, ii, a[ii]);
                lemma_count_take_le(a, ii + 1, a[ii]);
                lemma_count_take_succ(b, jj, b[jj]);
                lemma_count_take_le(b, jj + 1, b[jj]);
            }
            if ai.0 == bj.0 {
                slots[k] = ai;
                i += 1;
                j += 1;
            } else if ai.0 > bj.0 {
                slots[k] = bj;
                j += 1;
                proof {
                    lemma_count_sorted_before(a, ii, b[jj]);
                    lemma_count_take_le(a, ii, b[jj]);
                }
            } else {
                slots[k] = ai;
                i += 1;
                proof {
                    lemma_count_sorted_before(b, jj, a[ii]);
                    lemma_count_take_le(b, jj, a[ii]);
                }
            }
            proof {
                let o2 = indices(slots@);
                assert(o2.take(k as int) =~= o.take(k as int));
                assert(forall|p: int| 0 <= p < k ==> o2[p] == o[p]);
                assert forall|x: u8| #[trigger] count(o2.take(k + 1), x) == max_count(a.take(i as int), b.take(j as int), x) by {
                    lemma_count_take_succ(o2, k as int, x);
                    if i > ii {
                        lemma_count_take_succ(a, ii, x);
                    }
                    if j > jj {
                        lemma_count_take_succ(b, jj, x);
                    }
                }
                assert forall|x: u8| #[trigger] count(a.take(i as int), x) < count(a, x) implies count(a.take(i as int), x) >= count(b.take(j as int), x) by {
                    if i > ii {
                        lemma_count_take_succ(a, ii, x);
                    }
                    if j > jj {
                        lemma_count_take_succ(b, jj, x);
                    }
                    lemma_count_take_le(a, ii, x);
                }
                assert forall|x: u8| #[trigger] count(b.take(j as int), x) < count(b, x) implies count(b.take(j as int), x) >= count(a.take(i as int), x) by {
                    if i > ii {
                        lemma_count_take_succ(a, ii, x);
                    }
                    if j > jj {
                        lemma_count_take_succ(b, jj, x);
                    }
                    lemma_count_take_le(b, jj, x);
                }
                if i < 5 && i > ii {
                    assert(a[ii] <= a[i as int]);
                }
                if j < 5 && j > jj {
                    assert(b[jj] <= b[j as int]);
                }
            }
            k += 1;
        }
        let r = Alphagram { slots };
        proof {
            r.lemma_view();
            assert(indices(slots@).take(5) =~= r@);
            assert forall|x: u8| #[trigger] count(r@, x) <= max_count(a, b, x) by {
                lemma_count_take_le(a, i as int, x);
                lemma_count_take_le(b, j as int, x);
            }
            assert forall|x: u8, p: int|
                #![trigger count(r@, x), r@[p]]
                count(r@, x) < max_count(a, b, x) && 0 <= p < r@.len() implies r@[p] <= x by {
                lemma_count_take_le(a, i as int, x);
                lemma_count_take_le(b, j as int, x);
                if count(a.take(i as int), x) < count(a, x) {
                    lemma_count_sorted_remaining(a, i as int, x);
                } else {
                    lemma_count_sorted_remaining(b, j as int, x);
                }
            }
        }
        r
    }
}

/// Swaps the letters at `i` and `j` when the one at `j` comes first.
fn compare_exchange(arr: &mut [Letter; 5], i: usize, j: usize)
    requires
        i < j < 5,
    ensures
        final(arr)[i as int].0 <= final(arr)[j as int].0,
        (final(arr)[i as int] == old(arr)[i as int] && final(arr)[j as int] == old(arr)[j as int])
            || (final(arr)[i as int] == old(arr)[j as int] && final(arr)[j as int] == old(
            arr,
        )[i as int]),
        forall|k: int| 0 <= k < 5 && k != i && k != j ==> final(arr)[k] == old(arr)[k],
{
    if arr[j].index() < arr[i].index() {
        let temp = arr[i];
        arr[i] = arr[j];
        arr[j] = temp;
    }
}

/// Sorts five letters with an optimal sorting network.
fn sorted5(arr: [Letter; 5]) -> (r: [Letter; 5])
    ensures
        sorted(indices(r@)),
        forall|x: u8| #[trigger] count(indices(r@), x) == count(indices(arr@), x),
{
    let mut a = arr;
    compare_exchange(&mut a, 0, 3);
    compare_exchange(&mut a, 1, 4);
    compare_exchange(&mut a, 0, 2);
    compare_exchange(&mut a, 1, 3);
    compare_exchange(&mut a, 0, 1);
    compare_exchange(&mut a, 2, 4);
    compare_exchange(&mut a, 1, 2);
    compare_exchange(&mut a, 3, 4);
    compare_exchange(&mut a, 2, 3);
    proof {
        let s = indices(a@);
        let t = indices(arr@);
        assert(s[0] <= s[1] <= s[2] <= s[3] <= s[4]);
        assert forall|x: u8| #[trigger] count(s, x) == count(t, x) by {
            lemma_count5(s, x);
            lemma_count5(t, x);
        }
    }
    a
}

impl DebugString for Alphagram {
    /// The five slots as characters, "no letter" as `_`.
    open spec fn debug_text(&self) -> Seq<char> {
        self@.map_values(|x: u8| letter_char(x))
    }

    fn debug_string(&self) -> (r: String) {
        let r = letters_to_string(self.slots.as_slice());
        proof {
            assert(r@ =~= self@.map_values(|x: u8| letter_char(x)));
        }
        r
    }
}

/// Removing a letter just inserted into an alphagram restores the alphagram:
/// `remove` undoes `insert`.
pub proof fn lemma_remove_undoes_insert(before: Alphagram, inserted: Alphagram, after: Alphagram, letter: Letter)
    requires
        before.wf(),
        inserted.wf(),
        after.wf(),
        forall|x: u8| #[trigger] count(inserted@, x) == count(before@, x) + ind(x == letter.0) - ind(x == 255),
        forall|x: u8|
            #[trigger] count(after@, x) == count(inserted@, x) - ind(count(inserted@, letter.0) > 0 && x == letter.0) + ind(
                count(inserted@, letter.0) > 0 && x == 255,
            ),
    ensures
        after@ == before@,
{
    assert forall|x: u8| #[trigger] count(after@, x) == count(before@, x) by {
        if letter.0 != 255 {
            assert(count(inserted@, letter.0) == count(before@, letter.0) + 1);
        }
    }
    crate::counting::lemma_sorted_counts_equal(after@, before@);
}

/// Two sorted alphagram views that both keep the smallest of the max-count
/// union of the same two sequences are the same.
proof fn lemma_max_union_unique(r: Seq<u8>, t: Seq<u8>, a: Seq<u8>, b: Seq<u8>)
    requires
        r.len() == 5,
        t.len() == 5,
        sorted(r),
        sorted(t),
        smallest_of_max_union(r, a, b),
        smallest_of_max_union(t, a, b),
    ensures
        r == t,
{
    lemma_max_union_counts(r, t, a, b, 256);
    assert forall|x: u8| #[trigger] count(r, x) == count(t, x) by {}
    crate::counting::lemma_sorted_counts_equal(r, t);
}

proof fn lemma_max_union_counts(r: Seq<u8>, t: Seq<u8>, a: Seq<u8>, b: Seq<u8>, m: int)
    requires
        0 <= m <= 256,
        r.len() == 5,
        t.len() == 5,
        smallest_of_max_union(r, a, b),
        smallest_of_max_union(t, a, b),
    ensures
        forall|x: u8| x < m ==> #[trigger] count(r, x) == count(t, x),
    decreases m,
{
    if m > 0 {
        lemma_max_union_counts(r, t, a, b, m - 1);
        let x = (m - 1) as u8;
        lemma_max_union_step(r, t, a, b, x);
        lemma_max_union_step(t, r, a, b, x);
    }
}

proof fn lemma_max_union_step(r: Seq<u8>, t: Seq<u8>, a: Seq<u8>, b: Seq<u8>, x: u8)
    requires
        r.len() == 5,
        t.len() == 5,
        smallest_of_max_union(r, a, b),
        smallest_of_max_union(t, a, b),
        forall|y: u8| y < x ==> #[trigger] count(r, y) == count(t, y),
    ensures
        count(r, x) >= count(t, x),
{
    if count(r, x) < count(t, x) {
        assert(count(t, x) <= max_count(a, b, x));
        assert forall|k: int| 0 <= k < r.len() implies (#[trigger] r[k]) < x + 1 by {
            assert(r[k] <= x);
        }
        crate::counting::lemma_letter_total_len(r, x + 1);
        crate::counting::lemma_letter_total_len(t, x + 1);
        assert forall|y: u8| y < x + 1 implies #[trigger] count(r, y) <= count(t, y) by {}
        crate::counting::lemma_letter_total_le(r, t, x + 1, x as int);
    }
}

/// Merging is commutative: `a.merged(b)` and `b.merged(a)` are the same.
pub proof fn lemma_merged_commutative(a: Alphagram, b: Alphagram, ab: Alphagram, ba: Alphagram)
    requires
        ab.wf(),
        ba.wf(),
        smallest_of_max_union(ab@, a@, b@),
        smallest_of_max_union(ba@, b@, a@),
    ensures
        ab@ == ba@,
{
    assert forall|x: u8| #[trigger] max_count(b@, a@, x) == max_count(a@, b@, x) by {}
    assert(smallest_of_max_union(ba@, a@, b@));
    lemma_max_union_unique(ab@, ba@, a@, b@);
}

/// Merging is idempotent: `a.merged(a)` is `a`.
pub proof fn lemma_merged_idempotent(a: Alphagram, aa: Alphagram)
    requires
        a.wf(),
        aa.wf(),
        smallest_of_max_union(aa@, a@, a@),
    ensures
        aa@ == a@,
{
    assert(smallest_of_max_union(a@, a@, a@));
    lemma_max_union_unique(aa@, a@, a@, a@);
}

/// The empty alphagram is the identity of merging, on either side:
/// `a.merged(Alphagram::new())` and `Alphagram::new().merged(a)` are both `a`.
pub proof fn lemma_merged_identity(a: Alphagram, e: Alphagram, ae: Alphagram, ea: Alphagram)
    requires
        a.wf(),
        ae.wf(),
        ea.wf(),
        e@ == seq![255u8, 255u8, 255u8, 255u8, 255u8],
        smallest_of_max_union(ae@, a@, e@),
        smallest_of_max_union(ea@, e@, a@),
    ensures
        ae@ == a@,
        ea@ == a@,
{
    assert forall|x: u8| #[trigger] count(e@, x) == if x == 255 { 5nat } else { 0nat } by {
        lemma_count5(e@, x);
    }
    assert forall|x: u8| #[trigger] count(a@, x) <= max_count(a@, e@, x) by {
        lemma_count5(a@, x);
    }
    assert forall|x: u8| #[trigger] count(a@, x) <= max_count(e@, a@, x) by {
        lemma_count5(a@, x);
    }
    assert(smallest_of_max_union(a@, a@, e@));
    lemma_max_union_unique(ae@, a@, a@, e@);
    assert(smallest_of_max_union(a@, e@, a@));
    lemma_max_union_unique(ea@, a@, e@, a@);
}

} // verus!
