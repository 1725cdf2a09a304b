//! Occurrence counts in sequences, and sortedness of letter indices: the
//! mathematical model that the letter collections are specified over.

use vstd::prelude::*;

verus! {

/// One if `b` holds, zero otherwise.
pub open spec fn ind(b: bool) -> nat {
    if b {
        1
    } else {
        0
    }
}

/// The number of times `x` occurs in `s`.
pub open spec fn count<T>(s: Seq<T>, x: T) -> nat
    decreases s.len(),
{
    if s.len() == 0 {
        0
    } else {
        count(s.drop_last(), x) + ind(s.last() == x)
    }
}

/// The sequence is in non-decreasing order.
pub open spec fn sorted(s: Seq<u8>) -> bool {
    forall|i: int, j: int| 0 <= i <= j < s.len() ==> s[i] <= s[j]
}

pub proof fn lemma_count_push<T>(s: Seq<T>, a: T, x: T)
    ensures
        count(s.push(a), x) == count(s, x) + ind(a == x),
{
    assert(s.push(a).drop_last() =~= s);
}

pub proof fn lemma_count_concat<T>(a: Seq<T>, b: Seq<T>, x: T)
    ensures
        count(a + b, x) == count(a, x) + count(b, x),
    decreases b.len(),
{
    if b.len() == 0 {
        assert(a + b =~= a);
    } else {
        lemma_count_concat(a, b.drop_last(), x);
        assert((a + b).drop_last() =~= a + b.drop_last());
    }
}

pub proof fn lemma_count_take_succ<T>(s: Seq<T>, i: int, x: T)
    requires
        0 <= i < s.len(),
    ensures
        count(s.take(i + 1), x) == count(s.take(i), x) + ind(s[i] == x),
{
    assert(s.take(i + 1).drop_last() =~= s.take(i));
}

pub proof fn lemma_count_split<T>(s: Seq<T>, i: int, x: T)
    requires
        0 <= i <= s.len(),
    ensures
        count(s, x) == count(s.take(i), x) + count(s.skip(i), x),
{
    assert(s =~= s.take(i) + s.skip(i));
    lemma_count_concat(s.take(i), s.skip(i), x);
}

pub proof fn lemma_count_absent<T>(s: Seq<T>, x: T)
    requires
        forall|k: int| 0 <= k < s.len() ==> s[k] != x,
    ensures
        count(s, x) == 0,
    decreases s.len(),
{
    if s.len() > 0 {
        lemma_count_absent(s.drop_last(), x);
    }
}

pub proof fn lemma_count_contains<T>(s: Seq<T>, x: T)
    ensures
        count(s, x) > 0 <==> s.contains(x),
    decreases s.len(),
{
    if s.len() > 0 {
        lemma_count_contains(s.drop_last(), x);
        if s.drop_last().contains(x) {
            let k = choose|k: int| 0 <= k < s.drop_last().len() && s.drop_last()[k] == x;
            assert(s[k] == x);
        }
        if s.contains(x) && s.last() != x {
            let k = choose|k: int| 0 <= k < s.len() && s[k] == x;
            assert(s.drop_last()[k] == x);
        }
    }
}

pub proof fn lemma_count_le_len<T>(s: Seq<T>, x: T)
    ensures
        count(s, x) <= s.len(),
    decreases s.len(),
{
    if s.len() > 0 {
        lemma_count_le_len(s.drop_last(), x);
    }
}

/// In a sorted sequence, an element larger than `x` at `i` leaves every
/// occurrence of `x` before `i`.
pub proof fn lemma_count_sorted_before(s: Seq<u8>, i: int, x: u8)
    requires
        sorted(s),
        0 <= i < s.len(),
        x < s[i],
    ensures
        count(s, x) == count(s.take(i), x),
{
    lemma_count_split(s, i, x);
    assert forall|k: int| 0 <= k < s.skip(i).len() implies s.skip(i)[k] != x by {
        assert(s.skip(i)[k] == s[i + k]);
    }
    lemma_count_absent(s.skip(i), x);
}

/// In a sorted sequence, an occurrence of `x` at or after `i` means that the
/// element at `i` is at most `x`.
pub proof fn lemma_count_sorted_remaining(s: Seq<u8>, i: int, x: u8)
    requires
        sorted(s),
        0 <= i <= s.len(),
        count(s.take(i), x) < count(s, x),
    ensures
        i < s.len(),
        s[i] <= x,
{
    if i == s.len() {
        assert(s.take(i) =~= s);
    } else if x < s[i] {
        lemma_count_sorted_before(s, i, x);
    }
}

/// A prefix has no more occurrences than the whole.
pub proof fn lemma_count_take_le<T>(s: Seq<T>, i: int, x: T)
    requires
        0 <= i <= s.len(),
    ensures
        count(s.take(i), x) <= count(s, x),
{
    lemma_count_split(s, i, x);
}

/// Counting in a sequence of five by its positions.
pub proof fn lemma_count5<T>(s: Seq<T>, x: T)
    requires
        s.len() == 5,
    ensures
        count(s, x) == ind(s[0] == x) + ind(s[1] == x) + ind(s[2] == x) + ind(s[3] == x) + ind(
            s[4] == x,
        ),
{
    assert(s.take(0) =~= Seq::<T>::empty());
    lemma_count_take_succ(s, 0, x);
    lemma_count_take_succ(s, 1, x);
    lemma_count_take_succ(s, 2, x);
    lemma_count_take_succ(s, 3, x);
    lemma_count_take_succ(s, 4, x);
    assert(s.take(5) =~= s);
}

} // verus!

verus! {

/// Replacing the element at `i` by `v` trades one occurrence of the old
/// element for one of `v`.
pub proof fn lemma_count_update<T>(s: Seq<T>, i: int, v: T, x: T)
    requires
        0 <= i < s.len(),
    ensures
        count(s.update(i, v), x) + ind(s[i] == x) == count(s, x) + ind(v == x),
{
    let t = s.update(i, v);
    lemma_count_split(s, i, x);
    lemma_count_split(t, i, x);
    assert(t.take(i) =~= s.take(i));
    assert(s.skip(i) =~= seq![s[i]] + s.skip(i + 1));
    assert(t.skip(i) =~= seq![v] + s.skip(i + 1));
    lemma_count_concat(seq![s[i]], s.skip(i + 1), x);
    lemma_count_concat(seq![v], s.skip(i + 1), x);
    assert(seq![s[i]] =~= Seq::<T>::empty().push(s[i]));
    assert(seq![v] =~= Seq::<T>::empty().push(v));
    lemma_count_push(Seq::<T>::empty(), s[i], x);
    lemma_count_push(Seq::<T>::empty(), v, x);
}

/// Two sorted sequences with the same count of every element are equal.
pub proof fn lemma_sorted_counts_equal(s: Seq<u8>, t: Seq<u8>)
    requires
        sorted(s),
        sorted(t),
        s.len() == t.len(),
        forall|x: u8| #[trigger] count(s, x) == count(t, x),
    ensures
        s == t,
    decreases s.len(),
{
    if s.len() > 0 {
        let n = s.len() - 1;
        lemma_count_contains(s, s.last());
        lemma_count_contains(t, s.last());
        lemma_count_contains(t, t.last());
        lemma_count_contains(s, t.last());
        assert(count(s, s.last()) > 0);
        assert(count(t, t.last()) > 0);
        let k = choose|k: int| 0 <= k < t.len() && t[k] == s.last();
        assert(t[k] <= t[n]);
        let m = choose|m: int| 0 <= m < s.len() && s[m] == t.last();
        assert(s[m] <= s[n]);
        assert(s.last() == t.last());
        assert forall|x: u8| #[trigger] count(s.drop_last(), x) == count(t.drop_last(), x) by {
            assert(count(s, x) == count(s.drop_last(), x) + ind(s.last() == x));
            assert(count(t, x) == count(t.drop_last(), x) + ind(t.last() == x));
        }
        lemma_sorted_counts_equal(s.drop_last(), t.drop_last());
        assert(s =~= s.drop_last().push(s.last()));
        assert(t =~= t.drop_last().push(t.last()));
    }
}

/// The sum over the values below `m` of their counts in `s`.
pub open spec fn letter_total(s: Seq<u8>, m: int) -> nat
    decreases m,
{
    if m <= 0 {
        0
    } else {
        letter_total(s, m - 1) + count(s, (m - 1) as u8)
    }
}

pub proof fn lemma_letter_total_push(s: Seq<u8>, v: u8, m: int)
    requires
        0 <= m <= 256,
    ensures
        letter_total(s.push(v), m) == letter_total(s, m) + ind(v < m),
    decreases m,
{
    if m > 0 {
        lemma_letter_total_push(s, v, m - 1);
        lemma_count_push(s, v, (m - 1) as u8);
    }
}

/// The counts of the values below `m` add up to at most the length, and to
/// the length when every element is below `m`.
pub proof fn lemma_letter_total_len(s: Seq<u8>, m: int)
    requires
        0 <= m <= 256,
    ensures
        letter_total(s, m) <= s.len(),
        (forall|k: int| 0 <= k < s.len() ==> (#[trigger] s[k]) < m) ==> letter_total(s, m) == s.len(),
    decreases s.len(),
{
    if s.len() == 0 {
        lemma_letter_total_zero(s, m);
    } else {
        lemma_letter_total_len(s.drop_last(), m);
        assert(s =~= s.drop_last().push(s.last()));
        lemma_letter_total_push(s.drop_last(), s.last(), m);
        if forall|k: int| 0 <= k < s.len() ==> (#[trigger] s[k]) < m {
            assert forall|k: int| 0 <= k < s.drop_last().len() implies (#[trigger] s.drop_last()[k]) < m by {
                assert(s.drop_last()[k] == s[k]);
            }
            assert(s[s.len() - 1] < m);
        }
    }
}

pub proof fn lemma_letter_total_zero(s: Seq<u8>, m: int)
    requires
        s.len() == 0,
    ensures
        letter_total(s, m) == 0,
    decreases m,
{
    if m > 0 {
        lemma_letter_total_zero(s, m - 1);
    }
}

/// Smaller counts give a smaller total.
pub proof fn lemma_letter_total_le(r: Seq<u8>, t: Seq<u8>, m: int, x: int)
    requires
        0 <= m <= 256,
        forall|y: u8| y < m ==> #[trigger] count(r, y) <= count(t, y),
    ensures
        letter_total(r, m) <= letter_total(t, m),
        0 <= x < m && count(r, x as u8) < count(t, x as u8) ==> letter_total(r, m) < letter_total(t, m),
    decreases m,
{
    if m > 0 {
        lemma_letter_total_le(r, t, m - 1, x);
        assert(count(r, (m - 1) as u8) <= count(t, (m - 1) as u8));
    }
}

} // verus!
