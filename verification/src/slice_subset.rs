//! An immutable slice with a bit mask of the indexes still present, so that
//! the same elements can be filtered over and over without copying them.

use vstd::prelude::*;

use crate::bits::{
    bit128, lemma_bit128_reset, ones128, u128_bit_any, u128_bit_none, u128_bit_reset,
    u128_count_ones, u128_leading_zeros, u128_trailing_zeros,
};

verus! {

/// The elements of `s` below position `n` whose bit is set in `m`, in order.
pub open spec fn selected<T>(s: Seq<T>, m: u128, n: int) -> Seq<T>
    decreases n,
{
    if n <= 0 {
        Seq::empty()
    } else {
        selected(s, m, n - 1) + if bit128(m, (n - 1) as u32) {
            seq![s[n - 1]]
        } else {
            Seq::empty()
        }
    }
}

/// No bit of `m` is set from position `n` on.
pub open spec fn bits_below(m: u128, n: int) -> bool {
    forall|j: u32| n <= j < 128 ==> !#[trigger] bit128(m, j)
}

/// No bit of `m` is set below position `n`.
pub open spec fn bits_from(m: u128, n: int) -> bool {
    forall|j: u32| j < n ==> !#[trigger] bit128(m, j)
}

/// A non-zero integer has a set bit.
pub proof fn lemma_nonzero_has_bit(x: u128) -> (j: u32)
    requires
        x != 0,
    ensures
        j < 128,
        bit128(x, j),
    decreases x,
{
    if x & 1u128 == 1u128 {
        assert((x >> 0u32) & 1u128 == x & 1u128) by (bit_vector);
        0
    } else {
        let y = x >> 1u32;
        assert(y != 0 && y < x) by (bit_vector)
            requires
                y == x >> 1u32,
                x != 0,
                x & 1u128 != 1u128,
        ;
        let k = lemma_nonzero_has_bit(y);
        assert((y >> 127u32) & 1u128 == 0u128) by (bit_vector)
            requires
                y == x >> 1u32,
        ;
        assert(((x >> 1u32) >> k) & 1u128 == (x >> (k + 1) as u32) & 1u128) by (bit_vector)
            requires
                k < 127,
        ;
        (k + 1) as u32
    }
}

/// Only the bits of `m` at positions in `[f, l]` matter, and shifting the
/// window to the start keeps the selection.
proof fn lemma_selected_from<T>(s: Seq<T>, m: u128, f: int, n: int)
    requires
        0 <= f <= n,
        bits_from(m, f),
    ensures
        selected(s, m, f) == Seq::<T>::empty(),
    decreases f,
{
    if f > 0 {
        lemma_selected_from(s, m, f - 1, n);
    }
}

proof fn lemma_selected_shift<T>(s: Seq<T>, m: u128, f: int, k: int)
    requires
        0 <= f,
        0 <= k,
        f + k <= s.len(),
        f + k <= 128,
        bits_from(m, f),
    ensures
        selected(s.subrange(f, s.len() as int), m >> (f as u32), k) == selected(s, m, f + k),
    decreases k,
{
    if k == 0 {
        lemma_selected_from(s, m, f, f);
    } else {
        lemma_selected_shift(s, m, f, k - 1);
        let ff = f as u32;
        let kk = (k - 1) as u32;
        assert(((m >> ff) >> kk) & 1u128 == (m >> ((ff + kk) as u32)) & 1u128) by (bit_vector)
            requires
                ff + kk < 128,
        ;
    }
}

proof fn lemma_selected_prefix<T>(s: Seq<T>, t: Seq<T>, m: u128, k: int)
    requires
        0 <= k <= s.len(),
        k <= t.len(),
        forall|i: int| 0 <= i < k ==> s[i] == t[i],
    ensures
        selected(s, m, k) == selected(t, m, k),
    decreases k,
{
    if k > 0 {
        lemma_selected_prefix(s, t, m, k - 1);
    }
}

proof fn lemma_selected_above<T>(s: Seq<T>, m: u128, l: int, n: int)
    requires
        0 <= l <= n <= 128,
        bits_below(m, l),
    ensures
        selected(s, m, n) == selected(s, m, l),
    decreases n,
{
    if n > l {
        lemma_selected_above(s, m, l, n - 1);
    }
}

/// The selection counts the set bits.
proof fn lemma_selected_len<T>(s: Seq<T>, m: u128, n: int)
    requires
        0 <= n <= 128,
    ensures
        selected(s, m, n).len() == ones128(m, n as nat),
    decreases n,
{
    if n > 0 {
        lemma_selected_len(s, m, n - 1);
    }
}

/// Taking out the lowest set bit takes out the first selected element.
proof fn lemma_selected_lowest<T>(s: Seq<T>, m: u128, t: u32, n: int)
    requires
        t < 128,
        t < n <= 128,
        n <= s.len(),
        bit128(m, t),
        bits_from(m, t as int),
    ensures
        selected(s, m, n) == seq![s[t as int]] + selected(s, m & !(1u128 << t), n),
    decreases n,
{
    let m2 = m & !(1u128 << t);
    if n == t + 1 {
        lemma_selected_from(s, m, t as int, t as int);
        assert forall|j: u32| j < t implies !#[trigger] bit128(m2, j) by {
            lemma_bit128_reset(m, t, j);
        }
        lemma_selected_from(s, m2, t as int, t as int);
        lemma_bit128_reset(m, t, t);
        assert(selected(s, m2, n) =~= Seq::<T>::empty());
    } else {
        lemma_selected_lowest(s, m, t, n - 1);
        lemma_bit128_reset(m, t, (n - 1) as u32);
    }
}

pub struct SliceSubset<'a, T> {
    slice: &'a [T],
    bit_mask: u128,
}

impl<'a, T> Clone for SliceSubset<'a, T> {
    fn clone(&self) -> (r: Self)
        ensures
            r == *self,
    {
        SliceSubset { slice: self.slice, bit_mask: self.bit_mask }
    }
}

impl<'a, T> View for SliceSubset<'a, T> {
    type V = Seq<T>;

    /// The elements still present, in order.
    closed spec fn view(&self) -> Seq<T> {
        selected(self.slice@, self.bit_mask, self.slice@.len() as int)
    }
}

impl<'a, T> SliceSubset<'a, T> {
    pub const MAX_CAPACITY: usize = 128;

    /// The underlying slice.
    pub closed spec fn items(&self) -> Seq<T> {
        self.slice@
    }

    /// The mask of present indexes.
    pub closed spec fn mask(&self) -> u128 {
        self.bit_mask
    }

    /// The slice fits the mask, and no bit is set past its end.
    pub closed spec fn wf(&self) -> bool {
        &&& self.slice@.len() <= 128
        &&& bits_below(self.bit_mask, self.slice@.len() as int)
    }

    /// All of a slice of at most 128 elements, its mask setting the lowest
    /// `len` bits; `None` for a longer one.
    pub fn from_slice(slice: &'a [T]) -> (r: Option<SliceSubset<'a, T>>)
        ensures
            r is Some <==> slice@.len() <= 128,
            r matches Some(sub) ==> sub.wf() && sub.items() == slice@ && sub@ == slice@,
            r matches Some(sub) ==> forall|j: u32| j < 128 ==> (#[trigger] bit128(sub.mask(), j) == (j < slice@.len())),
    {
        if slice.len() <= 128 {
            let bit_mask: u128 = if slice.len() == 128 {
                let all: u128 = 0xffff_ffff_ffff_ffff_ffff_ffff_ffff_ffffu128;
                proof {
                    assert forall|j: u32| j < 128 implies #[trigger] bit128(all, j) by {
                        assert((all >> j) & 1u128 == 1u128) by (bit_vector)
                            requires
                                j < 128,
                                all == 0xffff_ffff_ffff_ffff_ffff_ffff_ffff_ffffu128,
                        ;
                    }
                }
                all
            } else {
                let n = slice.len() as u32;
                assert(n < 128);
                assert((1u128 << n) >= 1u128) by (bit_vector)
                    requires
                        n < 128,
                ;
                let m: u128 = (1u128 << n) - 1;
                proof {
                    assert forall|j: u32| j < 128 implies #[trigger] bit128(m, j) == (j < n) by {
                        assert((m >> j) & 1u128 == 1u128 <==> j < n) by (bit_vector)
                            requires
                                n < 128,
                                j < 128,
                                m == ((1u128 << n) - 1u128) as u128,
                        ;
                    }
                }
                m
            };
            let r = SliceSubset { slice, bit_mask };
            proof {
                let n = slice@.len() as int;
                assert forall|j: u32| j < 128 implies #[trigger] bit128(bit_mask, j) == (j < n) by {}
                assert forall|k: int| 0 <= k <= n implies selected(slice@, bit_mask, k) == slice@.take(k) by {
                    lemma_selected_all(slice@, bit_mask, k);
                }
                assert(slice@.take(n) =~= slice@);
            }
            Some(r)
        } else {
            None
        }
    }

    /// The mask of present indexes.
    pub fn bit_mask(&self) -> (r: u128)
        ensures
            r == self.mask(),
    {
        self.bit_mask
    }

    /// The underlying slice.
    pub fn slice(&self) -> (r: &'a [T])
        ensures
            r@ == self.items(),
    {
        self.slice
    }

    pub fn is_empty(&self) -> (r: bool)
        requires
            self.wf(),
        ensures
            r == (self@.len() == 0),
    {
        let r = u128_bit_none(self.bit_mask);
        proof {
            lemma_selected_len(self.slice@, self.bit_mask, self.slice@.len() as int);
            if !r {
                let j = lemma_nonzero_has_bit(self.bit_mask);
                lemma_ones_positive(self.bit_mask, j, self.slice@.len() as nat);
            } else {
                lemma_ones_zero(self.bit_mask, self.slice@.len() as nat);
            }
        }
        r
    }

    pub fn len(&self) -> (r: usize)
        requires
            self.wf(),
        ensures
            r == self@.len(),
    {
        let r = u128_count_ones(self.bit_mask);
        proof {
            lemma_selected_len(self.slice@, self.bit_mask, self.slice@.len() as int);
            lemma_selected_len(self.slice@, self.bit_mask, 128);
            lemma_selected_above(self.slice@, self.bit_mask, self.slice@.len() as int, 128);
        }
        r as usize
    }
}

/// Within the first `n` positions, a set bit makes a set-bit count positive.
proof fn lemma_ones_positive(x: u128, j: u32, n: nat)
    requires
        j < n <= 128,
        bit128(x, j),
    ensures
        ones128(x, n) > 0,
    decreases n,
{
    if n > j + 1 {
        lemma_ones_positive(x, j, (n - 1) as nat);
    }
}

/// Zero has no set bits.
proof fn lemma_ones_zero(x: u128, n: nat)
    requires
        x == 0,
        n <= 128,
    ensures
        ones128(x, n) == 0,
    decreases n,
{
    if n > 0 {
        lemma_ones_zero(x, (n - 1) as nat);
        let k = (n - 1) as u32;
        assert((0u128 >> k) & 1u128 == 0u128) by (bit_vector);
    }
}

/// With every bit below `k` set, the first `k` elements are all selected.
proof fn lemma_selected_all<T>(s: Seq<T>, m: u128, k: int)
    requires
        0 <= k <= s.len(),
        k <= 128,
        forall|j: u32| j < k ==> #[trigger] bit128(m, j),
    ensures
        selected(s, m, k) == s.take(k),
    decreases k,
{
    if k > 0 {
        lemma_selected_all(s, m, k - 1);
        assert(s.take(k) =~= s.take(k - 1) + seq![s[k - 1]]);
    }
}

/// Nothing is selected by an empty mask.
proof fn lemma_selected_zero<T>(s: Seq<T>, n: int)
    requires
        0 <= n,
    ensures
        selected(s, 0u128, n) == Seq::<T>::empty(),
    decreases n,
{
    if n > 0 {
        lemma_selected_zero(s, n - 1);
        let k = (n - 1) as u32;
        assert((0u128 >> k) & 1u128 == 0u128) by (bit_vector);
    }
}

impl<'a, T> SliceSubset<'a, T> {
    /// Keeps the present elements for which `f` holds. The result's slice
    /// runs from the first kept element to the last, or is empty when none
    /// is kept.
    pub fn retained<F: Fn(&T) -> bool>(&self, f: F) -> (r: Self)
        requires
            self.wf(),
            forall|i: int| 0 <= i < self.items().len() ==> f.requires((&self.items()[i],)),
        ensures
            r.wf(),
            exists|kept: u128|
                #![trigger selected(self.items(), kept, self.items().len() as int)]
                {
                    &&& bits_below(kept, self.items().len() as int)
                    &&& forall|j: u32| j < 128 && #[trigger] bit128(kept, j) ==> bit128(self.mask(), j) && f.ensures(
                        (&self.items()[j as int],),
                        true,
                    )
                    &&& forall|j: u32| j < 128 && #[trigger] bit128(self.mask(), j) && !bit128(kept, j) ==> f.ensures(
                        (&self.items()[j as int],),
                        false,
                    )
                    &&& r@ == selected(self.items(), kept, self.items().len() as int)
                    &&& kept == 0 ==> r.items().len() == 0 && r.mask() == 0
                    &&& kept != 0 ==> exists|first: u32, last: u32|
                        #![trigger bit128(kept, first), bit128(kept, last)]
                        {
                            &&& first <= last < self.items().len()
                            &&& bit128(kept, first)
                            &&& bit128(kept, last)
                            &&& bits_from(kept, first as int)
                            &&& bits_below(kept, last + 1)
                            &&& r.items() == self.items().subrange(first as int, last + 1)
                            &&& r.mask() == kept >> first
                        }
                },
    {
        let slice = self.slice;
        let mut bit_mask = self.bit_mask;
        let mut bits_to_visit = self.bit_mask;
        let ghost n = slice@.len();
        while u128_bit_any(bits_to_visit)
            invariant
                slice@ == self.items(),
                n == slice@.len(),
                n <= 128,
                bits_below(self.bit_mask, n as int),
                forall|i: int| 0 <= i < n ==> f.requires((&self.items()[i],)),
                forall|j: u32| j < 128 && #[trigger] bit128(bits_to_visit, j) ==> bit128(self.bit_mask, j) && bit128(bit_mask, j),
                forall|j: u32| j < 128 && #[trigger] bit128(bit_mask, j) ==> bit128(self.bit_mask, j),
                forall|j: u32| j < 128 && #[trigger] bit128(self.bit_mask, j) && !bit128(bits_to_visit, j) ==> (bit128(bit_mask, j)
                    ==> f.ensures((&slice@[j as int],), true)) && (!bit128(bit_mask, j) ==> f.ensures((&slice@[j as int],), false)),
            decreases bits_to_visit,
        {
            let index = u128_trailing_zeros(bits_to_visit);
            assert(bit128(self.bit_mask, index));
            let keep = f(&slice[index as usize]);
            let ghost before_mask = bit_mask;
            if !keep {
                u128_bit_reset(&mut bit_mask, index as usize);
            }
            let ghost before_visit = bits_to_visit;
            u128_bit_reset(&mut bits_to_visit, index as usize);
            proof {
                let b = before_visit;
                assert(b & !(1u128 << index) < b) by (bit_vector)
                    requires
                        index < 128,
                        (b >> index) & 1u128 == 1u128,
                ;
                assert forall|j: u32| j < 128 implies #[trigger] bit128(bits_to_visit, j) == (j != index && bit128(before_visit, j)) by {
                    lemma_bit128_reset(before_visit, index, j);
                }
                assert forall|j: u32| j < 128 implies #[trigger] bit128(bit_mask, j) == (if keep {
                    bit128(before_mask, j)
                } else {
                    j != index && bit128(before_mask, j)
                }) by {
                    lemma_bit128_reset(before_mask, index, j);
                }
            }
        }
        let ghost kept = bit_mask;
        proof {
            assert forall|j: u32| n <= j < 128 implies !#[trigger] bit128(kept, j) by {
                if bit128(kept, j) {
                    assert(bit128(self.bit_mask, j));
                }
            }
            assert forall|j: u32| j < 128 && #[trigger] bit128(self.mask(), j) && !bit128(kept, j) implies f.ensures(
                (&self.items()[j as int],),
                false,
            ) by {
                assert(!bit128(bits_to_visit, j)) by {
                    assert((0u128 >> j) & 1u128 == 0u128) by (bit_vector);
                }
            }
            assert forall|j: u32| j < 128 && #[trigger] bit128(kept, j) implies bit128(self.mask(), j) && f.ensures(
                (&self.items()[j as int],),
                true,
            ) by {
                assert(!bit128(bits_to_visit, j)) by {
                    assert((0u128 >> j) & 1u128 == 0u128) by (bit_vector);
                }
            }
        }
        if u128_bit_none(bit_mask) {
            let r = SliceSubset { slice: &slice[0..0], bit_mask };
            proof {
                lemma_selected_zero(slice@, n as int);
                lemma_selected_zero(r.slice@, 0);
                assert forall|j: u32| 0 <= j < 128 implies !#[trigger] bit128(bit_mask, j) by {
                    assert((0u128 >> j) & 1u128 == 0u128) by (bit_vector);
                }
                assert(r@ == selected(self.items(), kept, self.items().len() as int));
                assert(r.wf());
            }
            r
        } else {
            let first = u128_trailing_zeros(bit_mask);
            let lz = u128_leading_zeros(bit_mask);
            let last = 127 - lz;
            assert(bit128(self.bit_mask, last));
            assert(last < n);
            let sub = &slice[first as usize..last as usize + 1];
            let new_mask = bit_mask >> first;
            let r = SliceSubset { slice: sub, bit_mask: new_mask };
            proof {
                let k = last + 1 - first;
                assert(first <= last) by {
                    if first > last {
                        assert(!bit128(bit_mask, last));
                    }
                }
                assert forall|j: u32| k <= j < 128 implies !#[trigger] bit128(new_mask, j) by {
                    let ff = first;
                    assert(((bit_mask >> ff) >> j) & 1u128 == 0u128 || ((ff + j) < 128 && (bit_mask >> ((ff + j) as u32)) & 1u128 == 1u128)) by (bit_vector)
                        requires
                            ff < 128,
                            j < 128,
                    ;
                    if ff + j < 128 {
                        assert(!bit128(bit_mask, (ff + j) as u32));
                    }
                }
                lemma_selected_shift(slice@, bit_mask, first as int, k as int);
                lemma_selected_prefix(sub@, slice@.subrange(first as int, n as int), new_mask, k as int);
                lemma_selected_above(slice@, bit_mask, last + 1, n as int);
                assert(bits_below(bit_mask, last + 1));
                assert(sub@ =~= self.items().subrange(first as int, last + 1));
                assert(r@ == selected(self.items(), kept, self.items().len() as int));
                assert(bits_from(kept, first as int));
                assert(r.wf());
                assert(bit128(kept, first) && bit128(kept, last));
            }
            r
        }
    }
}

/// The present elements of a `SliceSubset`, in order.
pub struct Iter<'a, T> {
    slice_subset: &'a SliceSubset<'a, T>,
    bits_to_visit: u128,
}

impl<'a, T> View for Iter<'a, T> {
    type V = Seq<T>;

    /// The elements not yet visited, in order.
    closed spec fn view(&self) -> Seq<T> {
        selected(self.slice_subset.slice@, self.bits_to_visit, self.slice_subset.slice@.len() as int)
    }
}

impl<'a, T> Iter<'a, T> {
    pub closed spec fn wf(&self) -> bool {
        &&& self.slice_subset.wf()
        &&& bits_below(self.bits_to_visit, self.slice_subset.slice@.len() as int)
    }

    /// The next present element.
    pub fn next(&mut self) -> (r: Option<&'a T>)
        requires
            old(self).wf(),
        ensures
            final(self).wf(),
            old(self)@.len() == 0 ==> r is None && final(self)@ == old(self)@,
            old(self)@.len() > 0 ==> (r matches Some(v) && *v == old(self)@[0] && final(self)@ == old(self)@.drop_first()),
    {
        let index = u128_trailing_zeros(self.bits_to_visit);
        let ghost s = self.slice_subset.slice@;
        let ghost n = s.len() as int;
        if index < 128 {
            assert(index < n) by {
                if index >= n {
                    assert(!bit128(self.bits_to_visit, index));
                }
            }
            let v = &self.slice_subset.slice[index as usize];
            let ghost before = self.bits_to_visit;
            u128_bit_reset(&mut self.bits_to_visit, index as usize);
            proof {
                lemma_selected_lowest(s, before, index, n);
                assert(selected(s, before, n).drop_first() =~= selected(s, self.bits_to_visit, n));
                assert forall|j: u32| n <= j < 128 implies !#[trigger] bit128(self.bits_to_visit, j) by {
                    lemma_bit128_reset(before, index, j);
                }
            }
            Some(v)
        } else {
            proof {
                lemma_selected_zero(s, n);
            }
            None
        }
    }
}

impl<'a, T> SliceSubset<'a, T> {
    pub fn iter(&'a self) -> (r: Iter<'a, T>)
        requires
            self.wf(),
        ensures
            r.wf(),
            r@ == self@,
    {
        Iter { slice_subset: self, bits_to_visit: self.bit_mask }
    }

    pub fn into_iter(&'a self) -> (r: Iter<'a, T>)
        requires
            self.wf(),
        ensures
            r.wf(),
            r@ == self@,
    {
        self.iter()
    }
}

/// No more elements are selected than there are positions.
proof fn lemma_selected_len_le<T>(s: Seq<T>, m: u128, n: int)
    requires
        0 <= n,
    ensures
        selected(s, m, n).len() <= n,
    decreases n,
{
    if n > 0 {
        lemma_selected_len_le(s, m, n - 1);
    }
}

impl<'a, T> SliceSubset<'a, T> {
    /// A subset holds at most 128 elements.
    pub proof fn lemma_len_bound(&self)
        requires
            self.wf(),
        ensures
            self@.len() <= 128,
    {
        lemma_selected_len_le(self.slice@, self.bit_mask, self.slice@.len() as int);
    }
}

/// How many items `k` calls of `next` yield from an iterator whose view is
/// `v`: a call on a non-empty view yields its first item and drops it, a
/// call on an empty view yields nothing.
pub open spec fn yielded_count<T>(v: Seq<T>, k: nat) -> nat
    decreases k,
{
    if k == 0 || v.len() == 0 {
        0
    } else {
        1 + yielded_count(v.drop_first(), (k - 1) as nat)
    }
}

/// Each call of `next` yields an item until the view runs out.
pub proof fn lemma_yielded_count<T>(v: Seq<T>, k: nat)
    ensures
        yielded_count(v, k) == if k <= v.len() {
            k
        } else {
            v.len()
        },
    decreases k,
{
    if k > 0 && v.len() > 0 {
        lemma_yielded_count(v.drop_first(), (k - 1) as nat);
    }
}

impl<'a, T> SliceSubset<'a, T> {
    /// Iterating a subset yields `len()` items: however often `next` is
    /// called on `iter()`, whose view is the subset's, no more than `len()`
    /// items come, and `len()` calls bring all of them; `is_empty()` holds
    /// exactly where `len()` is 0, that is where nothing is yielded.
    pub proof fn lemma_iteration_yields_len(&self, k: nat)
        requires
            self.wf(),
        ensures
            yielded_count(self@, k) == if k <= self@.len() {
                k
            } else {
                self@.len()
            },
            (self@.len() == 0) == (yielded_count(self@, k + 1) == 0),
    {
        lemma_yielded_count(self@, k);
        lemma_yielded_count(self@, k + 1);
    }
}

} // verus!
