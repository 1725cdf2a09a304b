use tortordle::slice_subset::SliceSubset;

#[test]
fn test_from_slice() {
    {
        let small_array = [1i32, 2, 3, 4, 5];
        let subset = SliceSubset::from_slice(&small_array);
        assert!(subset.is_some());
        assert_eq!(subset.unwrap().bit_mask(), 0b00011111);
    }
    {
        let big_array = [42i32; 130];
        let subset = SliceSubset::from_slice(&big_array);
        assert!(subset.is_none());
    }
    {
        let empty_array = [0; 0];
        let subset = SliceSubset::from_slice(&empty_array);
        assert!(subset.is_some());
        let subset = subset.unwrap();
        assert!(subset.is_empty());
        assert_eq!(subset.len(), 0);
    }
}

#[test]
fn slice_subset_test_iter() {
    let ar = [1i32, 2, 3, 4, 5];
    let subset = SliceSubset::from_slice(&ar).unwrap();
    assert_eq!(subset.len(), 5);
    assert!(!subset.is_empty());
    let evens = subset.retained(|i| i % 2 == 0);
    let mut it = evens.iter();
    assert_eq!(it.next(), Some(&2));
    assert_eq!(it.next(), Some(&4));
    assert_eq!(it.next(), None);
    assert_eq!(it.next(), None);
}

#[test]
fn test_retained() {
    let ar = [0i32, 0, 0, 0, 2, 3, 0, 0, 4, 5, 0, 0, 0];
    let subset = SliceSubset::from_slice(&ar).unwrap();
    let non_zeroes = subset.retained(|i| *i != 0);
    assert_eq!(non_zeroes.len(), 4);
    let mut it = non_zeroes.iter();
    assert_eq!(it.next(), Some(&2));
    assert_eq!(it.next(), Some(&3));
    assert_eq!(it.next(), Some(&4));
    assert_eq!(it.next(), Some(&5));
    assert_eq!(it.next(), None);
    assert_eq!(it.next(), None);

    assert_eq!(non_zeroes.slice().len(), 6);
}

#[test]
fn test_retained_none() {
    let ar = [0i32, 0, 0, 0, 2, 3, 0, 0, 4, 5, 0, 0, 0];
    let subset = SliceSubset::from_slice(&ar).unwrap();
    let double_digits = subset.retained(|i| *i >= 10);
    assert_eq!(double_digits.len(), 0);
    assert_eq!(double_digits.slice().len(), 0);
    let mut it = double_digits.into_iter();
    assert_eq!(it.next(), None);
    assert_eq!(it.next(), None);
}

#[test]
fn test_large() {
    let ar: Vec<_> = { 1..124 }.collect();
    let subset = SliceSubset::from_slice(&ar).unwrap();

    let multiples_of_7 = subset.retained(|i| *i % 7 == 0);
    assert_eq!(multiples_of_7.len(), 17);
    assert_eq!(multiples_of_7.slice().len(), 119 - 7 + 1);

    let mut it = multiples_of_7.iter();
    for i in { 7..=119 }.step_by(7) {
        assert_eq!(it.next(), Some(&i));
    }
    assert_eq!(it.next(), None);
}

#[test]
fn full_capacity() {
    let ar: Vec<u32> = (0..128).collect();
    let subset = SliceSubset::from_slice(&ar).unwrap();
    assert_eq!(subset.bit_mask(), u128::MAX);
    assert_eq!(subset.len(), 128);
    let odd = subset.retained(|i| *i % 2 == 1);
    assert_eq!(odd.len(), 64);
    let mut it = subset.iter();
    for i in 0..128u32 {
        assert_eq!(it.next(), Some(&i));
    }
    assert_eq!(it.next(), None);
}

#[test]
fn iteration_yields_len_items() {
    let ar: Vec<i32> = (0..40).collect();
    let subset = SliceSubset::from_slice(&ar).unwrap();
    for modulus in [1, 2, 3, 7, 41] {
        let kept = subset.retained(|i| *i % modulus == 0 && *i > 0);
        let mut it = kept.iter();
        let mut yielded = 0;
        while it.next().is_some() {
            yielded += 1;
        }
        assert_eq!(yielded, kept.len(), "{modulus}");
        assert_eq!(kept.is_empty(), kept.len() == 0);
    }
}
