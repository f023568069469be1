use geometry::decimal::{
    cleared, difference_of, digits_of, extended, is_below, lowest, plus, power_of_ten,
    scaled_digits, sum_of, times_small,
};

fn number_of(digits: &[u8]) -> u128 {
    let mut n: u128 = 0;
    for d in digits.iter().rev() {
        assert!(*d < 10);
        n = n * 10 + *d as u128;
    }
    n
}

#[test]
fn digits_of_gives_the_digits_lowest_first() {
    assert_eq!(digits_of(0), Vec::<u8>::new());
    assert_eq!(digits_of(7), vec![7]);
    assert_eq!(digits_of(1203), vec![3, 0, 2, 1]);
    assert_eq!(number_of(&digits_of(u128::MAX)), u128::MAX);
    assert_eq!(digits_of(u128::MAX).len(), 39);
}

#[test]
fn times_small_multiplies() {
    assert_eq!(times_small(&vec![9, 9], 9), vec![1, 9, 8]);
    assert_eq!(times_small(&vec![5], 2), vec![0, 1]);
    assert_eq!(times_small(&vec![3, 0, 2, 1], 0), vec![0, 0, 0, 0]);
    let mut n: u128 = 1;
    while n < 1_000_000_000_000_000_000_000_000_000 {
        let mut k: u8 = 0;
        while k <= 9 {
            assert_eq!(number_of(&times_small(&digits_of(n), k)), n * k as u128);
            k += 1;
        }
        n = n * 7 + 3;
    }
}

#[test]
fn scaled_digits_multiplies_by_a_power() {
    assert_eq!(number_of(&scaled_digits(3, 5, 4)), 3 * 625);
    assert_eq!(number_of(&scaled_digits(1, 2, 100)), 1u128 << 100);
    assert_eq!(number_of(&scaled_digits(12345, 5, 0)), 12345);
    assert_eq!(number_of(&scaled_digits(0, 5, 10)), 0);
    // 2^1000 has 302 digits and ends in 9376.
    let large = scaled_digits(1, 2, 1000);
    assert_eq!(large.len(), 302);
    assert_eq!(&large[..4], &[6, 7, 3, 9]);
}

#[test]
fn sums_and_differences() {
    assert_eq!(sum_of(&vec![9, 9], &vec![1, 0]), vec![0, 0, 1]);
    assert_eq!(number_of(&plus(&digits_of(999), &digits_of(1))), 1000);
    assert_eq!(number_of(&plus(&digits_of(5), &digits_of(123456))), 123461);
    let (difference, under) = difference_of(&vec![0, 0, 1], &vec![1, 0, 0]);
    assert_eq!((difference, under), (vec![9, 9, 0], false));
    let (wrapped, under) = difference_of(&vec![1, 0, 0], &vec![0, 0, 1]);
    assert_eq!((wrapped, under), (vec![1, 0, 9], true));
    let (zero, under) = difference_of(&vec![4, 2], &vec![4, 2]);
    assert_eq!((zero, under), (vec![0, 0], false));
}

#[test]
fn is_below_orders_numbers_whatever_their_zeros_in_front() {
    assert!(is_below(&digits_of(99), &digits_of(100)));
    assert!(!is_below(&digits_of(100), &digits_of(99)));
    assert!(!is_below(&digits_of(100), &digits_of(100)));
    assert!(is_below(&vec![9, 9, 0, 0, 0], &vec![0, 0, 1]));
    assert!(!is_below(&vec![0, 0, 1, 0], &vec![0, 0, 1]));
    assert!(is_below(&vec![], &vec![1]));
    assert!(!is_below(&vec![], &vec![0, 0]));
}

#[test]
fn extended_puts_zeros_in_front() {
    assert_eq!(extended(&vec![1, 2], 4), vec![1, 2, 0, 0]);
    assert_eq!(extended(&vec![1, 2], 1), vec![1, 2]);
    assert_eq!(extended(&vec![], 2), vec![0, 0]);
}

#[test]
fn cleared_and_lowest_part_a_number_at_a_place() {
    assert_eq!(cleared(&vec![4, 3, 2, 1], 2), vec![0, 0, 2, 1]);
    assert_eq!(lowest(&vec![4, 3, 2, 1], 2), vec![4, 3]);
    assert_eq!(cleared(&vec![4, 3, 2, 1], 0), vec![4, 3, 2, 1]);
    assert_eq!(lowest(&vec![4, 3, 2, 1], 0), Vec::<u8>::new());
    assert_eq!(cleared(&vec![4, 3, 2, 1], 4), vec![0, 0, 0, 0]);
    assert_eq!(lowest(&vec![4, 3, 2, 1], 4), vec![4, 3, 2, 1]);
    assert_eq!(power_of_ten(0), vec![1]);
    assert_eq!(power_of_ten(3), vec![0, 0, 0, 1]);
}
