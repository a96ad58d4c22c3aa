use combat_collisions::digits::{high_part, times};

fn number(digits: &[u32], base: u128) -> u128 {
    digits.iter().rev().fold(0, |n, d| n * base + *d as u128)
}

#[test]
fn times_multiplies_in_place_value() {
    assert_eq!(times(&vec![1], 100, 99), vec![99]);
    assert_eq!(times(&vec![99], 100, 99), vec![1, 98]);
    assert_eq!(times(&vec![1, 98], 100, 99), vec![99, 2, 97]);
    assert_eq!(times(&vec![5, 4, 3], 10, 2), vec![0, 9, 6]);
    assert_eq!(times(&vec![9, 9], 10, 9), vec![1, 9, 8]);
}

#[test]
fn times_by_nothing_and_of_nothing() {
    assert_eq!(number(&times(&vec![7, 3], 10, 0), 10), 0);
    assert_eq!(number(&times(&vec![], 10, 5), 10), 0);
    assert_eq!(number(&times(&vec![0, 0], 10, 5), 10), 0);
    assert_eq!(times(&vec![7, 3], 10, 1), vec![7, 3]);
}

#[test]
fn times_carries_a_large_factor_out() {
    let product = times(&vec![98, 98], 99, u32::MAX);
    assert_eq!(number(&product, 99), (98 + 98 * 99) * u32::MAX as u128);
    assert!(product.iter().all(|d| *d < 99));
    let product = times(&vec![1, 0, 1], 2, 0x8000_0000);
    assert_eq!(number(&product, 2), 5 * 0x8000_0000);
}

#[test]
fn repeated_times_is_a_power() {
    let mut digits = vec![1];
    for _ in 0..15 {
        digits = times(&digits, 100, 99);
    }
    assert_eq!(number(&digits, 100), 99u128.pow(15));
    assert_eq!(high_part(&digits, 100, 14, 1000), 86);
    assert_eq!(high_part(&digits, 100, 15, 1000), 0);
}

#[test]
fn high_part_cuts_low_digits_off() {
    let digits = vec![4, 3, 2, 1];
    assert_eq!(high_part(&digits, 10, 0, 10_000), 1234);
    assert_eq!(high_part(&digits, 10, 1, 10_000), 123);
    assert_eq!(high_part(&digits, 10, 3, 10_000), 1);
    assert_eq!(high_part(&digits, 10, 4, 10_000), 0);
    assert_eq!(high_part(&digits, 10, 9, 10_000), 0);
    assert_eq!(high_part(&vec![], 10, 0, 10_000), 0);
}

#[test]
fn high_part_stops_at_the_cap() {
    let digits = vec![4, 3, 2, 1];
    assert_eq!(high_part(&digits, 10, 0, 1234), 1234);
    assert_eq!(high_part(&digits, 10, 0, 1000), 1000);
    assert_eq!(high_part(&digits, 10, 1, 100), 100);
    assert_eq!(high_part(&digits, 10, 1, 0), 0);
    assert_eq!(high_part(&vec![0, 0, 0, 0, 0, 0, 0, 0, 0, 0, 0, 0, 0, 0, 0, 1], 0x1_0000, 0, 77), 77);
}
