use puzzlekit::repeats::{collect_invalid_numbers, divisors, is_twice_repeated, smallest_repeating_pattern};

fn test_data() -> [(u64, u64, &'static [u64]); 8] {
    [
        (11, 22, &[11, 22]),
        (95, 115, &[99]),
        (998, 1012, &[1010]),
        (1188511880, 1188511890, &[1188511885]),
        (222220, 222224, &[222222]),
        (1698522, 1698528, &[]),
        (446443, 446449, &[446446]),
        (38593856, 38593862, &[38593859]),
    ]
}

#[test]
fn test_is_twice_repeated() {
    assert!(is_twice_repeated(123123));
    assert!(is_twice_repeated(1188511885));
    assert!(is_twice_repeated(1212));
    assert!(is_twice_repeated(11));
    assert!(is_twice_repeated(00));

    assert!(!is_twice_repeated(123456));
    assert!(!is_twice_repeated(1234));
    assert!(!is_twice_repeated(123));
    assert!(!is_twice_repeated(12));
}

#[test]
fn test_collect_invalid_numbers() {
    for (low, high, expected) in test_data() {
        assert_eq!(
            collect_invalid_numbers(low, high, is_twice_repeated),
            expected
        );
    }
}

#[test]
fn validate_test_data() {
    let mut acc: u64 = 0;
    for (low, high, _expected) in test_data() {
        acc += collect_invalid_numbers(low, high, is_twice_repeated)
            .iter()
            .sum::<u64>();
    }
    assert_eq!(acc, 1227775554);
}

#[test]
fn test_has_repeating_pattern() {
    assert_eq!(smallest_repeating_pattern(123123), Some(123));
    assert_eq!(smallest_repeating_pattern(12121212), Some(12));
    assert_eq!(smallest_repeating_pattern(1212), Some(12));
    assert_eq!(smallest_repeating_pattern(123412341234), Some(1234));
    assert_eq!(smallest_repeating_pattern(111111), Some(1));
    assert_eq!(smallest_repeating_pattern(11), Some(1));
    assert_eq!(smallest_repeating_pattern(1188511885), Some(11885));

    assert_eq!(smallest_repeating_pattern(123456), None);
    assert_eq!(smallest_repeating_pattern(1234), None);
    assert_eq!(smallest_repeating_pattern(123), None);
    assert_eq!(smallest_repeating_pattern(12345678), None);
}

#[test]
fn test_divisors() {
    assert_eq!(divisors(20), vec![1, 2, 4, 5, 10]);
    assert_eq!(divisors(30), vec![1, 2, 3, 5, 6, 10, 15]);
    assert_eq!(divisors(36), vec![1, 2, 3, 4, 6, 9, 12, 18]);
    assert_eq!(divisors(1), vec![1]);
    assert_eq!(divisors(0), vec![]);
}

#[test]
fn test_range_sums() {
    let ranges = vec![(11u64, 22u64), (95, 115)];
    assert_eq!(puzzlekit::repeats::solve_problem_1(&ranges), 11 + 22 + 99);
    // A backwards range holds no numbers and contributes nothing.
    let with_empty = vec![(22u64, 11u64), (95, 115)];
    assert_eq!(puzzlekit::repeats::solve_problem_1(&with_empty), 99);
}
