use puzzlekit::joltage::{build_suffix_max_array, find_joltage_2, find_joltage_k, input_from_str, solve_problem_1, solve_problem_2};

#[test]
fn test_suffix_array() {
    let test_cases = [
        ("123", vec![3, 3, 3]),
        ("987654321", vec![9, 8, 7, 6, 5, 4, 3, 2, 1]),
        ("54321678", vec![8, 8, 8, 8, 8, 8, 8, 8]),
        ("5555", vec![5, 5, 5, 5]),
        (
            "987654321111111",
            vec![9, 8, 7, 6, 5, 4, 3, 2, 1, 1, 1, 1, 1, 1, 1],
        ),
        (
            "811111111111119",
            vec![9, 9, 9, 9, 9, 9, 9, 9, 9, 9, 9, 9, 9, 9, 9],
        ),
        (
            "234234234234278",
            vec![8, 8, 8, 8, 8, 8, 8, 8, 8, 8, 8, 8, 8, 8, 8],
        ),
        (
            "818181911112111",
            vec![9, 9, 9, 9, 9, 9, 9, 2, 2, 2, 2, 2, 1, 1, 1],
        ),
    ];

    for (input, expected) in test_cases {
        let digits = input_from_str(input).unwrap();
        let result = build_suffix_max_array(&digits);
        assert_eq!(result, expected);
    }
}

#[test]
fn test_joltage_examples() {
    let test_cases = vec![
        ("987654321111111", 98),
        ("811111111111119", 89),
        ("234234234234278", 78),
        ("818181911112111", 92),
    ];

    for (input, expected_joltage) in test_cases {
        let digits = input_from_str(input).expect("should parse input");
        let joltage = find_joltage_2(&digits);
        assert_eq!(
            joltage, expected_joltage,
            "Failed for input: {}, expected: {}, got: {}",
            input, expected_joltage, joltage
        );
    }
}

#[test]
fn test_joltage_k() {
    let test_cases = vec![
        ("5432111119871", 4, 9871),
        ("5432111119871", 5, 59871),
        ("987654321", 3, 987),
        ("987654321", 5, 98765),
        ("811111111111119", 3, 819),
        ("811111111111119", 12, 811111111119),
        ("123456789", 5, 56789),
        ("999888777", 5, 99988),
        ("111119", 3, 119),
        ("987654321111111", 12, 987654321111),
        ("35355591115431111", 6, 954311),
    ];

    for (input, k, expected) in test_cases {
        let digits = input_from_str(input).expect("should parse input");
        let result = find_joltage_k(&digits, k);
        assert_eq!(
            result, expected,
            "Failed for input: {}, k: {}, expected: {}, got: {}",
            input, k, expected, result
        );
    }
}

#[test]
fn test_joltage_k_edge_cases() {
    let digits = input_from_str("123456789").unwrap();
    assert_eq!(find_joltage_k(&digits, 1), 9);

    let digits = input_from_str("54321").unwrap();
    assert_eq!(find_joltage_k(&digits, 5), 54321);

    let digits = input_from_str("5555").unwrap();
    assert_eq!(find_joltage_k(&digits, 2), 55);
}

#[test]
fn test_line_totals() {
    let lines: Vec<Vec<u8>> = vec![b"987654321111111".to_vec(), b"811111111111119".to_vec()];
    assert_eq!(solve_problem_1(&lines).unwrap(), 98 + 89);
    assert_eq!(
        solve_problem_2(&lines).unwrap(),
        987654321111 + 811111111119
    );
    let bad: Vec<Vec<u8>> = vec![b"12a3456789112".to_vec()];
    assert!(solve_problem_1(&bad).is_err());
}
