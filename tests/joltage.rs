use puzzle_days::day03::{largest_joltage, parse_line, part1_impl, part2_impl};

#[test]
fn day03_part1_example() {
    let test_input = vec![
        "987654321111111",
        "811111111111119",
        "234234234234278",
        "818181911112111",
    ]
    .join("\n");
    let result = part1_impl(test_input.as_bytes());
    assert_eq!(357, result);
}

#[test]
fn day03_part2_example() {
    let test_input = vec![
        "987654321111111",
        "811111111111119",
        "234234234234278",
        "818181911112111",
    ]
    .join("\n");
    let result = part2_impl(test_input.as_bytes());
    assert_eq!(3121910778619, result);
}

#[test]
fn largest_joltage_one_digit() {
    let result = largest_joltage(&[1_u32], 1);
    assert_eq!(Some(1_u64), result);
}

#[test]
fn largest_joltage_two_digits_same_digit() {
    let result = largest_joltage(&[1_u32, 1_u32], 2);
    assert_eq!(Some(11_u64), result);
}

#[test]
fn largest_joltage_two_digits_no_choice() {
    let result = largest_joltage(&[1_u32, 9_u32], 2);
    assert_eq!(Some(19_u64), result);
}

#[test]
fn largest_joltage_two_digits_choice() {
    let result = largest_joltage(&[9_u32, 1_u32, 9_u32], 2);
    assert_eq!(Some(99_u64), result);
}

#[test]
fn largest_joltage_part2_example_separated() {
    assert_eq!(
        Some(987654321111_u64),
        largest_joltage(&[9, 8, 7, 6, 5, 4, 3, 2, 1, 1, 1, 1, 1, 1, 1], 12)
    );
    assert_eq!(
        Some(811111111119_u64),
        largest_joltage(&[8, 1, 1, 1, 1, 1, 1, 1, 1, 1, 1, 1, 1, 1, 9], 12)
    );
    assert_eq!(
        Some(434234234278_u64),
        largest_joltage(&[2, 3, 4, 2, 3, 4, 2, 3, 4, 2, 3, 4, 2, 7, 8], 12)
    );
    assert_eq!(
        Some(888911112111_u64),
        largest_joltage(&[8, 1, 8, 1, 8, 1, 9, 1, 1, 1, 1, 2, 1, 1, 1], 12)
    );
}

#[test]
fn largest_joltage_too_many_digits() {
    assert_eq!(None, largest_joltage(&[1, 2], 3));
    assert_eq!(None, largest_joltage(&[], 1));
}

#[test]
fn largest_joltage_zero_digits() {
    assert_eq!(Some(0), largest_joltage(&[5, 6], 0));
    assert_eq!(Some(0), largest_joltage(&[], 0));
}

#[test]
fn largest_joltage_single_is_max_digit() {
    assert_eq!(Some(9), largest_joltage(&[3, 9, 4, 9, 1], 1));
}

#[test]
fn largest_joltage_all_digits_is_the_number() {
    assert_eq!(Some(30491), largest_joltage(&[3, 0, 4, 9, 1], 5));
}

#[test]
fn largest_joltage_earliest_maximum_is_taken() {
    assert_eq!(Some(997), largest_joltage(&[9, 1, 9, 7], 3));
}

#[test]
fn joltage_line_keeps_only_digits() {
    assert_eq!(vec![1, 2, 3], parse_line(b"1a2 3\xc3\xa9"));
}

#[test]
fn joltage_short_lines_add_nothing() {
    assert_eq!(98 + 12, part1_impl(b"98\n7\n\n12\n"));
}
