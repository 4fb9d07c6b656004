use puzzle_days::day01::{parse_input, parse_line, part1_folder, part1_impl, part2_folder, part2_impl};

#[test]
fn day01_part1_example() {
    let example_data = vec![
        "L68", "L30", "R48", "L5", "R60", "L55", "L1", "L99", "R14", "L82",
    ]
    .join("\n");
    let result = part1_impl(example_data.as_bytes());
    assert_eq!(3, result);
}

#[test]
fn day01_part2_example() {
    let example_data = vec![
        "L68", "L30", "R48", "L5", "R60", "L55", "L1", "L99", "R14", "L82",
    ]
    .join("\n");
    let result = part2_impl(example_data.as_bytes());
    assert_eq!(6, result);
}

#[test]
fn part2_lands_on_0() {
    let example_data = vec!["L100", "L150", "R1"].join("\n");
    let result = part2_impl(example_data.as_bytes());
    assert_eq!(3, result);
}

#[test]
fn part2_lands_on_0_again() {
    let example_data = vec!["L100", "L150", "R1", "L1"].join("\n");
    let result = part2_impl(example_data.as_bytes());
    assert_eq!(4, result);
}

#[test]
fn part2_lands_on_0_again_then_leaves() {
    let example_data = vec!["L100", "L150", "R1", "L1", "L1"].join("\n");
    let result = part2_impl(example_data.as_bytes());
    assert_eq!(4, result);
}

#[test]
fn dial_line_parsing() {
    assert_eq!(Some(-68), parse_line(b"L68"));
    assert_eq!(Some(48), parse_line(b"R48"));
    assert_eq!(Some(5), parse_line(b"R+5"));
    assert_eq!(Some(5), parse_line(b"L-5"));
    assert_eq!(None, parse_line(b"X5"));
    assert_eq!(None, parse_line(b"L"));
    assert_eq!(None, parse_line(b""));
    assert_eq!(None, parse_line(b"R2147483648"));
    assert_eq!(None, parse_line(b"L-2147483648"));
    assert_eq!(Some(-2147483647), parse_line(b"L2147483647"));
}

#[test]
fn dial_input_skips_malformed_lines_and_crlf() {
    assert_eq!(vec![-3, 7], parse_input(b"L3\r\nbad\n\nR7\n"));
    assert_eq!(Vec::<i32>::new(), parse_input(b""));
}

#[test]
fn dial_folders() {
    assert_eq!((1, 0), part1_folder((0, 50), -50));
    assert_eq!((0, 99), part1_folder((0, 50), 49));
    assert_eq!((2, 0), part1_folder((1, 0), 300));
    // from 50, right 1000 passes zero ten times
    assert_eq!((10, 50), part2_folder((0, 50), 1000));
    // leaving zero to the left does not count
    assert_eq!((0, 95), part2_folder((0, 0), -5));
    // landing on zero from the right counts once
    assert_eq!((1, 0), part2_folder((0, 50), -50));
    // from zero, left 100 lands on zero again
    assert_eq!((1, 0), part2_folder((0, 0), -100));
    assert_eq!((1, 0), part2_folder((0, 99), 1));
}
