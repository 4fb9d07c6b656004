use puzzle_days::day04::{parse, part1_impl, part2_impl, remove_accessible};

fn example() -> String {
    vec![
        "..@@.@@@@.",
        "@@@.@.@.@@",
        "@@@@@.@.@@",
        "@.@@@@..@.",
        "@@.@@@@.@@",
        ".@@@@@@@.@",
        ".@.@.@.@@@",
        "@.@@@.@@@@",
        ".@@@@@@@@.",
        "@.@.@@@.@.",
    ]
    .join("\n")
}

#[test]
fn day04_part1_example() {
    let result = part1_impl(example().as_bytes());
    assert_eq!(13, result);
}

#[test]
fn day04_part2_example() {
    let result = part2_impl(example().as_bytes());
    assert_eq!(43, result);
}

#[test]
fn grid_parse_marks_rolls() {
    assert_eq!(vec![vec![false, true], vec![true, false]], parse(b".@\n@x"));
}

#[test]
fn erosion_uses_the_grid_before_the_pass() {
    // a full 3x3 block: corners have 3 neighbours, edges 5, the centre 8
    let mut map = vec![vec![true; 3]; 3];
    assert_eq!(4, remove_accessible(&mut map));
    assert_eq!(
        vec![
            vec![false, true, false],
            vec![true, true, true],
            vec![false, true, false],
        ],
        map
    );
    // the edges of the cross have 3 neighbours, its centre 4; then the centre is alone
    assert_eq!(4, remove_accessible(&mut map));
    assert_eq!(1, remove_accessible(&mut map));
    assert_eq!(0, remove_accessible(&mut map));
}

#[test]
fn erosion_on_empty_grid() {
    let mut map: Vec<Vec<bool>> = vec![];
    assert_eq!(0, remove_accessible(&mut map));
    assert_eq!(0, part2_impl(b""));
}
