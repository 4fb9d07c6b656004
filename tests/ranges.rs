use puzzle_days::day05::{
    merge_ranges, parse_ingredients, parse_range, parse_ranges, part1_impl, part2_impl, Range,
    Ranges,
};

fn example() -> String {
    vec![
        "3-5", "10-14", "16-20", "12-18", "", "1", "5", "8", "11", "17", "32",
    ]
    .join("\n")
}

#[test]
fn day05_part1_example() {
    let res = part1_impl(example().as_bytes());
    assert_eq!(3, res)
}

#[test]
fn day05_part2_example() {
    let res = part2_impl(example().as_bytes());
    assert_eq!(14, res)
}

#[test]
fn parse_range_example() {
    let result = parse_range("123-456".as_bytes());
    assert_eq!(
        Some(Range {
            start: 123,
            end: 456
        }),
        result
    )
}

#[test]
fn range_contains() {
    let range = Range { start: 1, end: 2 };
    assert!(!range.contains(0));
    assert!(range.contains(1));
    assert!(range.contains(2));
    assert!(!range.contains(3));
}

#[test]
fn vec_ranges_contains_single() {
    let ranges = vec![Range { start: 1, end: 2 }];
    assert!(!ranges.contains(0));
    assert!(ranges.contains(1));
    assert!(ranges.contains(2));
    assert!(!ranges.contains(3));
}

#[test]
fn vec_ranges_contains_two() {
    let ranges = vec![Range { start: 1, end: 2 }, Range { start: 4, end: 5 }];
    assert!(!ranges.contains(0));
    assert!(ranges.contains(1));
    assert!(ranges.contains(2));
    assert!(!ranges.contains(3));
    assert!(ranges.contains(4));
    assert!(ranges.contains(5));
    assert!(!ranges.contains(6));
}

fn r(start: usize, end: usize) -> Range {
    Range { start, end }
}

#[test]
fn merge_example() {
    let merged = merge_ranges(vec![r(3, 5), r(10, 14), r(16, 20), r(12, 18)]);
    assert_eq!(vec![r(3, 5), r(10, 20)], merged);
    let hits = [1, 5, 8, 11, 17, 32]
        .iter()
        .filter(|x| merged.contains(**x))
        .count();
    assert_eq!(3, hits);
    assert_eq!(14, merged.iter().map(|x| x.size()).sum::<usize>());
}

#[test]
fn merge_edge_cases() {
    assert_eq!(Vec::<Range>::new(), merge_ranges(vec![]));
    assert_eq!(vec![r(4, 9)], merge_ranges(vec![r(4, 9)]));
    // nested, duplicated, unordered and touching ranges
    assert_eq!(vec![r(1, 10)], merge_ranges(vec![r(2, 3), r(1, 10), r(2, 3)]));
    assert_eq!(vec![r(1, 4)], merge_ranges(vec![r(3, 4), r(1, 2)]));
    assert_eq!(vec![r(1, 2), r(4, 5)], merge_ranges(vec![r(4, 5), r(1, 2)]));
    assert_eq!(
        vec![r(0, usize::MAX)],
        merge_ranges(vec![r(5, usize::MAX), r(0, 4)])
    );
}

#[test]
fn merge_is_idempotent() {
    let once = merge_ranges(vec![r(7, 9), r(1, 3), r(2, 5), r(11, 12), r(10, 10)]);
    assert_eq!(vec![r(1, 5), r(7, 12)], once);
    assert_eq!(once.clone(), merge_ranges(once));
}

#[test]
fn merge_matches_brute_force_cover() {
    let input = vec![r(5, 8), r(0, 1), r(7, 12), r(20, 20), r(14, 15), r(13, 13)];
    let merged = merge_ranges(input.clone());
    for x in 0..30usize {
        let brute = input.iter().any(|q| q.start <= x && x <= q.end);
        assert_eq!(brute, merged.contains(x));
    }
    let distinct = (0..30usize)
        .filter(|x| input.iter().any(|q| q.start <= *x && *x <= q.end))
        .count();
    assert_eq!(distinct, merged.iter().map(|x| x.size()).sum::<usize>());
    for w in merged.windows(2) {
        assert!(w[0].end + 1 < w[1].start);
    }
}

#[test]
fn range_lines() {
    assert_eq!(Some(r(5, 5)), parse_range(b"5-5"));
    assert_eq!(Some(r(5, 7)), parse_range(b"+5-7"));
    assert_eq!(None, parse_range(b"7-5"));
    assert_eq!(None, parse_range(b"57"));
    assert_eq!(None, parse_range(b"5-"));
    assert_eq!(None, parse_range(b"-5"));
    assert_eq!(None, parse_range(b"a-5"));
    assert_eq!(None, parse_range(b"5-6-7"));
}

#[test]
fn ranges_and_ingredients_blocks() {
    let input = b"10-12\nbad\n1-3\n\n2\nx\n11\n";
    assert_eq!(vec![r(1, 3), r(10, 12)], parse_ranges(input));
    assert_eq!(vec![2, 11], parse_ingredients(input));
    assert_eq!(Vec::<usize>::new(), parse_ingredients(b"1-3\n4"));
    assert_eq!(2, part1_impl(input));
    assert_eq!(6, part2_impl(input));
}
