use puzzle_days::day02::{concat_digits, concat_digits_many, parse, parse_next, part1_impl, part2_impl, IdRange};

fn example() -> String {
    [
        "11-22,95-115,998-1012,1188511880-1188511890,222220-222224,",
        "1698522-1698528,446443-446449,38593856-38593862,565653-565659,",
        "824824821-824824827,2121212118-2121212124",
    ]
    .concat()
}

#[test]
fn day02_part1_example() {
    let result = part1_impl(example().as_bytes());
    assert_eq!(1227775554, result);
}

#[test]
fn day02_part2_example() {
    let result = part2_impl(example().as_bytes());
    assert_eq!(4174379265, result);
}

#[test]
fn concat_digits_writes_twice() {
    assert_eq!(11, concat_digits(1));
    assert_eq!(1010, concat_digits(10));
    assert_eq!(123123, concat_digits(123));
    assert_eq!(1844618446, concat_digits(18446));
}

#[test]
fn id_range_contains() {
    let range = IdRange { start: 10, end: 12 };
    assert!(!range.contains(9));
    assert!(range.contains(10));
    assert!(range.contains(12));
    assert!(!range.contains(13));
}

#[test]
fn id_ranges_parse_until_first_bad_one() {
    assert_eq!(
        vec![IdRange { start: 1, end: 2 }, IdRange { start: 30, end: 40 }],
        parse(b"1-2,30-40")
    );
    assert_eq!(vec![IdRange { start: 1, end: 2 }], parse(b"1-2,x-4,5-6"));
    // a line break after the last end makes it unreadable
    assert_eq!(vec![IdRange { start: 1, end: 2 }], parse(b"1-2,3-4\n"));
    assert_eq!(Vec::<IdRange>::new(), parse(b""));
    assert_eq!(Vec::<IdRange>::new(), parse(b"12"));
}

#[test]
fn id_range_parse_next_moves_past_the_comma() {
    let input = b"5-6,7-8";
    let mut pos: usize = 0;
    assert_eq!(Some(IdRange { start: 5, end: 6 }), parse_next(input, &mut pos));
    assert_eq!(4, pos);
    assert_eq!(Some(IdRange { start: 7, end: 8 }), parse_next(input, &mut pos));
    assert_eq!(7, pos);
    assert_eq!(None, parse_next(input, &mut pos));
}

#[test]
fn silly_ids_counted_once() {
    // 1111 is "11" twice and "1" four times; 111 is "1" three times
    assert_eq!(0, part1_impl(b"111-111"));
    assert_eq!(111, part2_impl(b"111-111"));
    assert_eq!(1111, part1_impl(b"1111-1111"));
    assert_eq!(1111, part2_impl(b"1111-1111"));
    // overlapping ranges count an id once
    assert_eq!(1111, part2_impl(b"1100-1200,1111-1111"));
    assert_eq!(1111, part1_impl(b"1100-1200,1111-1111"));
}

#[test]
fn silly_ids_empty_input() {
    assert_eq!(0, part1_impl(b""));
    assert_eq!(0, part2_impl(b""));
}

#[test]
fn concat_digits_many_stops_at_max() {
    assert_eq!(vec![1212, 121212], concat_digits_many(12, 1_000_000));
    assert_eq!(vec![11, 111, 1111], concat_digits_many(1, 1111));
    assert_eq!(Vec::<u64>::new(), concat_digits_many(5, 54));
    assert_eq!(19, concat_digits_many(1, u64::MAX).len());
}
