//! A dial numbered `0..100`, starting at `50`, turned left (`L`) or right (`R`) by
//! the amount on each line; counting how often it lands on, or passes, `0`.

use vstd::prelude::*;
use crate::text::{lines, parse_i32, signed_value, split_lines};

verus! {

/// The turn that a line `L<n>` (negative) or `R<n>` (positive) writes, where `n`
/// reads as an `i32`; a left turn whose negation does not fit is none.
pub open spec fn delta_of_line(l: Seq<u8>) -> Option<i32> {
    if l.len() > 0 && (l[0] == 76u8 || l[0] == 82u8) {
        match signed_value(l.drop_first()) {
            Some(v) => if l[0] == 76u8 && i32::MIN < v <= i32::MAX {
                Some((-v) as i32)
            } else if l[0] == 82u8 && i32::MIN <= v <= i32::MAX {
                Some(v as i32)
            } else {
                None
            },
            None => None,
        }
    } else {
        None
    }
}

/// The turns that the lines `ls` write, lines that write none left out.
pub open spec fn deltas(ls: Seq<Seq<u8>>) -> Seq<i32>
    decreases ls.len(),
{
    if ls.len() == 0 {
        Seq::empty()
    } else {
        match delta_of_line(ls.last()) {
            Some(d) => deltas(ls.drop_last()).push(d),
            None => deltas(ls.drop_last()),
        }
    }
}

/// One turn, counting a landing on `0`: `(count, position)` to the next pair.
pub open spec fn landing_step(acc: (int, int), d: int) -> (int, int) {
    let p = (acc.1 + d) % 100;
    (acc.0 + if p == 0 {
        1int
    } else {
        0int
    }, p)
}

/// The number of times that a turn by `d` from `pos` passes or lands on `0`.
pub open spec fn crossings(pos: int, d: int) -> int {
    let np = pos + d;
    let r = np % 100;
    let windows = np / 100 - pos / 100;
    (if windows < 0 {
        -windows
    } else {
        windows
    }) + if d < 0 && r == 0 && pos == 0 {
        0int
    } else if d < 0 && r == 0 {
        1int
    } else if d < 0 && pos == 0 {
        -1int
    } else {
        0int
    }
}

/// One turn, counting every pass over `0`: `(count, position)` to the next pair.
pub open spec fn crossing_step(acc: (int, int), d: int) -> (int, int) {
    (acc.0 + crossings(acc.1, d), (acc.1 + d) % 100)
}

/// `(landings on 0, position)` after the turns `ds`, from `(0, 50)`.
pub open spec fn landings(ds: Seq<i32>) -> (int, int)
    decreases ds.len(),
{
    if ds.len() == 0 {
        (0, 50)
    } else {
        landing_step(landings(ds.drop_last()), ds.last() as int)
    }
}

/// `(passes over 0, position)` after the turns `ds`, from `(0, 50)`.
pub open spec fn passes(ds: Seq<i32>) -> (int, int)
    decreases ds.len(),
{
    if ds.len() == 0 {
        (0, 50)
    } else {
        crossing_step(passes(ds.drop_last()), ds.last() as int)
    }
}

/// A turn never takes a pass away.
pub proof fn lemma_crossings_nonnegative(pos: int, d: int)
    ensures
        crossings(pos, d) >= 0,
{
    if d < 0 && pos == 0 && (pos + d) % 100 != 0 {
        assert((pos + d) / 100 <= -1);
    }
}

proof fn lemma_counts_step(ds: Seq<i32>, n: int)
    requires
        0 < n <= ds.len(),
    ensures
        landings(ds.take(n - 1)).0 <= landings(ds.take(n)).0,
        passes(ds.take(n - 1)).0 <= passes(ds.take(n)).0,
{
    assert(ds.take(n).drop_last() =~= ds.take(n - 1));
    lemma_crossings_nonnegative(passes(ds.take(n - 1)).1, ds[n - 1] as int);
}

proof fn lemma_counts_grow(ds: Seq<i32>, n: int)
    requires
        0 <= n <= ds.len(),
    ensures
        landings(ds.take(n)).0 <= landings(ds).0,
        passes(ds.take(n)).0 <= passes(ds).0,
    decreases ds.len() - n,
{
    if n < ds.len() {
        lemma_counts_grow(ds, n + 1);
        lemma_counts_step(ds, n + 1);
    } else {
        assert(ds.take(n) =~= ds);
    }
}

/// Turns the dial by `direction`, counting a landing on `0`.
pub fn part1_folder(acc: (i32, i32), direction: i32) -> (r: (i32, i32))
    requires
        landing_step((acc.0 as int, acc.1 as int), direction as int).0 <= i32::MAX,
    ensures
        (r.0 as int, r.1 as int) == landing_step((acc.0 as int, acc.1 as int), direction as int),
{
    let (count, position) = acc;
    let moved = position as i64 + direction as i64;
    let new_position = match moved.checked_rem_euclid(100) {
        Some(p) => p,
        None => 0,
    };
    (count + if new_position == 0 {
        1
    } else {
        0
    }, new_position as i32)
}

/// Turns the dial by `direction`, counting every pass over `0`.
pub fn part2_folder(acc: (i32, i32), direction: i32) -> (r: (i32, i32))
    requires
        crossing_step((acc.0 as int, acc.1 as int), direction as int).0 <= i32::MAX,
    ensures
        (r.0 as int, r.1 as int) == crossing_step((acc.0 as int, acc.1 as int), direction as int),
{
    let (count, position) = acc;
    proof {
        lemma_crossings_nonnegative(position as int, direction as int);
    }
    let position = position as i64;
    let new_position = position + direction as i64;
    let new_position_rem = match new_position.checked_rem_euclid(100) {
        Some(p) => p,
        None => 0,
    };
    let new_window = match new_position.checked_div_euclid(100) {
        Some(q) => q,
        None => 0,
    };
    let old_window = match position.checked_div_euclid(100) {
        Some(q) => q,
        None => 0,
    };
    let windows = new_window - old_window;
    let correction: i64 = if direction < 0 && new_position_rem == 0 && position == 0 {
        0
    } else if direction < 0 && new_position_rem == 0 {
        1
    } else if direction < 0 && position == 0 {
        -1
    } else {
        0
    };
    let count_diff = (if windows < 0 {
        -windows
    } else {
        windows
    }) + correction;
    ((count as i64 + count_diff) as i32, new_position_rem as i32)
}

/// The turn that one line writes.
pub fn parse_line(line: &[u8]) -> (r: Option<i32>)
    ensures
        r == delta_of_line(line@),
{
    if line.len() > 0 && (line[0] == 76u8 || line[0] == 82u8) {
        let rest = vstd::slice::slice_subrange(line, 1, line.len());
        assert(rest@ =~= line@.drop_first());
        match parse_i32(rest) {
            Some(v) => if line[0] == 76u8 {
                if v == i32::MIN {
                    None
                } else {
                    Some(-v)
                }
            } else {
                Some(v)
            },
            None => None,
        }
    } else {
        None
    }
}

/// The turns that the lines of the input write.
pub fn parse_input(input: &[u8]) -> (r: Vec<i32>)
    ensures
        r@ == deltas(lines(input@)),
{
    let ls = split_lines(input);
    let ghost v = ls.deep_view();
    let mut r: Vec<i32> = Vec::new();
    let mut i: usize = 0;
    while i < ls.len()
        invariant
            i <= ls@.len(),
            v == ls.deep_view(),
            v.len() == ls@.len(),
            r@ == deltas(v.take(i as int)),
        decreases ls@.len() - i,
    {
        assert(v.take(i + 1).drop_last() =~= v.take(i as int));
        assert(v[i as int] == ls@[i as int].deep_view());
        assert(ls@[i as int].deep_view() =~= ls@[i as int]@);
        match parse_line(ls[i].as_slice()) {
            Some(d) => r.push(d),
            None => {},
        }
        i = i + 1;
    }
    assert(v.take(i as int) =~= v);
    r
}

/// How many turns of the input leave the dial on `0`.
pub fn part1_impl(input: &[u8]) -> (r: i32)
    requires
        landings(deltas(lines(input@))).0 <= i32::MAX,
    ensures
        r == landings(deltas(lines(input@))).0,
{
    let ds = parse_input(input);
    let mut acc: (i32, i32) = (0, 50);
    let mut i: usize = 0;
    while i < ds.len()
        invariant
            i <= ds@.len(),
            landings(ds@).0 <= i32::MAX,
            (acc.0 as int, acc.1 as int) == landings(ds@.take(i as int)),
        decreases ds@.len() - i,
    {
        assert(ds@.take(i + 1).drop_last() =~= ds@.take(i as int));
        proof {
            lemma_counts_grow(ds@, i + 1);
        }
        acc = part1_folder(acc, ds[i]);
        i = i + 1;
    }
    assert(ds@.take(i as int) =~= ds@);
    acc.0
}

/// How many times the turns of the input pass over or land on `0`.
pub fn part2_impl(input: &[u8]) -> (r: i32)
    requires
        passes(deltas(lines(input@))).0 <= i32::MAX,
    ensures
        r == passes(deltas(lines(input@))).0,
{
    let ds = parse_input(input);
    let mut acc: (i32, i32) = (0, 50);
    let mut i: usize = 0;
    while i < ds.len()
        invariant
            i <= ds@.len(),
            passes(ds@).0 <= i32::MAX,
            (acc.0 as int, acc.1 as int) == passes(ds@.take(i as int)),
        decreases ds@.len() - i,
    {
        assert(ds@.take(i + 1).drop_last() =~= ds@.take(i as int));
        proof {
            lemma_counts_grow(ds@, i + 1);
        }
        acc = part2_folder(acc, ds[i]);
        i = i + 1;
    }
    assert(ds@.take(i as int) =~= ds@);
    acc.0
}

} // verus!
