//! Battery banks: the largest number that keeps `k` of a line's digits, in order.

use vstd::prelude::*;
use crate::text::{lemma_pow10_monotone, lines, pow10, split_lines};

verus! {

/// Every entry is a decimal digit.
pub open spec fn all_digits(s: Seq<u32>) -> bool {
    forall|i: int| 0 <= i < s.len() ==> #[trigger] s[i] <= 9
}

/// The largest entry of a non-empty sequence.
pub open spec fn max_digit(s: Seq<u32>) -> nat
    decreases s.len(),
{
    if s.len() <= 1 {
        if s.len() == 1 {
            s[0] as nat
        } else {
            0
        }
    } else if s.last() > max_digit(s.drop_last()) {
        s.last() as nat
    } else {
        max_digit(s.drop_last())
    }
}

/// The first index among `s[0..w]` that holds the largest entry there.
pub open spec fn first_max_index(s: Seq<u32>, w: int) -> int
    decreases w,
{
    if w <= 1 {
        0
    } else {
        let i = first_max_index(s, w - 1);
        if s[w - 1] > s[i] {
            w - 1
        } else {
            i
        }
    }
}

/// The largest `k`-digit number that keeps `k` digits of `s` in their order: the
/// first digit is the first occurrence of the largest digit that still leaves
/// `k - 1` digits after it, the rest is chosen the same way from what follows.
/// There is none when `k` exceeds the number of digits.
pub open spec fn select(s: Seq<u32>, k: nat) -> Option<nat>
    decreases k,
{
    if k > s.len() {
        None
    } else if k == 1 {
        Some(max_digit(s))
    } else if k == 0 {
        Some(0)
    } else {
        let i = first_max_index(s, s.len() - (k - 1));
        match select(s.subrange(i + 1, s.len() as int), (k - 1) as nat) {
            Some(rest) => Some((s[i] as nat) * pow10((k - 1) as nat) + rest),
            None => None,
        }
    }
}

/// The number that the digits of `s` write, most significant first.
pub open spec fn number_of(s: Seq<u32>) -> nat
    decreases s.len(),
{
    if s.len() == 0 {
        0
    } else {
        (s[0] as nat) * pow10((s.len() - 1) as nat) + number_of(s.drop_first())
    }
}

proof fn lemma_first_max_index(s: Seq<u32>, w: int)
    requires
        1 <= w <= s.len(),
    ensures
        0 <= first_max_index(s, w) < w,
        forall|j: int| 0 <= j < w ==> #[trigger] s[j] <= s[first_max_index(s, w)],
    decreases w,
{
    if w > 1 {
        lemma_first_max_index(s, w - 1);
    }
}

proof fn lemma_max_digit_bound(s: Seq<u32>)
    requires
        all_digits(s),
    ensures
        max_digit(s) <= 9,
    decreases s.len(),
{
    if s.len() > 1 {
        lemma_max_digit_bound(s.drop_last());
    }
}

proof fn lemma_select_bound(s: Seq<u32>, k: nat)
    requires
        all_digits(s),
        k <= s.len(),
    ensures
        select(s, k).is_some(),
        select(s, k).unwrap() < pow10(k),
    decreases k,
{
    if k == 1 {
        lemma_max_digit_bound(s);
        assert(pow10(1) == 10 * pow10(0));
    } else if k >= 2 {
        let i = first_max_index(s, s.len() - (k - 1));
        lemma_first_max_index(s, s.len() - (k - 1));
        let t = s.subrange(i + 1, s.len() as int);
        lemma_select_bound(t, (k - 1) as nat);
        let rest = select(t, (k - 1) as nat).unwrap();
        let p = pow10((k - 1) as nat);
        assert(s[i] <= 9);
        assert(s[i] * p + rest < 10 * p) by (nonlinear_arith)
            requires
                s[i] <= 9,
                rest < p,
        ;
    }
}

/// Keeping every digit gives the number that the digits write.
pub proof fn lemma_select_all(s: Seq<u32>)
    ensures
        select(s, s.len()) == Some(number_of(s)),
    decreases s.len(),
{
    if s.len() == 1 {
        assert(s.drop_first().len() == 0);
        assert(pow10(0) == 1);
        assert(number_of(s.drop_first()) == 0);
        assert(pow10((s.len() - 1) as nat) == 1);
        assert(number_of(s) == (s[0] as nat) * pow10((s.len() - 1) as nat) + number_of(s.drop_first()));
        assert(number_of(s) == s[0] as nat);
    } else if s.len() >= 2 {
        assert(first_max_index(s, 1) == 0);
        assert(s.subrange(1, s.len() as int) =~= s.drop_first());
        lemma_select_all(s.drop_first());
        assert(select(s, s.len()) == Some((s[0] as nat) * pow10((s.len() - 1) as nat) + number_of(s.drop_first())));
    }
}

/// Keeping a single digit gives the largest digit.
pub proof fn lemma_select_one(s: Seq<u32>)
    requires
        s.len() >= 1,
    ensures
        select(s, 1) == Some(max_digit(s)),
{
}

/// Asking for more digits than there are gives nothing.
pub proof fn lemma_select_too_many(s: Seq<u32>, k: nat)
    requires
        k > s.len(),
    ensures
        select(s, k) is None,
{
}

/// `10` to the power `n`, for `n <= 19`.
fn pow10_u64(n: usize) -> (r: u64)
    requires
        n <= 19,
    ensures
        r == pow10(n as nat),
{
    let mut r: u64 = 1;
    let mut i: usize = 0;
    while i < n
        invariant
            i <= n <= 19,
            r == pow10(i as nat),
        decreases n - i,
    {
        proof {
            lemma_pow10_bound((i + 1) as nat);
        }
        r = r * 10;
        i = i + 1;
    }
    r
}

proof fn lemma_pow10_bound(n: nat)
    requires
        n <= 19,
    ensures
        pow10(n) <= 10_000_000_000_000_000_000,
{
    lemma_pow10_monotone(n, 19);
    reveal_with_fuel(pow10, 20);
}

/// The first index among `line[0..w]` that holds the largest digit there.
fn first_max(line: &[u32], w: usize) -> (r: usize)
    requires
        1 <= w <= line@.len(),
    ensures
        r == first_max_index(line@, w as int),
{
    let mut best: usize = 0;
    let mut i: usize = 1;
    while i < w
        invariant
            1 <= i <= w <= line@.len(),
            best == first_max_index(line@, i as int),
        decreases w - i,
    {
        proof {
            lemma_first_max_index(line@, i as int);
        }
        if line[i] > line[best] {
            best = i;
        }
        i = i + 1;
    }
    best
}

/// The largest digit of a non-empty line.
fn max_of(line: &[u32]) -> (r: u32)
    requires
        line@.len() >= 1,
    ensures
        r == max_digit(line@),
{
    let mut best: u32 = line[0];
    let mut i: usize = 1;
    while i < line.len()
        invariant
            1 <= i <= line@.len(),
            best == max_digit(line@.take(i as int)),
        decreases line@.len() - i,
    {
        assert(line@.take(i + 1).drop_last() =~= line@.take(i as int));
        if line[i] > best {
            best = line[i];
        }
        i = i + 1;
    }
    assert(line@.take(i as int) =~= line@);
    best
}

/// The largest number that keeps `digits` of the line's digits in order, or
/// `None` when the line has fewer digits than that.
pub fn largest_joltage(line: &[u32], digits: usize) -> (r: Option<u64>)
    requires
        all_digits(line@),
        digits > line@.len() || digits <= 19,
    ensures
        r matches Some(v) ==> select(line@, digits as nat) == Some(v as nat),
        r is None ==> select(line@, digits as nat) is None,
    decreases digits,
{
    if digits > line.len() {
        return None;
    }
    if digits == 1 {
        return Some(max_of(line) as u64);
    }
    if digits == 0 {
        return Some(0);
    }
    let digits = digits - 1;
    let index = first_max(line, line.len() - digits);
    proof {
        lemma_first_max_index(line@, line@.len() - digits);
        lemma_select_bound(line@, (digits + 1) as nat);
        lemma_select_bound(line@.subrange(index + 1, line@.len() as int), digits as nat);
    }
    let first_digit = line[index] as u64;
    let p = pow10_u64(digits);
    let rest_line = vstd::slice::slice_subrange(line, index + 1, line.len());
    let rest = largest_joltage(rest_line, digits);
    match rest {
        Some(rest) => {
            proof {
                lemma_pow10_bound((digits + 1) as nat);
                assert(select(line@, (digits + 1) as nat) == Some((first_digit * p + rest) as nat));
            }
            let head = first_digit * p;
            Some(head + rest)
        },
        None => None,
    }
}


/// The decimal digits of a line, in order, other bytes left out.
pub open spec fn digits_of(l: Seq<u8>) -> Seq<u32>
    decreases l.len(),
{
    if l.len() == 0 {
        Seq::empty()
    } else if 48u8 <= l.last() <= 57u8 {
        digits_of(l.drop_last()).push((l.last() - 48u8) as u32)
    } else {
        digits_of(l.drop_last())
    }
}

/// The sum, over lines, of the largest `k`-digit number each keeps; a line with
/// fewer than `k` digits adds nothing.
pub open spec fn joltage_total(ls: Seq<Seq<u8>>, k: nat) -> nat
    decreases ls.len(),
{
    if ls.len() == 0 {
        0
    } else {
        joltage_total(ls.drop_last(), k) + match select(digits_of(ls.last()), k) {
            Some(v) => v,
            None => 0,
        }
    }
}

proof fn lemma_digits_of_are_digits(l: Seq<u8>)
    ensures
        all_digits(digits_of(l)),
    decreases l.len(),
{
    if l.len() > 0 {
        lemma_digits_of_are_digits(l.drop_last());
    }
}

/// The decimal digits of a line.
pub fn parse_line(line: &[u8]) -> (r: Vec<u32>)
    ensures
        r@ == digits_of(line@),
        all_digits(r@),
{
    let mut r: Vec<u32> = Vec::new();
    let mut i: usize = 0;
    while i < line.len()
        invariant
            i <= line@.len(),
            r@ == digits_of(line@.take(i as int)),
        decreases line@.len() - i,
    {
        assert(line@.take(i + 1).drop_last() =~= line@.take(i as int));
        let b = line[i];
        if 48u8 <= b && b <= 57u8 {
            r.push((b - 48u8) as u32);
        }
        i = i + 1;
    }
    assert(line@.take(i as int) =~= line@);
    proof {
        lemma_digits_of_are_digits(line@);
    }
    r
}

/// The digits of each line of the input.
pub fn parse(input: &[u8]) -> (r: Vec<Vec<u32>>)
    ensures
        r.deep_view() == lines(input@).map_values(|l: Seq<u8>| digits_of(l)),
{
    let ls = split_lines(input);
    let ghost v = ls.deep_view();
    let mut r: Vec<Vec<u32>> = Vec::new();
    let mut i: usize = 0;
    while i < ls.len()
        invariant
            i <= ls@.len(),
            v == ls.deep_view(),
            v.len() == ls@.len(),
            r@.len() == i,
            r.deep_view() == v.take(i as int).map_values(|l: Seq<u8>| digits_of(l)),
        decreases ls@.len() - i,
    {
        let d = parse_line(ls[i].as_slice());
        let ghost before = r.deep_view();
        let ghost old_r = r@;
        assert(d.deep_view() =~= d@);
        r.push(d);
        assert(r.deep_view() =~= v.take(i + 1).map_values(|l: Seq<u8>| digits_of(l))) by {
            assert(v[i as int] == ls@[i as int].deep_view());
            assert(ls@[i as int].deep_view() =~= ls@[i as int]@);
            assert forall|k: int| 0 <= k < r@.len() implies r.deep_view()[k] == v.take(i + 1).map_values(|l: Seq<u8>| digits_of(l))[k] by {
                if k < i {
                    assert(r@[k] == old_r[k]);
                    assert(before[k] == old_r[k].deep_view());
                }
            }
        }
        i = i + 1;
    }
    assert(v.take(i as int) =~= v);
    r
}

/// The sum, over the lines of the input, of the largest `digits`-digit number
/// each keeps.
fn total_joltage(input: &[u8], digits: usize) -> (r: u64)
    requires
        digits <= 19,
        joltage_total(lines(input@), digits as nat) <= u64::MAX,
    ensures
        r == joltage_total(lines(input@), digits as nat),
{
    let banks = parse(input);
    let ghost ls = lines(input@);
    assert(banks.deep_view().len() == banks@.len());
    let mut total: u64 = 0;
    let mut i: usize = 0;
    while i < banks.len()
        invariant
            i <= banks@.len() == ls.len(),
            digits <= 19,
            banks.deep_view() == ls.map_values(|l: Seq<u8>| digits_of(l)),
            joltage_total(ls, digits as nat) <= u64::MAX,
            total == joltage_total(ls.take(i as int), digits as nat),
        decreases banks@.len() - i,
    {
        assert(ls.take(i + 1).drop_last() =~= ls.take(i as int));
        assert(banks.deep_view()[i as int] == banks@[i as int].deep_view());
        assert(banks@[i as int].deep_view() =~= banks@[i as int]@);
        assert(banks@[i as int]@ == digits_of(ls[i as int]));
        proof {
            lemma_digits_of_are_digits(ls[i as int]);
            lemma_joltage_total_prefix(ls, i + 1, digits as nat);
        }
        let value = largest_joltage(banks[i].as_slice(), digits);
        match value {
            Some(v) => {
                total = total + v;
            },
            None => {},
        }
        i = i + 1;
    }
    assert(ls.take(i as int) =~= ls);
    total
}

proof fn lemma_joltage_total_prefix(ls: Seq<Seq<u8>>, n: int, k: nat)
    requires
        0 <= n <= ls.len(),
    ensures
        joltage_total(ls.take(n), k) <= joltage_total(ls, k),
    decreases ls.len() - n,
{
    if n < ls.len() {
        lemma_joltage_total_prefix(ls, n + 1, k);
        assert(ls.take(n + 1).drop_last() =~= ls.take(n));
    } else {
        assert(ls.take(n) =~= ls);
    }
}

/// The sum over the lines of the largest two-digit number each keeps.
pub fn part1_impl(input: &[u8]) -> (r: u64)
    requires
        joltage_total(lines(input@), 2) <= u64::MAX,
    ensures
        r == joltage_total(lines(input@), 2),
{
    total_joltage(input, 2)
}

/// The sum over the lines of the largest twelve-digit number each keeps.
pub fn part2_impl(input: &[u8]) -> (r: u64)
    requires
        joltage_total(lines(input@), 12) <= u64::MAX,
    ensures
        r == joltage_total(lines(input@), 12),
{
    total_joltage(input, 12)
}

} // verus!
