//! Silly product ids: ids whose decimal digits are a block written twice (or, in
//! the second reading, two or more times), summed over those that lie in the
//! given id ranges.

use vstd::prelude::*;
use crate::text::{find_byte, find_from, lemma_find_byte_bounds, lemma_pow10_monotone, parse_unsigned, pow10, unsigned_value};

verus! {

/// A closed range of ids, `start..=end`.
#[derive(PartialEq, Eq, Structural, Clone, Copy, Debug)]
pub struct IdRange {
    pub start: u64,
    pub end: u64,
}

impl IdRange {
    /// Whether `number` lies in the range.
    pub fn contains(&self, number: u64) -> (r: bool)
        ensures
            r == (self.start <= number <= self.end),
    {
        self.start <= number && number <= self.end
    }
}

/// The ranges `start-end`, separated by `,`, written from position `p` on; reading
/// stops at the first one that does not read as two `u64` numbers.
pub open spec fn ranges_from(t: Seq<u8>, p: int) -> Seq<IdRange>
    decreases t.len() + 1 - p
    via ranges_from_decreases
{
    if p < 0 || p >= t.len() {
        Seq::empty()
    } else {
        let d = find_byte(t, 45u8, p);
        let c = find_byte(t, 44u8, d + 1);
        if d >= t.len() {
            Seq::empty()
        } else {
            match (unsigned_value(t.subrange(p, d)), unsigned_value(t.subrange(d + 1, c))) {
                (Some(a), Some(b)) => if a <= u64::MAX && b <= u64::MAX {
                    seq![IdRange { start: a as u64, end: b as u64 }] + ranges_from(t, c + 1)
                } else {
                    Seq::empty()
                },
                _ => Seq::empty(),
            }
        }
    }
}

#[via_fn]
proof fn ranges_from_decreases(t: Seq<u8>, p: int) {
    if 0 <= p < t.len() {
        lemma_find_byte_bounds(t, 45u8, p);
        let d = find_byte(t, 45u8, p);
        if d < t.len() {
            lemma_find_byte_bounds(t, 44u8, d + 1);
        }
    }
}

/// Reads the range that starts at `*pos` and moves `*pos` past it and its `,`.
pub fn parse_next(input: &[u8], pos: &mut usize) -> (r: Option<IdRange>)
    requires
        *old(pos) <= input@.len(),
    ensures
        *final(pos) <= input@.len(),
        r matches Some(range) ==> *old(pos) < *final(pos) && ranges_from(input@, *old(pos) as int)
            == seq![range] + ranges_from(input@, *final(pos) as int),
        r is None ==> ranges_from(input@, *old(pos) as int) == Seq::<IdRange>::empty(),
{
    let p = *pos;
    if p >= input.len() {
        return None;
    }
    let dash = find_from(input, 45u8, p);
    if dash >= input.len() {
        return None;
    }
    let comma = find_from(input, 44u8, dash + 1);
    let start = parse_unsigned(vstd::slice::slice_subrange(input, p, dash), u64::MAX);
    let end = parse_unsigned(vstd::slice::slice_subrange(input, dash + 1, comma), u64::MAX);
    match (start, end) {
        (Some(a), Some(b)) => {
            *pos = if comma < input.len() {
                comma + 1
            } else {
                comma
            };
            proof {
                if comma == input.len() {
                    assert(ranges_from(input@, comma + 1) == Seq::<IdRange>::empty());
                    assert(ranges_from(input@, comma as int) == Seq::<IdRange>::empty());
                }
            }
            Some(IdRange { start: a, end: b })
        },
        _ => None,
    }
}

/// The ranges that the input writes.
pub fn parse(input: &[u8]) -> (r: Vec<IdRange>)
    ensures
        r@ == ranges_from(input@, 0),
{
    let mut res: Vec<IdRange> = Vec::new();
    let mut pos: usize = 0;
    loop
        invariant
            pos <= input@.len(),
            ranges_from(input@, 0) == res@ + ranges_from(input@, pos as int),
        decreases input@.len() + 1 - pos,
    {
        let ghost before = pos;
        match parse_next(input, &mut pos) {
            Some(range) => {
                let ghost old_res = res@;
                res.push(range);
                assert(old_res + (seq![range] + ranges_from(input@, pos as int)) =~= res@
                    + ranges_from(input@, pos as int));
            },
            None => {
                assert(res@ + ranges_from(input@, before as int) =~= res@);
                return res;
            },
        }
    }
}


/// The number of decimal digits of `n` (one for `0`).
pub open spec fn num_digits(n: nat) -> nat
    decreases n,
{
    if n < 10 {
        1
    } else {
        1 + num_digits(n / 10)
    }
}

/// What `n` is multiplied by to make room for one more copy of itself.
pub open spec fn shift(n: nat) -> nat {
    pow10(num_digits(n))
}

/// The number whose digits are those of `i` written `k` times.
pub open spec fn repeated(i: nat, k: nat) -> nat
    decreases k,
{
    if k <= 1 {
        i
    } else {
        repeated(i, (k - 1) as nat) * shift(i) + i
    }
}

/// The number whose digits are those of `i` written twice.
pub open spec fn doubled(i: nat) -> nat {
    repeated(i, 2)
}

/// `n` lies in one of the ranges `rs`.
pub open spec fn in_some(rs: Seq<IdRange>, n: int) -> bool {
    exists|k: int| 0 <= k < rs.len() && (#[trigger] rs[k]).start <= n <= rs[k].end
}

/// The largest end among the ranges, `0` when there are none.
pub open spec fn max_end(rs: Seq<IdRange>) -> nat
    decreases rs.len(),
{
    if rs.len() == 0 {
        0
    } else if rs.last().end > max_end(rs.drop_last()) {
        rs.last().end as nat
    } else {
        max_end(rs.drop_last())
    }
}

/// The sum of `doubled(i)` over `1 <= i <= m` for those that lie in a range.
pub open spec fn doubled_sum(rs: Seq<IdRange>, m: int) -> nat
    decreases m,
{
    if m <= 0 {
        0
    } else {
        doubled_sum(rs, m - 1) + if in_some(rs, doubled(m as nat) as int) {
            doubled(m as nat)
        } else {
            0
        }
    }
}

proof fn lemma_doubled_value(i: nat)
    ensures
        doubled(i) == i * shift(i) + i,
        shift(i) <= doubled(i) || shift(i) == 10,
{
    assert(repeated(i, 1) == i);
    if i == 0 {
        assert(num_digits(0) == 1);
        assert(pow10(1) == 10 * pow10(0));
    } else {
        let s = shift(i);
        assert(i * s + i >= s) by (nonlinear_arith)
            requires
                i >= 1,
        ;
    }
}

proof fn lemma_num_digits_monotone(a: nat, b: nat)
    requires
        a <= b,
    ensures
        1 <= num_digits(a) <= num_digits(b),
    decreases b,
{
    if b >= 10 && a >= 10 {
        lemma_num_digits_monotone(a / 10, b / 10);
    } else if b >= 10 {
        lemma_num_digits_monotone(0, b / 10);
    }
}

proof fn lemma_shift_bounds(a: nat, b: nat)
    requires
        a <= b,
    ensures
        10 <= shift(a) <= shift(b),
{
    lemma_num_digits_monotone(a, b);
    lemma_pow10_monotone(1, num_digits(a));
    lemma_pow10_monotone(num_digits(a), num_digits(b));
    assert(pow10(1) == 10 * pow10(0));
}

/// Writing a number one more time makes it larger.
proof fn lemma_repeated_grows(i: nat, k: nat)
    requires
        i >= 1,
        k >= 1,
    ensures
        repeated(i, k) < repeated(i, k + 1),
        repeated(i, k) >= i,
    decreases k,
{
    lemma_shift_bounds(i, i);
    if k > 1 {
        lemma_repeated_grows(i, (k - 1) as nat);
    }
    let x = repeated(i, k);
    assert(x * shift(i) >= x) by (nonlinear_arith)
        requires
            shift(i) >= 10,
    ;
}

proof fn lemma_repeated_at_least_doubled(i: nat, k: nat)
    requires
        i >= 1,
        k >= 2,
    ensures
        doubled(i) <= repeated(i, k),
    decreases k,
{
    if k > 2 {
        lemma_repeated_at_least_doubled(i, (k - 1) as nat);
        lemma_repeated_grows(i, (k - 1) as nat);
    }
}

/// A larger block gives a larger doubled number, and doubling grows a number.
proof fn lemma_doubled_grows(a: nat, b: nat)
    requires
        1 <= a <= b,
    ensures
        doubled(a) <= doubled(b),
        a < b ==> doubled(a) < doubled(b),
        b < doubled(b),
{
    lemma_shift_bounds(a, b);
    lemma_shift_bounds(b, b);
    let sa = shift(a);
    let sb = shift(b);
    assert(a * sa <= b * sb) by (nonlinear_arith)
        requires
            a <= b,
            sa <= sb,
    ;
    assert(b * sb >= b * 10) by (nonlinear_arith)
        requires
            sb >= 10,
    ;
    assert(repeated(a, 1) == a);
    assert(repeated(b, 1) == b);
}

proof fn lemma_in_some_below_max(rs: Seq<IdRange>, n: int)
    requires
        in_some(rs, n),
    ensures
        n <= max_end(rs),
    decreases rs.len(),
{
    let k = choose|k: int| 0 <= k < rs.len() && (#[trigger] rs[k]).start <= n <= rs[k].end;
    if k < rs.len() - 1 {
        assert(rs.drop_last()[k] == rs[k]);
        lemma_in_some_below_max(rs.drop_last(), n);
    }
}

proof fn lemma_doubled_sum_grows(rs: Seq<IdRange>, a: int, b: int)
    requires
        a <= b,
    ensures
        doubled_sum(rs, a) <= doubled_sum(rs, b),
    decreases b - a,
{
    if a < b {
        lemma_doubled_sum_grows(rs, a, b - 1);
    }
}

/// Past the first block whose doubled number exceeds every range, the sum no
/// longer changes.
proof fn lemma_doubled_sum_settles(rs: Seq<IdRange>, i: int, m: int)
    requires
        1 <= i,
        i - 1 <= m,
        doubled(i as nat) > max_end(rs),
    ensures
        doubled_sum(rs, m) == doubled_sum(rs, i - 1),
    decreases m - i + 1,
{
    if m > i - 1 {
        lemma_doubled_sum_settles(rs, i, m - 1);
        lemma_doubled_grows(i as nat, m as nat);
        if in_some(rs, doubled(m as nat) as int) {
            lemma_in_some_below_max(rs, doubled(m as nat) as int);
        }
    }
}

/// What a number is multiplied by to make room for one more copy of itself,
/// when that fits in a `u64`.
fn shift_of(i: u64) -> (r: Option<u64>)
    ensures
        r == (if shift(i as nat) <= u64::MAX {
            Some(shift(i as nat) as u64)
        } else {
            None
        }),
{
    let mut p: u64 = 10;
    let mut n: u64 = i;
    let ghost mut k: nat = 0;
    assert(pow10(1) == 10 * pow10(0));
    while n >= 10
        invariant
            num_digits(i as nat) == num_digits(n as nat) + k,
            p == pow10(k + 1),
        decreases n,
    {
        if p > u64::MAX / 10 {
            proof {
                lemma_num_digits_monotone(10, n as nat);
                assert(num_digits(10) == 1 + num_digits(1));
                lemma_pow10_monotone(k + 2, num_digits(i as nat));
            }
            return None;
        }
        n = n / 10;
        p = p * 10;
        proof {
            k = k + 1;
        }
    }
    Some(p)
}

/// The id whose digits are those of `i` written twice.
pub fn concat_digits(i: u32) -> (r: u64)
    requires
        doubled(i as nat) <= u64::MAX,
    ensures
        r == doubled(i as nat),
{
    let i = i as u64;
    proof {
        lemma_shift_bounds(i as nat, i as nat);
        lemma_doubled_value(i as nat);
    }
    match shift_of(i) {
        Some(p) => i * p + i,
        None => 0,
    }
}

/// `x * s + i`, when it fits in a `u64`.
fn append_block(x: u64, s: u64, i: u64) -> (r: Option<u64>)
    ensures
        r == (if x * s + i <= u64::MAX {
            Some((x * s + i) as u64)
        } else {
            None
        }),
{
    match x.checked_mul(s) {
        Some(y) => y.checked_add(i),
        None => {
            assert(x * s + i > u64::MAX) by (nonlinear_arith)
                requires
                    x * s > u64::MAX,
            ;
            None
        },
    }
}

/// The id whose digits are those of `i` written twice, when it fits in a `u64`.
fn doubled_of(i: u64) -> (r: Option<u64>)
    ensures
        r == (if doubled(i as nat) <= u64::MAX {
            Some(doubled(i as nat) as u64)
        } else {
            None
        }),
{
    proof {
        lemma_doubled_value(i as nat);
    }
    match shift_of(i) {
        Some(p) => append_block(i, p, i),
        None => {
            None
        },
    }
}

/// Whether `n` lies in one of the ranges.
fn in_any(ranges: &Vec<IdRange>, n: u64) -> (r: bool)
    ensures
        r == in_some(ranges@, n as int),
{
    let mut k: usize = 0;
    while k < ranges.len()
        invariant
            k <= ranges@.len(),
            forall|j: int| 0 <= j < k ==> !((#[trigger] ranges@[j]).start <= n <= ranges@[j].end),
        decreases ranges@.len() - k,
    {
        if ranges[k].contains(n) {
            return true;
        }
        k = k + 1;
    }
    false
}

/// The largest end among the ranges, `0` when there are none.
fn largest_end(ranges: &Vec<IdRange>) -> (r: u64)
    ensures
        r == max_end(ranges@),
{
    let mut max: u64 = 0;
    let mut k: usize = 0;
    while k < ranges.len()
        invariant
            k <= ranges@.len(),
            max == max_end(ranges@.take(k as int)),
        decreases ranges@.len() - k,
    {
        assert(ranges@.take(k + 1).drop_last() =~= ranges@.take(k as int));
        if ranges[k].end > max {
            max = ranges[k].end;
        }
        k = k + 1;
    }
    assert(ranges@.take(k as int) =~= ranges@);
    max
}

/// The sum of the ids in the input's ranges whose digits are a block written twice.
pub fn part1_impl(input: &[u8]) -> (r: u64)
    requires
        doubled_sum(ranges_from(input@, 0), max_end(ranges_from(input@, 0)) as int) <= u64::MAX,
    ensures
        r == doubled_sum(ranges_from(input@, 0), max_end(ranges_from(input@, 0)) as int),
{
    let ranges = parse(input);
    let max = largest_end(&ranges);
    let ghost rs = ranges@;
    let mut sum: u64 = 0;
    let mut i: u32 = 1;
    loop
        invariant
            rs == ranges@,
            rs == ranges_from(input@, 0),
            max == max_end(rs),
            1 <= i <= max as int + 1,
            doubled_sum(rs, max as int) <= u64::MAX,
            sum == doubled_sum(rs, i - 1),
        decreases max as int + 1 - i,
    {
        match doubled_of(i as u64) {
            Some(x) => {
                if x > max {
                    proof {
                        lemma_doubled_sum_settles(rs, i as int, max as int);
                    }
                    return sum;
                }
                proof {
                    lemma_doubled_grows(i as nat, i as nat);
                    lemma_doubled_sum_grows(rs, i as int, max as int);
                    lemma_block_fits_u32(i as nat);
                }
                if in_any(&ranges, x) {
                    sum = sum + x;
                }
                i = i + 1;
            },
            None => {
                proof {
                    lemma_doubled_sum_settles(rs, i as int, max as int);
                }
                return sum;
            },
        }
    }
}


/// `n` is a block of digits written two or more times.
pub open spec fn is_repetition(n: nat) -> bool {
    exists|i: nat, k: nat| i >= 1 && k >= 2 && n == #[trigger] repeated(i, k)
}

/// `n` is a repetition that lies in one of the ranges.
pub open spec fn silly(rs: Seq<IdRange>, n: int) -> bool {
    n >= 1 && is_repetition(n as nat) && in_some(rs, n)
}

/// The sum of the ids `1 <= n <= m` that are repetitions lying in a range, each
/// counted once.
pub open spec fn repetition_sum(rs: Seq<IdRange>, m: int) -> nat
    decreases m,
{
    if m <= 0 {
        0
    } else {
        repetition_sum(rs, m - 1) + if silly(rs, m) {
            m as nat
        } else {
            0
        }
    }
}

/// The sum of a sequence of ids.
pub open spec fn seq_sum(s: Seq<u64>) -> nat
    decreases s.len(),
{
    if s.len() == 0 {
        0
    } else {
        seq_sum(s.drop_last()) + (s.last() as nat)
    }
}

proof fn lemma_repeated_monotone(i: nat, a: nat, b: nat)
    requires
        i >= 1,
        1 <= a <= b,
    ensures
        repeated(i, a) <= repeated(i, b),
    decreases b,
{
    if a < b {
        lemma_repeated_monotone(i, a, (b - 1) as nat);
        lemma_repeated_grows(i, (b - 1) as nat);
    }
}

proof fn lemma_seq_sum_remove(s: Seq<u64>, j: int)
    requires
        0 <= j < s.len(),
    ensures
        seq_sum(s) == seq_sum(s.remove(j)) + s[j],
    decreases s.len(),
{
    if j == s.len() - 1 {
        assert(s.remove(j) =~= s.drop_last());
    } else {
        lemma_seq_sum_remove(s.drop_last(), j);
        assert(s.remove(j).drop_last() =~= s.drop_last().remove(j));
        assert(s.remove(j).last() == s.last());
    }
}

/// A sequence of distinct silly ids up to `m` sums to at most `repetition_sum`,
/// and to exactly that when it holds every one of them.
proof fn lemma_distinct_sum(rs: Seq<IdRange>, s: Seq<u64>, m: int)
    requires
        m <= u64::MAX,
        s.no_duplicates(),
        forall|k: int| 0 <= k < s.len() ==> 1 <= #[trigger] s[k] <= m && silly(rs, s[k] as int),
    ensures
        seq_sum(s) <= repetition_sum(rs, m),
        (forall|n: int| 1 <= n <= m && silly(rs, n) ==> s.contains(n as u64)) ==> seq_sum(s)
            == repetition_sum(rs, m),
    decreases m,
{
    if m <= 0 {
        if s.len() > 0 {
            assert(1 <= s[0] <= m);
        }
    } else if s.contains(m as u64) {
        let j = choose|j: int| 0 <= j < s.len() && s[j] == m as u64;
        let t = s.remove(j);
        lemma_seq_sum_remove(s, j);
        assert(silly(rs, s[j] as int));
        assert(silly(rs, m));
        assert forall|k: int| 0 <= k < t.len() implies 1 <= #[trigger] t[k] <= m - 1 && silly(rs, t[k] as int) by {
            if k < j {
                assert(t[k] == s[k]);
            } else {
                assert(t[k] == s[k + 1]);
                assert(s[k + 1] != s[j]);
            }
            if k < j {
                assert(s[k] != s[j]);
            }
        }
        assert(t.no_duplicates()) by {
            assert forall|a: int, b: int| 0 <= a < b < t.len() implies t[a] != t[b] by {
                let sa = if a < j { a } else { a + 1 };
                let sb = if b < j { b } else { b + 1 };
                assert(t[a] == s[sa] && t[b] == s[sb]);
            }
        }
        lemma_distinct_sum(rs, t, m - 1);
        if forall|n: int| 1 <= n <= m && silly(rs, n) ==> s.contains(n as u64) {
            assert forall|n: int| 1 <= n <= m - 1 && silly(rs, n) implies t.contains(n as u64) by {
                let q = choose|q: int| 0 <= q < s.len() && s[q] == n as u64;
                if q < j {
                    assert(t[q] == s[q]);
                } else {
                    assert(q != j);
                    assert(t[q - 1] == s[q]);
                }
            }
        }
    } else {
        assert forall|k: int| 0 <= k < s.len() implies 1 <= #[trigger] s[k] <= m - 1 && silly(rs, s[k] as int) by {
            assert(s[k] != m as u64);
        }
        lemma_distinct_sum(rs, s, m - 1);
    }
}

/// A block whose doubled number fits in a `u64` is below `u32::MAX`.
proof fn lemma_block_fits_u32(i: nat)
    requires
        doubled(i) <= u64::MAX,
    ensures
        i < u32::MAX,
{
    lemma_doubled_value(i);
    if i >= u32::MAX {
        lemma_num_digits_monotone(1_000_000_000, i);
        reveal_with_fuel(num_digits, 11);
        assert(num_digits(1_000_000_000) == 10);
        lemma_pow10_monotone(10, num_digits(i));
        reveal_with_fuel(pow10, 11);
        assert(pow10(10) == 10_000_000_000);
        let s = shift(i);
        assert(i * s >= 4294967295 * 10_000_000_000) by (nonlinear_arith)
            requires
                i >= 4294967295,
                s >= 10_000_000_000,
        ;
    }
}

/// The ids whose digits are those of `i` written two, three, ... times, as long
/// as they do not exceed `max`.
pub fn concat_digits_many(i: u32, max: u64) -> (r: Vec<u64>)
    requires
        i >= 1,
    ensures
        forall|q: int| 0 <= q < r@.len() ==> #[trigger] r@[q] == repeated(i as nat, (q + 2) as nat),
        forall|k: nat| k >= 2 ==> (#[trigger] repeated(i as nat, k) <= max <==> k < r@.len() + 2),
{
    let i = i as u64;
    let mut r: Vec<u64> = Vec::new();
    proof {
        lemma_doubled_value(i as nat);
        lemma_doubled_grows(i as nat, i as nat);
        assert(repeated(i as nat, 1) == i);
    }
    let first = doubled_of(i);
    let mut x: u64 = match first {
        Some(x) => x,
        None => {
            proof {
                assert forall|k: nat| k >= 2 implies #[trigger] repeated(i as nat, k) > max by {
                    lemma_repeated_monotone(i as nat, 2, k);
                }
            }
            return r;
        },
    };
    let p = match shift_of(i) {
        Some(p) => p,
        None => 0,
    };
    loop
        invariant_except_break
            x == repeated(i as nat, (r@.len() + 2) as nat),
        invariant
            i >= 1,
            p == shift(i as nat),
            forall|q: int| 0 <= q < r@.len() ==> #[trigger] r@[q] == repeated(i as nat, (q + 2) as nat),
            forall|q: int| 0 <= q < r@.len() ==> #[trigger] r@[q] <= max,
        ensures
            forall|k: nat| k >= r@.len() + 2 ==> #[trigger] repeated(i as nat, k) > max,
        decreases u64::MAX - x,
    {
        let k: Ghost<nat> = Ghost((r@.len() + 2) as nat);
        if x > max {
            proof {
                assert forall|k2: nat| k2 >= k@ implies #[trigger] repeated(i as nat, k2) > max by {
                    lemma_repeated_monotone(i as nat, k@, k2);
                }
            }
            break;
        }
        r.push(x);
        proof {
            lemma_repeated_grows(i as nat, k@);
            assert(repeated(i as nat, k@ + 1) == x * p + i);
        }
        match append_block(x, p, i) {
            Some(y) => {
                x = y;
            },
            None => {
                proof {
                    assert forall|k2: nat| k2 >= k@ + 1 implies #[trigger] repeated(i as nat, k2) > max by {
                        lemma_repeated_monotone(i as nat, k@ + 1, k2);
                    }
                }
                break;
            },
        }
    }
    proof {
        assert forall|k: nat| k >= 2 implies (#[trigger] repeated(i as nat, k) <= max <==> k < r@.len() + 2) by {
            if k < r@.len() + 2 {
                assert(r@[k - 2] == repeated(i as nat, k));
            }
        }
    }
    r
}

/// Whether `found` holds `x`.
fn holds(found: &Vec<u64>, x: u64) -> (r: bool)
    ensures
        r == found@.contains(x),
{
    let mut k: usize = 0;
    while k < found.len()
        invariant
            k <= found@.len(),
            forall|j: int| 0 <= j < k ==> found@[j] != x,
        decreases found@.len() - k,
    {
        if found[k] == x {
            return true;
        }
        k = k + 1;
    }
    false
}

/// The sum of the ids in the input's ranges whose digits are a block written two
/// or more times, each id counted once.
pub fn part2_impl(input: &[u8]) -> (r: u64)
    requires
        repetition_sum(ranges_from(input@, 0), max_end(ranges_from(input@, 0)) as int) <= u64::MAX,
    ensures
        r == repetition_sum(ranges_from(input@, 0), max_end(ranges_from(input@, 0)) as int),
{
    let ranges = parse(input);
    let max = largest_end(&ranges);
    let ghost rs = ranges@;
    let mut found: Vec<u64> = Vec::new();
    let mut sum: u64 = 0;
    let mut i: u32 = 1;
    loop
        invariant
            rs == ranges@,
            rs == ranges_from(input@, 0),
            max == max_end(rs),
            1 <= i <= max as int + 1,
            repetition_sum(rs, max as int) <= u64::MAX,
            found@.no_duplicates(),
            forall|k: int| 0 <= k < found@.len() ==> 1 <= #[trigger] found@[k] <= max && silly(rs, found@[k] as int),
            forall|b: nat, k: nat| 1 <= b < i && k >= 2 && repeated(b, k) <= max && in_some(rs, #[trigger] repeated(b, k) as int)
                ==> found@.contains(repeated(b, k) as u64),
            sum == seq_sum(found@),
        decreases max as int + 1 - i,
    {
        let fits = match doubled_of(i as u64) {
            Some(x) => x <= max,
            None => false,
        };
        if !fits {
            proof {
                assert forall|n: int| 1 <= n <= max && silly(rs, n) implies found@.contains(n as u64) by {
                    let (b, k) = choose|b: nat, k: nat| b >= 1 && k >= 2 && n as nat == #[trigger] repeated(b, k);
                    lemma_repeated_at_least_doubled(b, k);
                    if b >= i {
                        lemma_doubled_grows(i as nat, b);
                    }
                }
                lemma_distinct_sum(rs, found@, max as int);
            }
            return sum;
        }
        proof {
            lemma_block_fits_u32(i as nat);
            lemma_doubled_grows(i as nat, i as nat);
        }
        let repetitions = concat_digits_many(i, max);
        let mut q: usize = 0;
        while q < repetitions.len()
            invariant
                rs == ranges@,
                max == max_end(rs),
                1 <= i,
                q <= repetitions@.len(),
                forall|q2: int| 0 <= q2 < repetitions@.len() ==> #[trigger] repetitions@[q2] == repeated(i as nat, (q2 + 2) as nat),
                forall|k: nat| k >= 2 ==> (#[trigger] repeated(i as nat, k) <= max <==> k < repetitions@.len() + 2),
                repetition_sum(rs, max as int) <= u64::MAX,
                found@.no_duplicates(),
                forall|k: int| 0 <= k < found@.len() ==> 1 <= #[trigger] found@[k] <= max && silly(rs, found@[k] as int),
                forall|b: nat, k: nat| 1 <= b < i && k >= 2 && repeated(b, k) <= max && in_some(rs, #[trigger] repeated(b, k) as int)
                    ==> found@.contains(repeated(b, k) as u64),
                forall|k: nat| 2 <= k < q + 2 && in_some(rs, #[trigger] repeated(i as nat, k) as int)
                    ==> found@.contains(repeated(i as nat, k) as u64),
                sum == seq_sum(found@),
            decreases repetitions@.len() - q,
        {
            let x = repetitions[q];
            let ghost k: nat = (q + 2) as nat;
            assert(x == repeated(i as nat, k));
            assert(x <= max);
            if in_any(&ranges, x) && !holds(&found, x) {
                proof {
                    assert(is_repetition(x as nat));
                    lemma_repeated_grows(i as nat, 1);
                    lemma_repeated_monotone(i as nat, 1, k);
                    let grown = found@.push(x);
                    assert forall|j: int| 0 <= j < grown.len() implies 1 <= #[trigger] grown[j] <= max && silly(rs, grown[j] as int) by {
                        if j < found@.len() {
                            assert(grown[j] == found@[j]);
                        }
                    }
                    assert(grown.no_duplicates()) by {
                        assert forall|a: int, b: int| 0 <= a < b < grown.len() implies grown[a] != grown[b] by {
                            if b == found@.len() {
                                assert(found@.contains(found@[a]));
                            }
                        }
                    }
                    lemma_distinct_sum(rs, grown, max as int);
                    assert(grown.drop_last() =~= found@);
                }
                found.push(x);
                sum = sum + x;
            }
            q = q + 1;
        }
        i = i + 1;
    }
}

} // verus!
