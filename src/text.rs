//! Splitting puzzle input into lines and reading decimal numbers.

use vstd::prelude::*;

verus! {

/// The index of the first `b` at or after `i`, or the length of `t` if there is none.
pub open spec fn find_byte(t: Seq<u8>, b: u8, i: int) -> int
    decreases t.len() - i,
{
    if i >= t.len() {
        t.len() as int
    } else if t[i] == b {
        i
    } else {
        find_byte(t, b, i + 1)
    }
}

/// A line without its terminating `\r`, if it has one.
pub open spec fn strip_cr(l: Seq<u8>) -> Seq<u8> {
    if l.len() > 0 && l.last() == 13u8 {
        l.drop_last()
    } else {
        l
    }
}

/// The lines of `t` that start at or after `i`, where `i` is the start of a line.
pub open spec fn lines_from(t: Seq<u8>, i: int) -> Seq<Seq<u8>>
    decreases t.len() + 1 - i
    via lines_from_decreases
{
    if i < 0 || i >= t.len() {
        Seq::empty()
    } else {
        let e = find_byte(t, 10u8, i);
        seq![strip_cr(t.subrange(i, e))] + lines_from(t, e + 1)
    }
}

/// The lines of a text: split at `\n`, a trailing `\r` removed from each, and no
/// empty last line for a text that ends with `\n`.
pub open spec fn lines(t: Seq<u8>) -> Seq<Seq<u8>> {
    lines_from(t, 0)
}

#[via_fn]
proof fn lines_from_decreases(t: Seq<u8>, i: int) {
    if 0 <= i < t.len() {
        lemma_find_byte_bounds(t, 10u8, i);
    }
}

pub proof fn lemma_find_byte_bounds(t: Seq<u8>, b: u8, i: int)
    requires
        0 <= i <= t.len(),
    ensures
        i <= find_byte(t, b, i) <= t.len(),
        find_byte(t, b, i) < t.len() ==> t[find_byte(t, b, i)] == b,
        forall|k: int| i <= k < find_byte(t, b, i) ==> t[k] != b,
    decreases t.len() - i,
{
    if i < t.len() && t[i] != b {
        lemma_find_byte_bounds(t, b, i + 1);
    }
}

/// The index of the first `b` in `t` at or after `start`, or the length of `t`.
pub fn find_from(t: &[u8], b: u8, start: usize) -> (r: usize)
    requires
        start <= t@.len(),
    ensures
        r == find_byte(t@, b, start as int),
        start <= r <= t@.len(),
{
    let mut i = start;
    while i < t.len() && t[i] != b
        invariant
            start <= i <= t@.len(),
            find_byte(t@, b, i as int) == find_byte(t@, b, start as int),
        decreases t@.len() - i,
    {
        i = i + 1;
    }
    proof {
        lemma_find_byte_bounds(t@, b, i as int);
    }
    i
}

/// Copies the line `t[start..end]`, without a trailing `\r`.
fn copy_line(t: &[u8], start: usize, end: usize) -> (r: Vec<u8>)
    requires
        start <= end <= t@.len(),
    ensures
        r@ == strip_cr(t@.subrange(start as int, end as int)),
{
    let mut stop = end;
    if start < end && t[end - 1] == 13u8 {
        stop = end - 1;
    }
    let mut r: Vec<u8> = Vec::new();
    let mut i = start;
    while i < stop
        invariant
            start <= i <= stop <= end <= t@.len(),
            r@ == t@.subrange(start as int, i as int),
        decreases stop - i,
    {
        r.push(t[i]);
        i = i + 1;
        assert(r@ =~= t@.subrange(start as int, i as int));
    }
    assert(r@ =~= strip_cr(t@.subrange(start as int, end as int)));
    r
}

/// The lines of a text, as `lines` describes them.
pub fn split_lines(t: &[u8]) -> (r: Vec<Vec<u8>>)
    ensures
        r.deep_view() == lines(t@),
{
    let mut r: Vec<Vec<u8>> = Vec::new();
    let mut start: usize = 0;
    while start < t.len()
        invariant
            start <= t@.len(),
            lines(t@) == r.deep_view() + lines_from(t@, start as int),
        decreases t@.len() - start,
    {
        let end = find_from(t, 10u8, start);
        let line = copy_line(t, start, end);
        proof {
            assert(lines_from(t@, start as int) == seq![line@] + lines_from(t@, end + 1));
        }
        let ghost before = r.deep_view();
        let ghost old_r = r@;
        r.push(line);
        assert(r.deep_view() =~= before.push(line@)) by {
            assert forall|k: int| 0 <= k < r@.len() implies r.deep_view()[k] == before.push(line@)[k] by {
                if k < before.len() {
                    assert(r@[k] == old_r[k]);
                }
            }
        }
        assert(lines(t@) == r.deep_view() + lines_from(t@, end + 1)) by {
            assert(before + (seq![line@] + lines_from(t@, end + 1)) =~= before.push(line@) + lines_from(t@, end + 1));
        }
        if end == t.len() {
            start = end;
            assert(lines_from(t@, end + 1) == Seq::<Seq<u8>>::empty());
            assert(lines_from(t@, start as int) == Seq::<Seq<u8>>::empty());
        } else {
            start = end + 1;
        }
    }
    proof {
        assert(lines_from(t@, start as int) == Seq::<Seq<u8>>::empty());
        assert(lines(t@) =~= r.deep_view());
    }
    r
}


/// An ASCII decimal digit.
pub open spec fn is_digit(b: u8) -> bool {
    48u8 <= b <= 57u8
}

/// A non-empty run of ASCII decimal digits.
pub open spec fn is_digits(s: Seq<u8>) -> bool {
    s.len() > 0 && forall|i: int| 0 <= i < s.len() ==> is_digit(#[trigger] s[i])
}

/// The number that a run of decimal digits writes.
pub open spec fn digits_value(s: Seq<u8>) -> nat
    decreases s.len(),
{
    if s.len() == 0 {
        0
    } else {
        digits_value(s.drop_last()) * 10 + (s.last() - 48u8) as nat
    }
}

/// The digits of an unsigned number's text: an optional leading `+` removed.
pub open spec fn unsigned_digits(s: Seq<u8>) -> Seq<u8> {
    if s.len() > 0 && s[0] == 43u8 {
        s.drop_first()
    } else {
        s
    }
}

/// The value of an unsigned number's text (`+` optional, then digits), if it is one.
pub open spec fn unsigned_value(s: Seq<u8>) -> Option<nat> {
    if is_digits(unsigned_digits(s)) {
        Some(digits_value(unsigned_digits(s)))
    } else {
        None
    }
}

/// The value of a signed number's text (`+` or `-` optional, then digits), if it is one.
pub open spec fn signed_value(s: Seq<u8>) -> Option<int> {
    if s.len() > 0 && s[0] == 45u8 {
        if is_digits(s.drop_first()) {
            Some(-digits_value(s.drop_first()))
        } else {
            None
        }
    } else {
        match unsigned_value(s) {
            Some(v) => Some(v as int),
            None => None,
        }
    }
}

proof fn lemma_digits_value_prefix_grows(s: Seq<u8>, i: int, j: int)
    requires
        0 <= i <= j <= s.len(),
    ensures
        digits_value(s.subrange(0, i)) <= digits_value(s.subrange(0, j)),
    decreases j - i,
{
    if i < j {
        lemma_digits_value_prefix_grows(s, i, j - 1);
        assert(s.subrange(0, j).drop_last() =~= s.subrange(0, j - 1));
    }
}

/// Reads a run of decimal digits whose value is at most `max`.
fn digits_at_most(s: &[u8], from: usize, max: u64) -> (r: Option<u64>)
    requires
        from <= s@.len(),
    ensures
        r == (if is_digits(s@.subrange(from as int, s@.len() as int)) && digits_value(
            s@.subrange(from as int, s@.len() as int),
        ) <= max {
            Some(digits_value(s@.subrange(from as int, s@.len() as int)) as u64)
        } else {
            None
        }),
{
    let ghost d = s@.subrange(from as int, s@.len() as int);
    if from == s.len() {
        return None;
    }
    let mut i = from;
    while i < s.len()
        invariant
            from <= i <= s@.len(),
            d == s@.subrange(from as int, s@.len() as int),
            forall|k: int| from <= k < i ==> is_digit(#[trigger] s@[k]),
        decreases s@.len() - i,
    {
        if !(48u8 <= s[i] && s[i] <= 57u8) {
            assert(!is_digit(d[i - from]));
            return None;
        }
        i = i + 1;
    }
    assert(is_digits(d));
    let mut v: u64 = 0;
    let mut i = from;
    while i < s.len()
        invariant
            from <= i <= s@.len(),
            d == s@.subrange(from as int, s@.len() as int),
            is_digits(d),
            v as nat == digits_value(d.subrange(0, i - from)),
            v <= max,
        decreases s@.len() - i,
    {
        assert(is_digit(d[i - from]));
        assert(s@[i as int] == d[i - from]);
        let digit = (s[i] - 48u8) as u64;
        assert(d.subrange(0, i - from + 1).drop_last() =~= d.subrange(0, i - from));
        if digit > max || v > (max - digit) / 10 {
            proof {
                lemma_digits_value_prefix_grows(d, i - from + 1, d.len() as int);
                assert(d.subrange(0, d.len() as int) =~= d);
                assert(v * 10 + digit > max) by (nonlinear_arith)
                    requires
                        digit > max || v > (max - digit) / 10,
                        v >= 0,
                ;
            }
            return None;
        }
        assert(v * 10 + digit <= max) by (nonlinear_arith)
            requires
                v <= (max - digit) / 10,
                digit <= 9,
        ;
        v = v * 10 + digit;
        i = i + 1;
    }
    assert(d.subrange(0, i - from) =~= d);
    Some(v)
}


/// Reads an unsigned number (`+` optional, then digits) whose value is at most `max`,
/// as `str::parse` does for an unsigned integer type whose largest value is `max`.
pub fn parse_unsigned(s: &[u8], max: u64) -> (r: Option<u64>)
    ensures
        r == (match unsigned_value(s@) {
            Some(v) => if v <= max {
                Some(v as u64)
            } else {
                None
            },
            None => None,
        }),
{
    if s.len() > 0 && s[0] == 43u8 {
        assert(s@.subrange(1, s@.len() as int) =~= s@.drop_first());
        digits_at_most(s, 1, max)
    } else {
        assert(s@.subrange(0, s@.len() as int) =~= s@);
        digits_at_most(s, 0, max)
    }
}

/// Reads a signed number (`+` or `-` optional, then digits) that fits in `i32`, as
/// `str::parse::<i32>` does.
pub fn parse_i32(s: &[u8]) -> (r: Option<i32>)
    ensures
        r == (match signed_value(s@) {
            Some(v) => if i32::MIN <= v <= i32::MAX {
                Some(v as i32)
            } else {
                None
            },
            None => None,
        }),
{
    if s.len() > 0 && s[0] == 45u8 {
        assert(s@.subrange(1, s@.len() as int) =~= s@.drop_first());
        match digits_at_most(s, 1, 2147483648u64) {
            Some(v) => Some((0i64 - v as i64) as i32),
            None => None,
        }
    } else {
        match parse_unsigned(s, 2147483647u64) {
            Some(v) => Some(v as i32),
            None => None,
        }
    }
}


/// The lengths of the lines `ls`, added up.
pub open spec fn total_len(ls: Seq<Seq<u8>>) -> nat
    decreases ls.len(),
{
    if ls.len() == 0 {
        0
    } else {
        total_len(ls.drop_last()) + ls.last().len()
    }
}

proof fn lemma_total_len_prepend(l: Seq<u8>, ls: Seq<Seq<u8>>)
    ensures
        total_len(seq![l] + ls) == l.len() + total_len(ls),
    decreases ls.len(),
{
    if ls.len() > 0 {
        assert((seq![l] + ls).drop_last() =~= seq![l] + ls.drop_last());
        lemma_total_len_prepend(l, ls.drop_last());
        assert((seq![l] + ls).last() == ls.last());
    } else {
        assert(seq![l] + ls =~= seq![l]);
        assert(seq![l].drop_last() =~= Seq::<Seq<u8>>::empty());
        assert(total_len(Seq::<Seq<u8>>::empty()) == 0);
        assert(seq![l].last() == l);
    }
}

proof fn lemma_lines_from_len(t: Seq<u8>, i: int)
    requires
        0 <= i,
    ensures
        total_len(lines_from(t, i)) <= if i <= t.len() {
            t.len() - i
        } else {
            0
        },
    decreases t.len() + 1 - i,
{
    if i < t.len() {
        let e = find_byte(t, 10u8, i);
        lemma_find_byte_bounds(t, 10u8, i);
        lemma_lines_from_len(t, e + 1);
        lemma_total_len_prepend(strip_cr(t.subrange(i, e)), lines_from(t, e + 1));
    }
}

/// The lines of a text hold no more bytes than the text.
pub proof fn lemma_lines_len(t: Seq<u8>)
    ensures
        total_len(lines(t)) <= t.len(),
{
    lemma_lines_from_len(t, 0);
}

/// `10` to the power `n`.
pub open spec fn pow10(n: nat) -> nat
    decreases n,
{
    if n == 0 {
        1
    } else {
        10 * pow10((n - 1) as nat)
    }
}

pub proof fn lemma_pow10_monotone(m: nat, n: nat)
    requires
        m <= n,
    ensures
        pow10(m) <= pow10(n),
    decreases n,
{
    if m < n {
        lemma_pow10_monotone(m, (n - 1) as nat);
    }
}

} // verus!
