//! Fresh ingredients: a set of closed ranges of ids, merged into a minimal sorted
//! cover, then queried for membership and measured.

use vstd::prelude::*;
use vstd::set_lib::*;
use crate::text::{find_byte, find_from, lemma_find_byte_bounds, lines, parse_unsigned, split_lines, unsigned_value};

verus! {

broadcast use vstd::seq_lib::group_to_multiset_ensures;

/// A closed range of ids, `start..=end`.
#[derive(PartialEq, Eq, Structural, PartialOrd, Ord, Clone, Copy, Debug)]
pub struct Range {
    pub start: usize,
    pub end: usize,
}

/// `x` lies in `r`.
pub open spec fn in_range(r: Range, x: int) -> bool {
    r.start <= x <= r.end
}

/// `x` lies in one of the ranges of `s`.
pub open spec fn covered(s: Seq<Range>, x: int) -> bool {
    exists|k: int| 0 <= k < s.len() && in_range(#[trigger] s[k], x)
}

/// The integers that the ranges of `s` cover.
pub open spec fn cover_set(s: Seq<Range>) -> Set<int> {
    Set::new(|x: int| covered(s, x))
}

/// Every range of `s` has `start <= end`.
pub open spec fn valid_ranges(s: Seq<Range>) -> bool {
    forall|k: int| 0 <= k < s.len() ==> (#[trigger] s[k]).start <= s[k].end
}

/// Valid ranges in ascending order, no two of which overlap or touch.
pub open spec fn canonical(s: Seq<Range>) -> bool {
    &&& valid_ranges(s)
    &&& forall|i: int, j: int| 0 <= i < j < s.len() ==> #[trigger] s[i].end + 1 < #[trigger] s[j].start
}

/// The number of integers in each range, summed.
pub open spec fn total_size(s: Seq<Range>) -> int
    decreases s.len(),
{
    if s.len() == 0 {
        0
    } else {
        total_size(s.drop_last()) + (s.last().end - s.last().start + 1)
    }
}

/// `a` comes no later than `b` ordered by start, then by end.
pub open spec fn range_le(a: Range, b: Range) -> bool {
    a.start < b.start || (a.start == b.start && a.end <= b.end)
}

pub open spec fn sorted(s: Seq<Range>) -> bool {
    forall|i: int, j: int| 0 <= i < j < s.len() ==> range_le(#[trigger] s[i], #[trigger] s[j])
}

impl Range {
    /// Whether `ingredient` lies in the range.
    pub fn contains(&self, ingredient: usize) -> (r: bool)
        ensures
            r == in_range(*self, ingredient as int),
    {
        self.start <= ingredient && ingredient <= self.end
    }

    /// The number of integers in the range.
    pub fn size(&self) -> (r: usize)
        requires
            self.start <= self.end,
            self.end - self.start < usize::MAX,
        ensures
            r == self.end - self.start + 1,
    {
        self.end - self.start + 1
    }
}

pub proof fn lemma_covered_push(s: Seq<Range>, r: Range, x: int)
    ensures
        covered(s.push(r), x) == (covered(s, x) || in_range(r, x)),
{
    if covered(s, x) {
        let k = choose|k: int| 0 <= k < s.len() && in_range(#[trigger] s[k], x);
        assert(s.push(r)[k] == s[k]);
    }
    if in_range(r, x) {
        assert(s.push(r)[s.len() as int] == r);
    }
    if covered(s.push(r), x) {
        let k = choose|k: int| 0 <= k < s.len() + 1 && in_range(#[trigger] s.push(r)[k], x);
        if k < s.len() {
            assert(s[k] == s.push(r)[k]);
        }
    }
}

/// Sorts ranges by start, then by end.
fn sort_ranges(v: &Vec<Range>) -> (r: Vec<Range>)
    ensures
        sorted(r@),
        r@.to_multiset() == v@.to_multiset(),
{
    let mut r: Vec<Range> = Vec::new();
    let mut i: usize = 0;
    while i < v.len()
        invariant
            i <= v@.len(),
            sorted(r@),
            r@.to_multiset() == v@.subrange(0, i as int).to_multiset(),
        decreases v@.len() - i,
    {
        let e = v[i];
        let mut p: usize = 0;
        while p < r.len() && (r[p].start < e.start || (r[p].start == e.start && r[p].end <= e.end))
            invariant
                p <= r@.len(),
                forall|k: int| 0 <= k < p ==> range_le(#[trigger] r@[k], e),
            decreases r@.len() - p,
        {
            p = p + 1;
        }
        let ghost before = r@;
        r.insert(p, e);
        assert(r@ == before.insert(p as int, e));
        assert(sorted(r@)) by {
            assert forall|a: int, b: int| 0 <= a < b < r@.len() implies range_le(#[trigger] r@[a], #[trigger] r@[b]) by {
                if b < p {
                } else if b == p {
                } else if a < p {
                    assert(r@[b] == before[b - 1]);
                    if p < before.len() {
                        assert(!range_le(before[p as int], e));
                    }
                } else if a == p {
                    assert(r@[b] == before[b - 1]);
                    assert(!range_le(before[p as int], e));
                    if b - 1 > p {
                        assert(range_le(before[p as int], before[b - 1]));
                    }
                } else {
                    assert(r@[a] == before[a - 1]);
                    assert(r@[b] == before[b - 1]);
                }
            }
        }
        assert(v@.subrange(0, i + 1) =~= v@.subrange(0, i as int).push(e));
        i = i + 1;
    }
    assert(v@.subrange(0, v@.len() as int) =~= v@);
    r
}

proof fn lemma_multiset_covered(a: Seq<Range>, b: Seq<Range>, x: int)
    requires
        a.to_multiset() == b.to_multiset(),
        covered(a, x),
    ensures
        covered(b, x),
{
    let k = choose|k: int| 0 <= k < a.len() && in_range(#[trigger] a[k], x);
    assert(a.to_multiset().count(a[k]) > 0);
    assert(b.contains(a[k]));
}

proof fn lemma_multiset_valid(a: Seq<Range>, b: Seq<Range>)
    requires
        a.to_multiset() == b.to_multiset(),
        valid_ranges(a),
    ensures
        valid_ranges(b),
{
    assert forall|k: int| 0 <= k < b.len() implies (#[trigger] b[k]).start <= b[k].end by {
        assert(b.to_multiset().count(b[k]) > 0);
        assert(a.contains(b[k]));
    }
}

/// Merges ranges into the minimal sorted cover of the same integers: sorted by
/// start, then each range that overlaps or touches the last one kept is folded
/// into it.
pub fn merge_ranges(ranges: Vec<Range>) -> (r: Vec<Range>)
    requires
        valid_ranges(ranges@),
    ensures
        canonical(r@),
        forall|x: int| covered(r@, x) == covered(ranges@, x),
{
    let s = sort_ranges(&ranges);
    proof {
        lemma_multiset_valid(ranges@, s@);
    }
    let mut m: Vec<Range> = Vec::new();
    let mut i: usize = 0;
    while i < s.len()
        invariant
            i <= s@.len(),
            sorted(s@),
            valid_ranges(s@),
            canonical(m@),
            i == 0 <==> m@.len() == 0,
            i > 0 ==> m@.last().start <= s@[i - 1].start,
            forall|x: int| covered(m@, x) == covered(s@.subrange(0, i as int), x),
        decreases s@.len() - i,
    {
        let range = s[i];
        let ghost before = m@;
        assert(s@.subrange(0, i + 1) =~= s@.subrange(0, i as int).push(range));
        if m.len() > 0 && (range.start == 0 || m[m.len() - 1].end >= range.start - 1) {
            let last = m.len() - 1;
            let current = m[last];
            assert(range_le(s@[i - 1], range));
            let end = if current.end >= range.end { current.end } else { range.end };
            m.set(last, Range { start: current.start, end });
            assert(m@ =~= before.drop_last().push(Range { start: current.start, end }));
            assert(before =~= before.drop_last().push(current));
            assert forall|x: int| covered(m@, x) == covered(s@.subrange(0, i + 1), x) by {
                lemma_covered_push(before.drop_last(), Range { start: current.start, end }, x);
                lemma_covered_push(before.drop_last(), current, x);
                lemma_covered_push(s@.subrange(0, i as int), range, x);
            }
        } else {
            m.push(range);
            assert(m@ =~= before.push(range));
            if i > 0 {
                assert(range_le(s@[i - 1], range));
            }
            assert forall|x: int| covered(m@, x) == covered(s@.subrange(0, i + 1), x) by {
                lemma_covered_push(before, range, x);
                lemma_covered_push(s@.subrange(0, i as int), range, x);
            }
        }
        i = i + 1;
    }
    assert(s@.subrange(0, s@.len() as int) =~= s@);
    assert forall|x: int| covered(m@, x) == covered(ranges@, x) by {
        if covered(ranges@, x) {
            lemma_multiset_covered(ranges@, s@, x);
        }
        if covered(s@, x) {
            lemma_multiset_covered(s@, ranges@, x);
        }
    }
    m
}


/// Whether `ingredient` lies in one of the ranges of a minimal sorted cover, found
/// by binary search over the starts.
pub fn ranges_contain(ranges: &[Range], ingredient: usize) -> (r: bool)
    requires
        canonical(ranges@),
    ensures
        r == covered(ranges@, ingredient as int),
{
    let mut lo: usize = 0;
    let mut hi: usize = ranges.len();
    while lo < hi
        invariant
            0 <= lo <= hi <= ranges@.len(),
            canonical(ranges@),
            forall|k: int| 0 <= k < lo ==> (#[trigger] ranges@[k]).start <= ingredient,
            forall|k: int| hi <= k < ranges@.len() ==> (#[trigger] ranges@[k]).start > ingredient,
        decreases hi - lo,
    {
        let mid = lo + (hi - lo) / 2;
        if ranges[mid].start <= ingredient {
            assert forall|k: int| 0 <= k < mid + 1 implies (#[trigger] ranges@[k]).start <= ingredient by {
                if k < mid {
                    assert(ranges@[k].end + 1 < ranges@[mid as int].start);
                }
            }
            lo = mid + 1;
        } else {
            assert forall|k: int| mid <= k < ranges@.len() implies (#[trigger] ranges@[k]).start > ingredient by {
                if k > mid {
                    assert(ranges@[mid as int].end + 1 < ranges@[k].start);
                }
            }
            hi = mid;
        }
    }
    let r = lo > 0 && ingredient <= ranges[lo - 1].end;
    assert(r == covered(ranges@, ingredient as int)) by {
        if r {
            assert(in_range(ranges@[lo - 1], ingredient as int));
        }
        if covered(ranges@, ingredient as int) {
            let k = choose|k: int| 0 <= k < ranges@.len() && in_range(#[trigger] ranges@[k], ingredient as int);
            if k < lo - 1 {
                assert(ranges@[k].end + 1 < ranges@[lo - 1].start);
            }
        }
    }
    r
}

/// Membership in a collection of ranges.
pub trait Ranges {
    /// The integers that the collection covers.
    spec fn covers(&self, x: int) -> bool;

    /// The collection is a minimal sorted cover.
    spec fn is_canonical(&self) -> bool;

    /// Whether `ingredient` lies in one of the ranges.
    fn contains(&self, ingredient: usize) -> (r: bool)
        requires
            self.is_canonical(),
        ensures
            r == self.covers(ingredient as int),
    ;
}

impl Ranges for Vec<Range> {
    open spec fn covers(&self, x: int) -> bool {
        covered(self@, x)
    }

    open spec fn is_canonical(&self) -> bool {
        canonical(self@)
    }

    fn contains(&self, ingredient: usize) -> (r: bool) {
        ranges_contain(self.as_slice(), ingredient)
    }
}


proof fn lemma_canonical_drop_last(s: Seq<Range>)
    requires
        canonical(s),
        s.len() > 0,
    ensures
        canonical(s.drop_last()),
        s =~= s.drop_last().push(s.last()),
        forall|x: int| covered(s.drop_last(), x) ==> x + 1 < s.last().start,
{
    let p = s.drop_last();
    assert forall|k: int| 0 <= k < p.len() implies (#[trigger] p[k]).start <= p[k].end by {
        assert(p[k] == s[k]);
    }
    assert forall|i: int, j: int| 0 <= i < j < p.len() implies #[trigger] p[i].end + 1 < #[trigger] p[j].start by {
        assert(p[i] == s[i] && p[j] == s[j]);
    }
    assert forall|x: int| covered(p, x) implies x + 1 < s.last().start by {
        let k = choose|k: int| 0 <= k < p.len() && in_range(#[trigger] p[k], x);
        assert(p[k] == s[k]);
        assert(s[k].end + 1 < s[s.len() - 1].start);
    }
}

proof fn lemma_cover_size(s: Seq<Range>)
    requires
        canonical(s),
    ensures
        cover_set(s).finite(),
        cover_set(s).len() == total_size(s),
    decreases s.len(),
{
    if s.len() == 0 {
        assert(cover_set(s) =~= Set::empty());
    } else {
        let p = s.drop_last();
        let l = s.last();
        lemma_canonical_drop_last(s);
        lemma_cover_size(p);
        lemma_int_range(l.start as int, l.end + 1);
        let tail = set_int_range(l.start as int, l.end + 1);
        assert(cover_set(s) =~= cover_set(p) + tail) by {
            assert forall|x: int| cover_set(s).contains(x) == (cover_set(p) + tail).contains(x) by {
                lemma_covered_push(p, l, x);
            }
        }
        assert(cover_set(p).disjoint(tail));
        lemma_set_disjoint_lens(cover_set(p), tail);
    }
}

/// The merged cover counts each covered integer once: for ranges `rs` and a
/// minimal sorted cover `m` of the same integers, the sizes of the ranges of `m`
/// add up to the number of distinct integers that `rs` covers.
pub proof fn lemma_total_size_counts_covered(rs: Seq<Range>, m: Seq<Range>)
    requires
        canonical(m),
        forall|x: int| covered(m, x) == covered(rs, x),
    ensures
        cover_set(rs).finite(),
        cover_set(rs).len() == total_size(m),
{
    lemma_cover_size(m);
    assert(cover_set(rs) =~= cover_set(m));
}

/// Two minimal sorted covers of the same integers are the same sequence.
pub proof fn lemma_canonical_unique(a: Seq<Range>, b: Seq<Range>)
    requires
        canonical(a),
        canonical(b),
        forall|x: int| covered(a, x) == covered(b, x),
    ensures
        a == b,
    decreases a.len() + b.len(),
{
    if a.len() == 0 || b.len() == 0 {
        if a.len() > 0 {
            assert(in_range(a[0], a[0].start as int));
            assert(covered(a, a[0].start as int));
        }
        if b.len() > 0 {
            assert(in_range(b[0], b[0].start as int));
            assert(covered(b, b[0].start as int));
        }
        assert(a =~= b);
    } else {
        let la = a.last();
        let lb = b.last();
        lemma_canonical_drop_last(a);
        lemma_canonical_drop_last(b);
        assert forall|x: int| covered(a, x) == (covered(a.drop_last(), x) || in_range(la, x)) by {
            lemma_covered_push(a.drop_last(), la, x);
        }
        assert forall|x: int| covered(b, x) == (covered(b.drop_last(), x) || in_range(lb, x)) by {
            lemma_covered_push(b.drop_last(), lb, x);
        }
        // The last ranges end at the largest covered integer.
        assert(in_range(la, la.end as int));
        assert(in_range(lb, lb.end as int));
        assert(la.end == lb.end);
        // Each last range starts just after the last gap below its end.
        if la.start < lb.start {
            assert(in_range(la, lb.start - 1));
            assert(covered(b.drop_last(), lb.start - 1));
        }
        if lb.start < la.start {
            assert(in_range(lb, la.start - 1));
            assert(covered(a.drop_last(), la.start - 1));
        }
        assert(la == lb);
        assert forall|x: int| covered(a.drop_last(), x) == covered(b.drop_last(), x) by {
            if covered(a.drop_last(), x) {
                assert(!in_range(lb, x));
            }
            if covered(b.drop_last(), x) {
                assert(!in_range(la, x));
            }
        }
        lemma_canonical_unique(a.drop_last(), b.drop_last());
    }
}

/// Merging is idempotent: merging the merged ranges `m` of `rs` again, into
/// `m2`, gives `m` back.
pub proof fn lemma_merge_idempotent(rs: Seq<Range>, m: Seq<Range>, m2: Seq<Range>)
    requires
        canonical(m),
        forall|x: int| covered(m, x) == covered(rs, x),
        canonical(m2),
        forall|x: int| covered(m2, x) == covered(m, x),
    ensures
        m2 == m,
{
    lemma_canonical_unique(m2, m);
}


/// A range line `start-end`: two unsigned numbers around the first `-`, with
/// `start <= end`.
pub open spec fn range_of_line(l: Seq<u8>) -> Option<Range> {
    let d = find_byte(l, 45u8, 0);
    if d >= l.len() {
        None
    } else {
        match (unsigned_value(l.subrange(0, d)), unsigned_value(l.subrange(d + 1, l.len() as int))) {
            (Some(a), Some(b)) => if b <= usize::MAX && a <= b {
                Some(Range { start: a as usize, end: b as usize })
            } else {
                None
            },
            _ => None,
        }
    }
}

/// The ranges that the lines `ls` write, lines that write none left out.
pub open spec fn listed_ranges(ls: Seq<Seq<u8>>) -> Seq<Range>
    decreases ls.len(),
{
    if ls.len() == 0 {
        Seq::empty()
    } else {
        match range_of_line(ls.last()) {
            Some(r) => listed_ranges(ls.drop_last()).push(r),
            None => listed_ranges(ls.drop_last()),
        }
    }
}

/// The index of the first empty line at or after `i`, or the number of lines.
pub open spec fn first_empty(ls: Seq<Seq<u8>>, i: int) -> int
    decreases ls.len() - i,
{
    if i >= ls.len() {
        ls.len() as int
    } else if ls[i].len() == 0 {
        i
    } else {
        first_empty(ls, i + 1)
    }
}

/// The lines of the range block: those before the first empty line.
pub open spec fn range_lines(t: Seq<u8>) -> Seq<Seq<u8>> {
    lines(t).take(first_empty(lines(t), 0))
}

/// The lines of the ingredient block: those after the first empty line.
pub open spec fn ingredient_lines(t: Seq<u8>) -> Seq<Seq<u8>> {
    let e = first_empty(lines(t), 0);
    if e < lines(t).len() {
        lines(t).subrange(e + 1, lines(t).len() as int)
    } else {
        Seq::empty()
    }
}

/// The ids that the lines `ls` write, lines that write none left out.
pub open spec fn listed_ids(ls: Seq<Seq<u8>>) -> Seq<usize>
    decreases ls.len(),
{
    if ls.len() == 0 {
        Seq::empty()
    } else {
        match unsigned_value(ls.last()) {
            Some(v) => if v <= usize::MAX {
                listed_ids(ls.drop_last()).push(v as usize)
            } else {
                listed_ids(ls.drop_last())
            },
            None => listed_ids(ls.drop_last()),
        }
    }
}

/// How many of `ids` the ranges `rs` cover.
pub open spec fn count_covered(rs: Seq<Range>, ids: Seq<usize>) -> nat
    decreases ids.len(),
{
    if ids.len() == 0 {
        0
    } else {
        count_covered(rs, ids.drop_last()) + if covered(rs, ids.last() as int) {
            1nat
        } else {
            0nat
        }
    }
}

proof fn lemma_first_empty_bounds(ls: Seq<Seq<u8>>, i: int)
    requires
        0 <= i <= ls.len(),
    ensures
        i <= first_empty(ls, i) <= ls.len(),
        first_empty(ls, i) < ls.len() ==> ls[first_empty(ls, i)].len() == 0,
        forall|k: int| i <= k < first_empty(ls, i) ==> ls[k].len() != 0,
    decreases ls.len() - i,
{
    if i < ls.len() && ls[i].len() != 0 {
        lemma_first_empty_bounds(ls, i + 1);
    }
}

/// Reads a range line `start-end`.
pub fn parse_range(s: &[u8]) -> (r: Option<Range>)
    ensures
        r == range_of_line(s@),
{
    let dash = find_from(s, 45u8, 0);
    if dash >= s.len() {
        return None;
    }
    let head = vstd::slice::slice_subrange(s, 0, dash);
    let tail = vstd::slice::slice_subrange(s, dash + 1, s.len());
    let start = parse_unsigned(head, usize::MAX as u64);
    let end = parse_unsigned(tail, usize::MAX as u64);
    match (start, end) {
        (Some(a), Some(b)) => if a <= b {
            Some(Range { start: a as usize, end: b as usize })
        } else {
            None
        },
        _ => None,
    }
}

/// The index of the first empty line among `ls`, or their number.
fn first_empty_line(ls: &Vec<Vec<u8>>) -> (r: usize)
    ensures
        r == first_empty(ls.deep_view(), 0),
{
    let ghost v = ls.deep_view();
    let mut i: usize = 0;
    while i < ls.len() && ls[i].len() != 0
        invariant
            i <= ls@.len(),
            v == ls.deep_view(),
            first_empty(v, i as int) == first_empty(v, 0),
        decreases ls@.len() - i,
    {
        assert(v[i as int] == ls@[i as int]@);
        i = i + 1;
    }
    proof {
        if i < ls.len() {
            assert(v[i as int] == ls@[i as int]@);
        }
    }
    i
}

/// The ranges of the range block, merged into a minimal sorted cover.
pub fn parse_ranges(input: &[u8]) -> (r: Vec<Range>)
    ensures
        canonical(r@),
        forall|x: int| covered(r@, x) == covered(listed_ranges(range_lines(input@)), x),
{
    let ls = split_lines(input);
    let e = first_empty_line(&ls);
    let ghost v = ls.deep_view();
    proof {
        lemma_first_empty_bounds(v, 0);
    }
    let mut found: Vec<Range> = Vec::new();
    let mut i: usize = 0;
    while i < e
        invariant
            i <= e <= ls@.len(),
            v == ls.deep_view(),
            found@ == listed_ranges(v.take(i as int)),
            valid_ranges(found@),
        decreases e - i,
    {
        assert(v.take(i + 1).drop_last() =~= v.take(i as int));
        assert(v[i as int] == ls@[i as int]@);
        let ghost before = found@;
        match parse_range(ls[i].as_slice()) {
            Some(r) => {
                found.push(r);
                assert forall|k: int| 0 <= k < found@.len() implies (#[trigger] found@[k]).start <= found@[k].end by {
                    if k < before.len() {
                        assert(found@[k] == before[k]);
                    }
                }
            },
            None => {},
        }
        i = i + 1;
    }
    merge_ranges(found)
}

/// The ids of the ingredient block.
pub fn parse_ingredients(input: &[u8]) -> (r: Vec<usize>)
    ensures
        r@ == listed_ids(ingredient_lines(input@)),
{
    let ls = split_lines(input);
    let e = first_empty_line(&ls);
    let ghost v = ls.deep_view();
    proof {
        lemma_first_empty_bounds(v, 0);
    }
    let mut ids: Vec<usize> = Vec::new();
    if e == ls.len() {
        assert(listed_ids(ingredient_lines(input@)) =~= Seq::<usize>::empty());
        return ids;
    }
    let ghost w = v.subrange(e + 1, v.len() as int);
    let mut i: usize = e + 1;
    while i < ls.len()
        invariant
            e < i <= ls@.len(),
            v == ls.deep_view(),
            w == v.subrange(e + 1, v.len() as int),
            ids@ == listed_ids(w.take(i - e - 1)),
        decreases ls@.len() - i,
    {
        assert(w.take(i - e).drop_last() =~= w.take(i - e - 1));
        assert(w.take(i - e).last() == ls@[i as int]@);
        match parse_unsigned(ls[i].as_slice(), usize::MAX as u64) {
            Some(x) => {
                ids.push(x as usize);
            },
            None => {},
        }
        i = i + 1;
    }
    assert(w.take(i - e - 1) =~= w);
    ids
}

/// How many ids of the ingredient block lie in a range of the range block.
pub fn part1_impl(input: &[u8]) -> (r: usize)
    ensures
        r == count_covered(listed_ranges(range_lines(input@)), listed_ids(ingredient_lines(input@))),
{
    let ranges = parse_ranges(input);
    let ids = parse_ingredients(input);
    let ghost rs = listed_ranges(range_lines(input@));
    let mut count: usize = 0;
    let mut i: usize = 0;
    while i < ids.len()
        invariant
            i <= ids@.len(),
            canonical(ranges@),
            forall|x: int| covered(ranges@, x) == covered(rs, x),
            count == count_covered(rs, ids@.take(i as int)),
            count <= i,
        decreases ids@.len() - i,
    {
        assert(ids@.take(i + 1).drop_last() =~= ids@.take(i as int));
        if ranges.contains(ids[i]) {
            count = count + 1;
        }
        i = i + 1;
    }
    assert(ids@.take(i as int) =~= ids@);
    count
}

/// How many distinct integers the ranges of the range block cover.
pub fn part2_impl(input: &[u8]) -> (r: usize)
    requires
        cover_set(listed_ranges(range_lines(input@))).len() <= usize::MAX,
    ensures
        cover_set(listed_ranges(range_lines(input@))).finite(),
        r == cover_set(listed_ranges(range_lines(input@))).len(),
{
    let ranges = parse_ranges(input);
    proof {
        lemma_total_size_counts_covered(listed_ranges(range_lines(input@)), ranges@);
    }
    let mut total: usize = 0;
    let mut i: usize = 0;
    while i < ranges.len()
        invariant
            i <= ranges@.len(),
            canonical(ranges@),
            total_size(ranges@) <= usize::MAX,
            total == total_size(ranges@.take(i as int)),
        decreases ranges@.len() - i,
    {
        proof {
            lemma_total_size_prefix(ranges@, i + 1);
        }
        assert(ranges@.take(i + 1).drop_last() =~= ranges@.take(i as int));
        let size = ranges[i].size();
        total = total + size;
        i = i + 1;
    }
    assert(ranges@.take(i as int) =~= ranges@);
    total
}

proof fn lemma_total_size_prefix(s: Seq<Range>, n: int)
    requires
        valid_ranges(s),
        0 <= n <= s.len(),
    ensures
        total_size(s.take(n)) <= total_size(s),
        n > 0 ==> s[n - 1].end - s[n - 1].start + 1 <= total_size(s.take(n)),
    decreases s.len() - n,
{
    if n > 0 {
        assert(s.take(n).drop_last() =~= s.take(n - 1));
        lemma_total_size_nonneg(s.take(n - 1));
    }
    if n < s.len() {
        lemma_total_size_prefix(s, n + 1);
        assert(s.take(n + 1).drop_last() =~= s.take(n));
    } else {
        assert(s.take(n) =~= s);
    }
}

proof fn lemma_total_size_nonneg(s: Seq<Range>)
    requires
        valid_ranges(s),
    ensures
        total_size(s) >= 0,
    decreases s.len(),
{
    if s.len() > 0 {
        assert(valid_ranges(s.drop_last())) by {
            assert forall|k: int| 0 <= k < s.drop_last().len() implies (#[trigger] s.drop_last()[k]).start <= s.drop_last()[k].end by {
                assert(s.drop_last()[k] == s[k]);
            }
        }
        lemma_total_size_nonneg(s.drop_last());
    }
}

} // verus!
