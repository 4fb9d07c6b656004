//! Paper rolls on a grid: a roll is accessible when fewer than four of the eight
//! cells around it hold rolls; accessible rolls are removed, pass after pass.

use vstd::prelude::*;
use crate::text::{lemma_lines_len, lines, split_lines, total_len};

verus! {

/// `1` when `(x, y)` lies in the grid and holds a roll, else `0`.
pub open spec fn cell(g: Seq<Seq<bool>>, x: int, y: int) -> nat {
    if 0 <= x < g.len() && 0 <= y < g[x].len() && g[x][y] {
        1
    } else {
        0
    }
}

/// The number of rolls among the eight cells around `(i, j)`.
pub open spec fn neighbours(g: Seq<Seq<bool>>, i: int, j: int) -> nat {
    cell(g, i - 1, j - 1) + cell(g, i - 1, j) + cell(g, i - 1, j + 1) + cell(g, i, j - 1) + cell(
        g,
        i,
        j + 1,
    ) + cell(g, i + 1, j - 1) + cell(g, i + 1, j) + cell(g, i + 1, j + 1)
}

/// `(i, j)` holds a roll with fewer than four rolls around it.
pub open spec fn accessible(g: Seq<Seq<bool>>, i: int, j: int) -> bool {
    cell(g, i, j) == 1 && neighbours(g, i, j) < 4
}

/// The grid after one pass: every accessible roll removed at once.
pub open spec fn eroded(g: Seq<Seq<bool>>) -> Seq<Seq<bool>> {
    Seq::new(g.len(), |i: int| Seq::new(g[i].len(), |j: int| g[i][j] && !accessible(g, i, j)))
}

/// The number of accessible cells among the first `n` of row `i`.
pub open spec fn row_accessible(g: Seq<Seq<bool>>, i: int, n: int) -> nat
    decreases n,
{
    if n <= 0 {
        0
    } else {
        row_accessible(g, i, n - 1) + if accessible(g, i, n - 1) {
            1nat
        } else {
            0nat
        }
    }
}

/// The number of accessible cells in the first `m` rows.
pub open spec fn grid_accessible(g: Seq<Seq<bool>>, m: int) -> nat
    decreases m,
{
    if m <= 0 {
        0
    } else {
        grid_accessible(g, m - 1) + row_accessible(g, m - 1, g[m - 1].len() as int)
    }
}

/// The number of accessible cells of the grid.
pub open spec fn accessible_count(g: Seq<Seq<bool>>) -> nat {
    grid_accessible(g, g.len() as int)
}

/// The number of rolls among the first `n` cells of a row.
pub open spec fn row_rolls(r: Seq<bool>, n: int) -> nat
    decreases n,
{
    if n <= 0 {
        0
    } else {
        row_rolls(r, n - 1) + if r[n - 1] {
            1nat
        } else {
            0nat
        }
    }
}

/// The number of rolls in the first `m` rows.
pub open spec fn grid_rolls(g: Seq<Seq<bool>>, m: int) -> nat
    decreases m,
{
    if m <= 0 {
        0
    } else {
        grid_rolls(g, m - 1) + row_rolls(g[m - 1], g[m - 1].len() as int)
    }
}

/// The number of rolls on the grid.
pub open spec fn roll_count(g: Seq<Seq<bool>>) -> nat {
    grid_rolls(g, g.len() as int)
}

/// The number of cells in the first `m` rows.
pub open spec fn grid_cells(g: Seq<Seq<bool>>, m: int) -> nat
    decreases m,
{
    if m <= 0 {
        0
    } else {
        grid_cells(g, m - 1) + g[m - 1].len()
    }
}

/// The number of cells of the grid.
pub open spec fn cell_count(g: Seq<Seq<bool>>) -> nat {
    grid_cells(g, g.len() as int)
}

proof fn lemma_row_erosion(g: Seq<Seq<bool>>, i: int, n: int)
    requires
        0 <= i < g.len(),
        0 <= n <= g[i].len(),
    ensures
        row_rolls(eroded(g)[i], n) + row_accessible(g, i, n) == row_rolls(g[i], n),
        row_rolls(g[i], n) <= n,
    decreases n,
{
    if n > 0 {
        lemma_row_erosion(g, i, n - 1);
    }
}

proof fn lemma_grid_erosion(g: Seq<Seq<bool>>, m: int)
    requires
        0 <= m <= g.len(),
    ensures
        grid_rolls(eroded(g), m) + grid_accessible(g, m) == grid_rolls(g, m),
        grid_cells(eroded(g), m) == grid_cells(g, m),
        grid_rolls(g, m) <= grid_cells(g, m),
    decreases m,
{
    if m > 0 {
        lemma_grid_erosion(g, m - 1);
        lemma_row_erosion(g, m - 1, g[m - 1].len() as int);
    }
}

/// A pass removes exactly the accessible rolls and keeps the grid's shape.
pub proof fn lemma_erosion_counts(g: Seq<Seq<bool>>)
    ensures
        roll_count(eroded(g)) + accessible_count(g) == roll_count(g),
        cell_count(eroded(g)) == cell_count(g),
        roll_count(g) <= cell_count(g),
{
    lemma_grid_erosion(g, g.len() as int);
}

/// The number of rolls removed by passes repeated until one removes none.
pub open spec fn removed_to_fixpoint(g: Seq<Seq<bool>>) -> nat
    decreases roll_count(g)
    via removed_to_fixpoint_decreases
{
    if accessible_count(g) == 0 {
        0
    } else {
        accessible_count(g) + removed_to_fixpoint(eroded(g))
    }
}

#[via_fn]
proof fn removed_to_fixpoint_decreases(g: Seq<Seq<bool>>) {
    lemma_erosion_counts(g);
}

/// Whether `(x, y)` lies in the grid and holds a roll.
fn occupied(map: &Vec<Vec<bool>>, x: usize, y: usize) -> (r: bool)
    ensures
        r == (cell(map.deep_view(), x as int, y as int) == 1),
{
    if x < map.len() && y < map[x].len() {
        assert(map.deep_view()[x as int] == map@[x as int].deep_view());
        assert(map@[x as int].deep_view()[y as int] == map@[x as int]@[y as int]);
        map[x][y]
    } else {
        false
    }
}

/// The number of rolls around `(i, j)`.
fn neighbours_of(map: &Vec<Vec<bool>>, i: usize, j: usize) -> (r: usize)
    requires
        i < map@.len(),
        j < map@[i as int]@.len(),
    ensures
        r == neighbours(map.deep_view(), i as int, j as int),
{
    let ghost g = map.deep_view();
    // Reading both lengths tells the verifier that `i + 1` and `j + 1` fit.
    let _width = map[i].len();
    let _height = map.len();
    let mut n: usize = 0;
    if i > 0 {
        if j > 0 && occupied(map, i - 1, j - 1) {
            n = n + 1;
        }
        if occupied(map, i - 1, j) {
            n = n + 1;
        }
        if occupied(map, i - 1, j + 1) {
            n = n + 1;
        }
    }
    if j > 0 && occupied(map, i, j - 1) {
        n = n + 1;
    }
    if occupied(map, i, j + 1) {
        n = n + 1;
    }
    if j > 0 && occupied(map, i + 1, j - 1) {
        n = n + 1;
    }
    if occupied(map, i + 1, j) {
        n = n + 1;
    }
    if occupied(map, i + 1, j + 1) {
        n = n + 1;
    }
    n
}

proof fn lemma_grid_cells_prefix(g: Seq<Seq<bool>>, m: int)
    requires
        0 <= m <= g.len(),
    ensures
        grid_cells(g, m) <= cell_count(g),
    decreases g.len() - m,
{
    if m < g.len() {
        lemma_grid_cells_prefix(g, m + 1);
    }
}

/// Removes, in one pass, every roll that has fewer than four rolls around it,
/// judged on the grid as it was before the pass; returns how many it removed.
pub fn remove_accessible(map: &mut Vec<Vec<bool>>) -> (r: usize)
    requires
        cell_count(old(map).deep_view()) <= usize::MAX,
    ensures
        final(map).deep_view() == eroded(old(map).deep_view()),
        r == accessible_count(old(map).deep_view()),
{
    let ghost g = map.deep_view();
    let mut next: Vec<Vec<bool>> = Vec::new();
    let mut count: usize = 0;
    let mut i: usize = 0;
    while i < map.len()
        invariant
            g == map.deep_view(),
            g.len() == map@.len(),
            i <= map@.len(),
            cell_count(g) <= usize::MAX,
            next@.len() == i,
            next.deep_view() == eroded(g).take(i as int),
            count == grid_accessible(g, i as int),
            count <= grid_cells(g, i as int),
        decreases map@.len() - i,
    {
        proof {
            lemma_grid_cells_prefix(g, i + 1);
        }
        assert(g[i as int] == map@[i as int].deep_view());
        assert(map@[i as int].deep_view() =~= map@[i as int]@);
        let mut row: Vec<bool> = Vec::new();
        let mut j: usize = 0;
        while j < map[i].len()
            invariant
                g == map.deep_view(),
                g.len() == map@.len(),
                i < map@.len(),
                g[i as int] == map@[i as int]@,
                j <= map@[i as int]@.len(),
                grid_cells(g, i + 1) <= usize::MAX,
                row@ == eroded(g)[i as int].take(j as int),
                count == grid_accessible(g, i as int) + row_accessible(g, i as int, j as int),
                count <= grid_cells(g, i as int) + j,
            decreases map@[i as int]@.len() - j,
        {
            let c = map[i][j];
            let acc = c && neighbours_of(map, i, j) < 4;
            if acc {
                count = count + 1;
            }
            row.push(c && !acc);
            assert(row@ =~= eroded(g)[i as int].take(j + 1));
            j = j + 1;
        }
        assert(row@ =~= eroded(g)[i as int]);
        let ghost before = next.deep_view();
        let ghost old_next = next@;
        assert(row.deep_view() =~= row@);
        next.push(row);
        assert(next.deep_view() =~= eroded(g).take(i + 1)) by {
            assert forall|k: int| 0 <= k < next@.len() implies next.deep_view()[k] == eroded(g).take(i + 1)[k] by {
                if k < i {
                    assert(next@[k] == old_next[k]);
                    assert(before[k] == old_next[k].deep_view());
                }
            }
        }
        i = i + 1;
    }
    assert(eroded(g).take(i as int) =~= eroded(g));
    *map = next;
    count
}


/// A line of the grid: `@` is a roll, any other byte an empty cell.
pub open spec fn row_of(l: Seq<u8>) -> Seq<bool> {
    l.map_values(|b: u8| b == 64u8)
}

/// The grid that a text draws, one row per line.
pub open spec fn grid_of(t: Seq<u8>) -> Seq<Seq<bool>> {
    lines(t).map_values(|l: Seq<u8>| row_of(l))
}

proof fn lemma_grid_cells_of_lines(ls: Seq<Seq<u8>>, m: int)
    requires
        0 <= m <= ls.len(),
    ensures
        grid_cells(ls.map_values(|l: Seq<u8>| row_of(l)), m) == total_len(ls.take(m)),
    decreases m,
{
    if m > 0 {
        lemma_grid_cells_of_lines(ls, m - 1);
        assert(ls.take(m).drop_last() =~= ls.take(m - 1));
    } else {
        assert(ls.take(0) =~= Seq::<Seq<u8>>::empty());
    }
}

/// The grid has no more cells than the text has bytes.
proof fn lemma_grid_of_cells(t: Seq<u8>)
    ensures
        cell_count(grid_of(t)) <= t.len(),
{
    lemma_grid_cells_of_lines(lines(t), lines(t).len() as int);
    assert(lines(t).take(lines(t).len() as int) =~= lines(t));
    lemma_lines_len(t);
}

/// The grid that the input draws.
pub fn parse(input: &[u8]) -> (r: Vec<Vec<bool>>)
    ensures
        r.deep_view() == grid_of(input@),
{
    let ls = split_lines(input);
    let ghost v = ls.deep_view();
    let mut r: Vec<Vec<bool>> = Vec::new();
    let mut i: usize = 0;
    while i < ls.len()
        invariant
            i <= ls@.len(),
            v == ls.deep_view(),
            v.len() == ls@.len(),
            r@.len() == i,
            r.deep_view() == v.take(i as int).map_values(|l: Seq<u8>| row_of(l)),
        decreases ls@.len() - i,
    {
        assert(v[i as int] == ls@[i as int].deep_view());
        assert(ls@[i as int].deep_view() =~= ls@[i as int]@);
        let mut row: Vec<bool> = Vec::new();
        let mut j: usize = 0;
        while j < ls[i].len()
            invariant
                i < ls@.len(),
                j <= ls@[i as int]@.len(),
                row@ == row_of(ls@[i as int]@).take(j as int),
            decreases ls@[i as int]@.len() - j,
        {
            row.push(ls[i][j] == 64u8);
            assert(row@ =~= row_of(ls@[i as int]@).take(j + 1));
            j = j + 1;
        }
        assert(row@ =~= row_of(ls@[i as int]@));
        let ghost before = r.deep_view();
        let ghost old_r = r@;
        assert(row.deep_view() =~= row@);
        r.push(row);
        assert(r.deep_view() =~= v.take(i + 1).map_values(|l: Seq<u8>| row_of(l))) by {
            assert forall|k: int| 0 <= k < r@.len() implies r.deep_view()[k] == v.take(i + 1).map_values(|l: Seq<u8>| row_of(l))[k] by {
                if k < i {
                    assert(r@[k] == old_r[k]);
                    assert(before[k] == old_r[k].deep_view());
                }
            }
        }
        i = i + 1;
    }
    assert(v.take(i as int) =~= v);
    r
}

/// The number of rolls that one pass removes from the input's grid.
pub fn part1_impl(input: &[u8]) -> (r: usize)
    ensures
        r == accessible_count(grid_of(input@)),
{
    let mut map = parse(input);
    let _len = input.len();
    proof {
        lemma_grid_of_cells(input@);
    }
    remove_accessible(&mut map)
}

/// The number of rolls removed from the input's grid by passes repeated until
/// one removes none.
pub fn part2_impl(input: &[u8]) -> (r: usize)
    ensures
        r == removed_to_fixpoint(grid_of(input@)),
{
    let mut map = parse(input);
    let _len = input.len();
    let ghost g0 = map.deep_view();
    proof {
        lemma_grid_of_cells(input@);
        lemma_erosion_counts(g0);
    }
    let mut removed_total: usize = 0;
    loop
        invariant
            g0 == grid_of(input@),
            cell_count(map.deep_view()) == cell_count(g0),
            cell_count(g0) <= usize::MAX,
            roll_count(map.deep_view()) + removed_total == roll_count(g0),
            roll_count(g0) <= cell_count(g0),
            removed_total + removed_to_fixpoint(map.deep_view()) == removed_to_fixpoint(g0),
        decreases roll_count(map.deep_view()),
    {
        let ghost g = map.deep_view();
        proof {
            lemma_erosion_counts(g);
        }
        let removed = remove_accessible(&mut map);
        if removed > 0 {
            removed_total = removed_total + removed;
        } else {
            assert(removed_to_fixpoint(g) == 0);
            return removed_total;
        }
    }
}

} // verus!
