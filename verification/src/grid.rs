//! Grids of string cells, as nested sequences of characters.
use vstd::prelude::*;

verus! {

/// All rows of the grid have the length of the first, which is not zero.
pub open spec fn is_rectangular(g: Seq<Seq<Seq<char>>>) -> bool {
    &&& g.len() > 0
    &&& g[0].len() > 0
    &&& forall|r: int| 0 <= r < g.len() ==> (#[trigger] g[r]).len() == g[0].len()
}

/// All rows of the grid have the same length (no condition on an empty grid).
pub open spec fn rows_same_length(g: Seq<Seq<Seq<char>>>) -> bool {
    forall|r: int| 0 <= r < g.len() ==> (#[trigger] g[r]).len() == g[0].len()
}

/// The `rows` x `cols` block of `g` whose top-left cell is `(top, left)`.
pub open spec fn subgrid(g: Seq<Seq<Seq<char>>>, top: int, left: int, rows: int, cols: int) -> Seq<
    Seq<Seq<char>>,
> {
    Seq::new(rows as nat, |r: int| g[top + r].subrange(left, left + cols))
}

/// The cell holding a single space.
pub open spec fn space() -> Seq<char> {
    seq![' ']
}

/// `grid` has at least one row, its first row is not empty and every row has that length.
pub fn is_rectangular_grid(grid: &[Vec<String>]) -> (r: bool)
    ensures
        r == is_rectangular(grid.deep_view()),
{
    let ghost g = grid.deep_view();
    if grid.len() == 0 {
        return false;
    }
    let w = grid[0].len();
    if w == 0 {
        return false;
    }
    let mut i: usize = 0;
    while i < grid.len()
        invariant
            g == grid.deep_view(),
            grid@.len() > 0,
            w == g[0].len(),
            i <= grid@.len(),
            forall|r: int| 0 <= r < i ==> (#[trigger] g[r]).len() == w,
        decreases grid.len() - i,
    {
        assert(g[i as int].len() == grid@[i as int]@.len());
        if grid[i].len() != w {
            return false;
        }
        i += 1;
    }
    true
}

/// Every row of `grid` has the length of the first (true for an empty grid).
pub fn all_rows_same_length(grid: &[Vec<String>]) -> (r: bool)
    ensures
        r == rows_same_length(grid.deep_view()),
{
    let ghost g = grid.deep_view();
    if grid.len() == 0 {
        return true;
    }
    let w = grid[0].len();
    let mut i: usize = 0;
    while i < grid.len()
        invariant
            g == grid.deep_view(),
            grid@.len() > 0,
            w == g[0].len(),
            i <= grid@.len(),
            forall|r: int| 0 <= r < i ==> (#[trigger] g[r]).len() == w,
        decreases grid.len() - i,
    {
        assert(g[i as int].len() == grid@[i as int]@.len());
        if grid[i].len() != w {
            return false;
        }
        i += 1;
    }
    true
}

/// A copy of the cells of row `row`, columns `left .. left + cols`.
pub fn copy_row_range(row: &Vec<String>, left: usize, cols: usize) -> (out: Vec<String>)
    requires
        left + cols <= row@.len(),
    ensures
        out.deep_view() == row.deep_view().subrange(left as int, left + cols),
{
    let n = row.len();
    let mut out: Vec<String> = Vec::new();
    for c in 0..cols
        invariant
            n == row@.len(),
            left + cols <= n,
            out@.len() == c,
            forall|i: int| 0 <= i < c ==> (#[trigger] out@[i])@ == row@[left + i]@,
    {
        out.push(row[left + c].clone());
    }
    assert(out.deep_view() =~= row.deep_view().subrange(left as int, left + cols));
    out
}

/// A copy of the `rows` x `cols` block of `grid` whose top-left cell is `(top, left)`.
pub fn copy_subgrid(grid: &[Vec<String>], top: usize, left: usize, rows: usize, cols: usize) -> (out: Vec<
    Vec<String>,
>)
    requires
        top + rows <= grid@.len(),
        forall|r: int| top <= r < top + rows ==> left + cols <= (#[trigger] grid@[r])@.len(),
    ensures
        out.deep_view() == subgrid(grid.deep_view(), top as int, left as int, rows as int, cols as int),
{
    let ghost g = grid.deep_view();
    let n = grid.len();
    let mut out: Vec<Vec<String>> = Vec::new();
    for r in 0..rows
        invariant
            g == grid.deep_view(),
            n == grid@.len(),
            top + rows <= n,
            forall|r: int| top <= r < top + rows ==> left + cols <= (#[trigger] grid@[r])@.len(),
            out@.len() == r,
            forall|i: int|
                0 <= i < r ==> (#[trigger] out@[i]).deep_view() == g[top + i].subrange(
                    left as int,
                    left + cols,
                ),
    {
        let row = copy_row_range(&grid[top + r], left, cols);
        out.push(row);
    }
    assert(out.deep_view() =~= subgrid(g, top as int, left as int, rows as int, cols as int));
    out
}

/// A copy of `grid`.
pub fn copy_grid(grid: &[Vec<String>]) -> (out: Vec<Vec<String>>)
    ensures
        out.deep_view() == grid.deep_view(),
{
    let mut out: Vec<Vec<String>> = Vec::new();
    for r in 0..grid.len()
        invariant
            out@.len() == r,
            forall|i: int| 0 <= i < r ==> (#[trigger] out@[i]).deep_view() == grid@[i].deep_view(),
    {
        let row = copy_row_range(&grid[r], 0, grid[r].len());
        assert(row.deep_view() =~= grid@[r as int].deep_view());
        out.push(row);
    }
    assert(out.deep_view() =~= grid.deep_view());
    out
}

} // verus!
