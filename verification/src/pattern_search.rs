//! Searching arrow grids: dimensions, counts, exact pattern matches and the best alignment of an
//! observed grid against an expected one.
use vstd::prelude::*;

use crate::arrow_perm::{
    all_arrow_perms, apply_arrow_perm_str, cell_perm_ranks, cell_rank, glyph_cells, is_rank_perm,
    lists_all_perms, perm_code, permute_grid,
};
use crate::cells::{arrow_cell, char_to_string, chars_of, first_char_or_space, is_arrow_cell};
use crate::grid::is_rectangular;
use crate::grid_xform::{apply_xform, is_rect, lemma_xform_undone_by_inverse, xform_grid, xform_ok, GridXform};
use crate::minify_arrow_grid::{before_in_row_major, rank_glyph};

verus! {

// ---------------------------------------------------------------------------
// Dimensions and counts
// ---------------------------------------------------------------------------
/// `(rows, columns)` of a grid whose rows all have the length of the first, which is not zero.
pub fn grid_dims(grid: &[Vec<String>]) -> (r: Option<(usize, usize)>)
    ensures
        r is Some <==> is_rectangular(grid.deep_view()),
        r matches Some(d) ==> d.0 == grid@.len() && d.1 == grid.deep_view()[0].len(),
{
    let ghost g = grid.deep_view();
    let h = grid.len();
    if h == 0 {
        return None;
    }
    let w = grid[0].len();
    assert(g[0].len() == w);
    if w == 0 {
        return None;
    }
    for r in 0..h
        invariant
            g == grid.deep_view(),
            h == g.len(),
            w == g[0].len(),
            forall|i: int| 0 <= i < r ==> (#[trigger] g[i]).len() == w,
    {
        assert(g[r as int].len() == grid@[r as int]@.len());
        if grid[r].len() != w {
            return None;
        }
    }
    Some((h, w))
}

/// Number of arrow cells among the first `n` cells of a row.
pub open spec fn row_arrow_count(row: Seq<Seq<char>>, n: int) -> int
    decreases n,
{
    if n <= 0 {
        0
    } else {
        row_arrow_count(row, n - 1) + (if arrow_cell(row[n - 1]) {
            1int
        } else {
            0int
        })
    }
}

/// Number of arrow cells in the first `n` rows of a grid.
pub open spec fn grid_arrow_count(g: Seq<Seq<Seq<char>>>, n: int) -> int
    decreases n,
{
    if n <= 0 {
        0
    } else {
        grid_arrow_count(g, n - 1) + row_arrow_count(g[n - 1], g[n - 1].len() as int)
    }
}

/// Number of arrow cells of a grid.
pub open spec fn arrow_total(g: Seq<Seq<Seq<char>>>) -> int {
    grid_arrow_count(g, g.len() as int)
}

/// Number of cells in the first `n` rows of a grid.
pub open spec fn cell_total(g: Seq<Seq<Seq<char>>>, n: int) -> int
    decreases n,
{
    if n <= 0 {
        0
    } else {
        cell_total(g, n - 1) + g[n - 1].len()
    }
}

proof fn lemma_row_arrow_count_bound(row: Seq<Seq<char>>, n: int)
    ensures
        0 <= row_arrow_count(row, n) <= (if n > 0 { n } else { 0 }),
    decreases n,
{
    if n > 0 {
        lemma_row_arrow_count_bound(row, n - 1);
    }
}

proof fn lemma_cell_total_monotone(g: Seq<Seq<Seq<char>>>, a: int, b: int)
    requires
        0 <= a <= b,
    ensures
        0 <= cell_total(g, a) <= cell_total(g, b),
    decreases b - a,
{
    if a < b {
        lemma_cell_total_monotone(g, a, b - 1);
    } else {
        lemma_cell_total_nonneg(g, a);
    }
}

proof fn lemma_cell_total_nonneg(g: Seq<Seq<Seq<char>>>, a: int)
    ensures
        0 <= cell_total(g, a),
    decreases a,
{
    if a > 0 {
        lemma_cell_total_nonneg(g, a - 1);
    }
}

/// Number of cells of `grid`, when it fits in a `usize`.
pub fn cell_count(grid: &[Vec<String>]) -> (r: Option<usize>)
    ensures
        r is Some <==> cell_total(grid.deep_view(), grid@.len() as int) <= usize::MAX,
        r matches Some(n) ==> n == cell_total(grid.deep_view(), grid@.len() as int),
{
    let ghost g = grid.deep_view();
    let mut n: usize = 0;
    for r in 0..grid.len()
        invariant
            g == grid.deep_view(),
            n == cell_total(g, r as int),
    {
        proof {
            lemma_cell_total_nonneg(g, r as int);
            assert(g[r as int].len() == grid@[r as int]@.len());
        }
        let len = grid[r].len();
        if n > usize::MAX - len {
            proof {
                lemma_cell_total_monotone(g, r + 1, g.len() as int);
            }
            return None;
        }
        n = n + len;
    }
    Some(n)
}

/// Number of cells of `grid` that are one arrow glyph.
pub fn arrow_count(grid: &[Vec<String>]) -> (n: usize)
    requires
        cell_total(grid.deep_view(), grid@.len() as int) <= usize::MAX,
    ensures
        n == arrow_total(grid.deep_view()),
{
    let ghost g = grid.deep_view();
    let mut n: usize = 0;
    for r in 0..grid.len()
        invariant
            g == grid.deep_view(),
            cell_total(g, g.len() as int) <= usize::MAX,
            n == grid_arrow_count(g, r as int),
            n <= cell_total(g, r as int),
    {
        let row = &grid[r];
        assert(row.deep_view() == g[r as int]);
        let m = row.len();
        proof {
            lemma_cell_total_monotone(g, r + 1, g.len() as int);
        }
        for c in 0..m
            invariant
                g == grid.deep_view(),
                row.deep_view() == g[r as int],
                m == g[r as int].len(),
                r < g.len(),
                cell_total(g, r + 1) <= usize::MAX,
                grid_arrow_count(g, r as int) <= cell_total(g, r as int),
                n == grid_arrow_count(g, r as int) + row_arrow_count(g[r as int], c as int),
                row_arrow_count(g[r as int], c as int) <= c,
        {
            assert(g[r as int][c as int] == row@[c as int]@);
            proof {
                lemma_row_arrow_count_bound(g[r as int], c as int);
            }
            if is_arrow_cell(row[c].as_str()) {
                n += 1;
            }
        }
    }
    n
}

// ---------------------------------------------------------------------------
// 6x6 patches
// ---------------------------------------------------------------------------
/// The 6x6 patch of `obs` at `(obs_row, obs_col)` equals the 6x6 patch of `exp` whose top-left
/// cell is column `exp_x`, row `exp_y`; both grids rectangular and both patches inside them.
pub open spec fn patch_matches(
    obs: Seq<Seq<Seq<char>>>,
    obs_row: int,
    obs_col: int,
    exp: Seq<Seq<Seq<char>>>,
    exp_x: int,
    exp_y: int,
) -> bool {
    &&& exp_x >= 0
    &&& exp_y >= 0
    &&& is_rectangular(exp)
    &&& is_rectangular(obs)
    &&& obs_row + 6 <= obs.len()
    &&& obs_col + 6 <= obs[0].len()
    &&& exp_y + 6 <= exp.len()
    &&& exp_x + 6 <= exp[0].len()
    &&& forall|r: int, c: int|
        0 <= r < 6 && 0 <= c < 6 ==> #[trigger] obs[obs_row + r][obs_col + c] == exp[exp_y + r][exp_x + c]
}

/// The 6x6 patch of the observed grid at `(obs_row, obs_col)` equals the expected grid's patch
/// at column `exp_x`, row `exp_y`.
pub fn patch_matches_expected(
    observed_minified: &[Vec<String>],
    obs_row: usize,
    obs_col: usize,
    expected: &[Vec<String>],
    exp_x: i32,
    exp_y: i32,
) -> (b: bool)
    ensures
        b == patch_matches(
            observed_minified.deep_view(),
            obs_row as int,
            obs_col as int,
            expected.deep_view(),
            exp_x as int,
            exp_y as int,
        ),
{
    let ghost o = observed_minified.deep_view();
    let ghost e = expected.deep_view();
    if exp_x < 0 || exp_y < 0 {
        return false;
    }
    let (eh, ew) = match grid_dims(expected) {
        Some(v) => v,
        None => {
            return false;
        },
    };
    let (oh, ow) = match grid_dims(observed_minified) {
        Some(v) => v,
        None => {
            return false;
        },
    };
    let ex = exp_x as usize;
    let ey = exp_y as usize;
    assert(ex == exp_x && ey == exp_y);
    if obs_row > oh || oh - obs_row < 6 || obs_col > ow || ow - obs_col < 6 {
        return false;
    }
    if ey > eh || eh - ey < 6 || ex > ew || ew - ex < 6 {
        return false;
    }
    for r in 0..6usize
        invariant
            o == observed_minified.deep_view(),
            e == expected.deep_view(),
            ex == exp_x,
            ey == exp_y,
            is_rectangular(o),
            is_rectangular(e),
            oh == o.len(),
            ow == o[0].len(),
            eh == e.len(),
            ew == e[0].len(),
            obs_row + 6 <= oh,
            obs_col + 6 <= ow,
            ey + 6 <= eh,
            ex + 6 <= ew,
            forall|rr: int, c: int|
                0 <= rr < r && 0 <= c < 6 ==> #[trigger] o[obs_row + rr][obs_col + c] == e[ey + rr][ex + c],
    {
        for c in 0..6usize
            invariant
                o == observed_minified.deep_view(),
                e == expected.deep_view(),
                ex == exp_x,
                ey == exp_y,
                is_rectangular(o),
                is_rectangular(e),
                oh == o.len(),
                ow == o[0].len(),
                eh == e.len(),
                ew == e[0].len(),
                r < 6,
                obs_row + 6 <= oh,
                obs_col + 6 <= ow,
                ey + 6 <= eh,
                ex + 6 <= ew,
                forall|rr: int, cc: int|
                    0 <= rr < r && 0 <= cc < 6 ==> #[trigger] o[obs_row + rr][obs_col + cc] == e[ey + rr][ex + cc],
                forall|cc: int| 0 <= cc < c ==> #[trigger] o[obs_row + r][obs_col + cc] == e[ey + r][ex + cc],
        {
            assert(o[obs_row + r].len() == ow);
            assert(e[ey + r].len() == ew);
            assert(o[obs_row + r][obs_col + c] == observed_minified@[obs_row + r]@[obs_col + c]@);
            assert(e[ey + r][ex + c] == expected@[ey + r]@[ex + c]@);
            let a = &observed_minified[obs_row + r][obs_col + c];
            let b = &expected[ey + r][ex + c];
            if !a.eq(b) {
                assert(!patch_matches(o, obs_row as int, obs_col as int, e, exp_x as int, exp_y as int)) by {
                    assert(o[obs_row + r][obs_col + c] != e[ey + r][ex + c]);
                    assert(0 <= r < 6 && 0 <= c < 6);
                }
                return false;
            }
        }
    }
    true
}

// ---------------------------------------------------------------------------
// Exact pattern search
// ---------------------------------------------------------------------------
/// `c` is a Unicode white-space character (what `char::is_whitespace` and `str::trim` go by).
pub open spec fn is_space_char(c: char) -> bool {
    ||| ('\t' <= c && c <= '\r')
    ||| c == ' '
    ||| c == '\u{85}'
    ||| c == '\u{a0}'
    ||| c == '\u{1680}'
    ||| ('\u{2000}' <= c && c <= '\u{200a}')
    ||| c == '\u{2028}'
    ||| c == '\u{2029}'
    ||| c == '\u{202f}'
    ||| c == '\u{205f}'
    ||| c == '\u{3000}'
}

/// The cell is empty once white space is trimmed.
pub open spec fn is_blank(cell: Seq<char>) -> bool {
    forall|i: int| 0 <= i < cell.len() ==> is_space_char(#[trigger] cell[i])
}

pub(crate) fn is_space(c: char) -> (b: bool)
    ensures
        b == is_space_char(c),
{
    ('\t' <= c && c <= '\r') || c == ' ' || c == '\u{85}' || c == '\u{a0}' || c == '\u{1680}' || (
    '\u{2000}' <= c && c <= '\u{200a}') || c == '\u{2028}' || c == '\u{2029}' || c == '\u{202f}' || c
        == '\u{205f}' || c == '\u{3000}'
}

/// The cell is empty once white space is trimmed (`s.trim().is_empty()`).
fn is_blank_cell(s: &String) -> (b: bool)
    ensures
        b == is_blank(s@),
{
    let cs = chars_of(s.as_str());
    for i in 0..cs.len()
        invariant
            cs@ == s@,
            forall|k: int| 0 <= k < i ==> is_space_char(#[trigger] cs@[k]),
    {
        if !is_space(cs[i]) {
            return false;
        }
    }
    true
}

/// The pattern sits at `(top, left)` of the grid: each covered cell is not blank and equals the
/// pattern's cell.
pub open spec fn pattern_at(g: Seq<Seq<Seq<char>>>, p: Seq<Seq<Seq<char>>>, top: int, left: int) -> bool {
    forall|r: int, c: int|
        0 <= r < p.len() && 0 <= c < p[0].len() ==> !is_blank(#[trigger] g[top + r][left + c]) && g[top
            + r][left + c] == p[r][c]
}

/// Both grids are rectangular and the pattern fits in the grid.
pub open spec fn pattern_fits(g: Seq<Seq<Seq<char>>>, p: Seq<Seq<Seq<char>>>) -> bool {
    &&& is_rectangular(g)
    &&& is_rectangular(p)
    &&& g.len() >= p.len()
    &&& g[0].len() >= p[0].len()
}

/// `res` is the first position, in row-major order, where the pattern sits in the grid, or
/// `None` when it sits nowhere (or does not fit).
pub open spec fn first_pattern_match(g: Seq<Seq<Seq<char>>>, p: Seq<Seq<Seq<char>>>, res: Option<(usize, usize)>) -> bool {
    match res {
        Some(pos) => {
            &&& pattern_fits(g, p)
            &&& pos.0 <= g.len() - p.len()
            &&& pos.1 <= g[0].len() - p[0].len()
            &&& pattern_at(g, p, pos.0 as int, pos.1 as int)
            &&& forall|t: int, l: int|
                0 <= t <= g.len() - p.len() && 0 <= l <= g[0].len() - p[0].len() && before_in_row_major(
                    t,
                    l,
                    pos.0 as int,
                    pos.1 as int,
                ) ==> !#[trigger] pattern_at(g, p, t, l)
        },
        None => !pattern_fits(g, p) || forall|t: int, l: int|
            0 <= t <= g.len() - p.len() && 0 <= l <= g[0].len() - p[0].len() ==> !#[trigger] pattern_at(g, p, t, l),
    }
}

/// Whether the pattern sits at `(top, left)`.
fn pattern_at_exec(grid: &[Vec<String>], pattern: &[Vec<String>], top: usize, left: usize) -> (b: bool)
    requires
        pattern_fits(grid.deep_view(), pattern.deep_view()),
        top <= grid@.len() - pattern@.len(),
        left <= grid.deep_view()[0].len() - pattern.deep_view()[0].len(),
    ensures
        b == pattern_at(grid.deep_view(), pattern.deep_view(), top as int, left as int),
{
    let ghost g = grid.deep_view();
    let ghost p = pattern.deep_view();
    let ph = pattern.len();
    let pw = pattern[0].len();
    let gh = grid.len();
    let gw = grid[0].len();
    assert(p[0].len() == pw);
    assert(g[0].len() == gw);
    for r in 0..ph
        invariant
            g == grid.deep_view(),
            gh == g.len(),
            gw == g[0].len(),
            p == pattern.deep_view(),
            pattern_fits(g, p),
            ph == p.len(),
            pw == p[0].len(),
            top + ph <= g.len(),
            left + pw <= g[0].len(),
            forall|rr: int, c: int|
                0 <= rr < r && 0 <= c < pw ==> !is_blank(#[trigger] g[top + rr][left + c]) && g[top + rr][left
                    + c] == p[rr][c],
    {
        for c in 0..pw
            invariant
                g == grid.deep_view(),
                gh == g.len(),
                gw == g[0].len(),
                p == pattern.deep_view(),
                pattern_fits(g, p),
                ph == p.len(),
                pw == p[0].len(),
                r < ph,
                top + ph <= g.len(),
                left + pw <= g[0].len(),
                forall|rr: int, cc: int|
                    0 <= rr < r && 0 <= cc < pw ==> !is_blank(#[trigger] g[top + rr][left + cc]) && g[top
                        + rr][left + cc] == p[rr][cc],
                forall|cc: int|
                    0 <= cc < c ==> !is_blank(#[trigger] g[top + r][left + cc]) && g[top + r][left + cc]
                        == p[r as int][cc],
        {
            assert(g[top + r].len() == g[0].len());
            assert(p[r as int].len() == pw);
            assert(g[top + r][left + c] == grid@[top + r]@[left + c]@);
            assert(p[r as int][c as int] == pattern@[r as int]@[c as int]@);
            let cell = &grid[top + r][left + c];
            if is_blank_cell(cell) {
                assert(is_blank(g[top + r][left + c]));
                return false;
            }
            if !cell.eq(&pattern[r][c]) {
                assert(g[top + r][left + c] != p[r as int][c as int]);
                return false;
            }
        }
    }
    true
}

/// The first position, in row-major order, where `pattern` sits in `grid` with every covered
/// cell non-blank and equal to the pattern's; `None` if there is none or either grid is not a
/// non-empty rectangle.
pub fn find_pattern_strict(grid: &[Vec<String>], pattern: &[Vec<String>]) -> (res: Option<(usize, usize)>)
    ensures
        first_pattern_match(grid.deep_view(), pattern.deep_view(), res),
{
    let ghost g = grid.deep_view();
    let ghost p = pattern.deep_view();
    let gd = grid_dims(grid);
    let pd = grid_dims(pattern);
    let (gh, gw) = match gd {
        Some(d) => d,
        None => {
            return None;
        },
    };
    let (ph, pw) = match pd {
        Some(d) => d,
        None => {
            return None;
        },
    };
    if gh < ph || gw < pw {
        return None;
    }
    for top in 0..gh - ph + 1
        invariant
            g == grid.deep_view(),
            p == pattern.deep_view(),
            pattern_fits(g, p),
            gh == g.len(),
            gw == g[0].len(),
            ph == p.len(),
            pw == p[0].len(),
            forall|t: int, l: int|
                0 <= t < top && 0 <= l <= gw - pw ==> !#[trigger] pattern_at(g, p, t, l),
    {
        for left in 0..gw - pw + 1
            invariant
                g == grid.deep_view(),
                p == pattern.deep_view(),
                pattern_fits(g, p),
                gh == g.len(),
                gw == g[0].len(),
                ph == p.len(),
                pw == p[0].len(),
                top <= gh - ph,
                forall|t: int, l: int|
                    0 <= t < top && 0 <= l <= gw - pw ==> !#[trigger] pattern_at(g, p, t, l),
                forall|l: int| 0 <= l < left ==> !#[trigger] pattern_at(g, p, top as int, l),
        {
            if pattern_at_exec(grid, pattern, top, left) {
                return Some((top, left));
            }
        }
    }
    None
}

// ---------------------------------------------------------------------------
// Best alignment of an observed grid inside an expected one
// ---------------------------------------------------------------------------
/// Number of the first `n` cells of the observed row that are arrows equal to the expected
/// row's cell `left` columns further on.
pub open spec fn row_matches(o: Seq<Seq<char>>, e: Seq<Seq<char>>, left: int, n: int) -> int
    decreases n,
{
    if n <= 0 {
        0
    } else {
        row_matches(o, e, left, n - 1) + (if arrow_cell(o[n - 1]) && o[n - 1] == e[left + n - 1] {
            1int
        } else {
            0int
        })
    }
}

/// Number of arrow cells of the first `n` rows of `obs` that equal the cell of `exp` under them
/// when `obs` is laid on `exp` at `(top, left)`.
pub open spec fn window_matches(obs: Seq<Seq<Seq<char>>>, exp: Seq<Seq<Seq<char>>>, top: int, left: int, n: int) -> int
    decreases n,
{
    if n <= 0 {
        0
    } else {
        window_matches(obs, exp, top, left, n - 1) + row_matches(obs[n - 1], exp[top + n - 1], left, obs[n - 1].len() as int)
    }
}

/// The matches of the whole observed grid laid on `exp` at `(top, left)`.
pub open spec fn alignment_matches(obs: Seq<Seq<Seq<char>>>, exp: Seq<Seq<Seq<char>>>, top: int, left: int) -> int {
    window_matches(obs, exp, top, left, obs.len() as int)
}

/// The observed grid can be laid on the expected grid: both rectangular and the observed one no
/// larger.
pub open spec fn alignable(obs: Seq<Seq<Seq<char>>>, exp: Seq<Seq<Seq<char>>>) -> bool {
    &&& is_rectangular(obs)
    &&& is_rectangular(exp)
    &&& obs.len() <= exp.len()
    &&& obs[0].len() <= exp[0].len()
}

/// `(top, left)` is a place where the observed grid can be laid on the expected one.
pub open spec fn placement(obs: Seq<Seq<Seq<char>>>, exp: Seq<Seq<Seq<char>>>, top: int, left: int) -> bool {
    0 <= top <= exp.len() - obs.len() && 0 <= left <= exp[0].len() - obs[0].len()
}

/// `res` is `(top, left, matches, arrows)` for the first place, in row-major order, with the
/// most matches, `arrows` being the number of arrow cells of the observed grid; `None` when the
/// grids cannot be aligned or the observed grid has no arrow.
pub open spec fn best_alignment(
    obs: Seq<Seq<Seq<char>>>,
    exp: Seq<Seq<Seq<char>>>,
    res: Option<(usize, usize, usize, usize)>,
) -> bool {
    if !alignable(obs, exp) || arrow_total(obs) == 0 {
        res is None
    } else {
        res matches Some(b) && {
            &&& placement(obs, exp, b.0 as int, b.1 as int)
            &&& b.3 == arrow_total(obs)
            &&& b.2 == alignment_matches(obs, exp, b.0 as int, b.1 as int)
            &&& forall|t: int, l: int|
                #[trigger] placement(obs, exp, t, l) ==> alignment_matches(obs, exp, t, l) <= b.2
            &&& forall|t: int, l: int|
                #[trigger] placement(obs, exp, t, l) && before_in_row_major(t, l, b.0 as int, b.1 as int)
                    ==> alignment_matches(obs, exp, t, l) < b.2
        }
    }
}

proof fn lemma_row_matches_bound(o: Seq<Seq<char>>, e: Seq<Seq<char>>, left: int, n: int)
    ensures
        0 <= row_matches(o, e, left, n) <= row_arrow_count(o, n),
    decreases n,
{
    if n > 0 {
        lemma_row_matches_bound(o, e, left, n - 1);
    }
}

/// Arrow cells of the observed grid, and how many of them match the expected grid when laid at
/// `(top, left)`.
fn alignment_score(obs: &[Vec<String>], exp: &[Vec<String>], top: usize, left: usize) -> (res: (usize, usize))
    requires
        alignable(obs.deep_view(), exp.deep_view()),
        placement(obs.deep_view(), exp.deep_view(), top as int, left as int),
        obs@.len() * obs.deep_view()[0].len() <= usize::MAX,
    ensures
        res.0 == arrow_total(obs.deep_view()),
        res.1 == alignment_matches(obs.deep_view(), exp.deep_view(), top as int, left as int),
{
    let ghost o = obs.deep_view();
    let ghost e = exp.deep_view();
    let oh = obs.len();
    let ow = obs[0].len();
    let eh = exp.len();
    let ew = exp[0].len();
    assert(o[0].len() == ow);
    assert(e[0].len() == ew);
    let mut considered: usize = 0;
    let mut matches: usize = 0;
    for r in 0..oh
        invariant
            o == obs.deep_view(),
            e == exp.deep_view(),
            alignable(o, e),
            placement(o, e, top as int, left as int),
            oh == o.len(),
            ow == o[0].len(),
            eh == e.len(),
            ew == e[0].len(),
            oh * ow <= usize::MAX,
            considered == grid_arrow_count(o, r as int),
            matches == window_matches(o, e, top as int, left as int, r as int),
            matches <= considered,
            considered <= r * ow,
    {
        proof {
            assert((r + 1) * ow <= oh * ow && (r + 1) * ow == r * ow + ow) by (nonlinear_arith)
                requires
                    r < oh,
            ;
        }
        assert(o[r as int].len() == ow);
        assert(e[top + r].len() == e[0].len());
        let mut rc: usize = 0;
        let mut rm: usize = 0;
        for c in 0..ow
            invariant
                o == obs.deep_view(),
                e == exp.deep_view(),
                alignable(o, e),
                placement(o, e, top as int, left as int),
                oh == o.len(),
                ow == o[0].len(),
                eh == e.len(),
                ew == e[0].len(),
                r < oh,
                o[r as int].len() == ow,
                e[top + r].len() == e[0].len(),
                considered + ow <= usize::MAX,
                rc == row_arrow_count(o[r as int], c as int),
                rm == row_matches(o[r as int], e[top + r], left as int, c as int),
                rm <= rc,
                rc <= c,
        {
            assert(o[r as int][c as int] == obs@[r as int]@[c as int]@);
            assert(e[top + r][left + c] == exp@[top + r]@[left + c]@);
            let cell = &obs[r][c];
            if is_arrow_cell(cell.as_str()) {
                rc += 1;
                if cell.eq(&exp[top + r][left + c]) {
                    rm += 1;
                }
            }
        }
        considered += rc;
        matches += rm;
    }
    (considered, matches)
}

/// The place, in row-major order first among those with the most matches, where the observed
/// grid's arrows best match the expected grid, as `(top, left, matches, arrows)`; `None` when
/// the grids cannot be aligned or the observed grid has no arrow.
pub fn best_align_against_expected(observed_minified: &[Vec<String>], expected: &[Vec<String>]) -> (res: Option<(
    usize,
    usize,
    usize,
    usize,
)>)
    requires
        observed_minified@.len() > 0 ==> observed_minified@.len() * observed_minified@[0]@.len() <= usize::MAX,
    ensures
        best_alignment(observed_minified.deep_view(), expected.deep_view(), res),
{
    let ghost o = observed_minified.deep_view();
    let ghost e = expected.deep_view();
    let (oh, ow) = match grid_dims(observed_minified) {
        Some(d) => d,
        None => {
            return None;
        },
    };
    let (eh, ew) = match grid_dims(expected) {
        Some(d) => d,
        None => {
            return None;
        },
    };
    assert(o[0].len() == observed_minified@[0]@.len());
    if oh == 0 || ow == 0 || eh < oh || ew < ow {
        return None;
    }
    let mut best: Option<(usize, usize, usize, usize)> = None;
    for top in 0..eh - oh + 1
        invariant
            o == observed_minified.deep_view(),
            e == expected.deep_view(),
            alignable(o, e),
            oh == o.len(),
            ow == o[0].len(),
            eh == e.len(),
            ew == e[0].len(),
            oh * ow <= usize::MAX,
            best is None ==> top == 0 || arrow_total(o) == 0,
            best matches Some(b) ==> {
                &&& placement(o, e, b.0 as int, b.1 as int)
                &&& b.0 < top
                &&& b.3 == arrow_total(o)
                &&& b.3 > 0
                &&& b.2 == alignment_matches(o, e, b.0 as int, b.1 as int)
                &&& forall|t: int, l: int|
                    #[trigger] placement(o, e, t, l) && t < top ==> alignment_matches(o, e, t, l) <= b.2
                &&& forall|t: int, l: int|
                    #[trigger] placement(o, e, t, l) && before_in_row_major(t, l, b.0 as int, b.1 as int)
                        ==> alignment_matches(o, e, t, l) < b.2
            },
    {
        for left in 0..ew - ow + 1
            invariant
                o == observed_minified.deep_view(),
                e == expected.deep_view(),
                alignable(o, e),
                oh == o.len(),
                ow == o[0].len(),
                eh == e.len(),
                ew == e[0].len(),
                oh * ow <= usize::MAX,
                top <= eh - oh,
                best is None ==> (top == 0 && left == 0) || arrow_total(o) == 0,
                best matches Some(b) ==> {
                    &&& placement(o, e, b.0 as int, b.1 as int)
                    &&& before_in_row_major(b.0 as int, b.1 as int, top as int, left as int)
                    &&& b.3 == arrow_total(o)
                    &&& b.3 > 0
                    &&& b.2 == alignment_matches(o, e, b.0 as int, b.1 as int)
                    &&& forall|t: int, l: int|
                        #[trigger] placement(o, e, t, l) && before_in_row_major(t, l, top as int, left as int)
                            ==> alignment_matches(o, e, t, l) <= b.2
                    &&& forall|t: int, l: int|
                        #[trigger] placement(o, e, t, l) && before_in_row_major(t, l, b.0 as int, b.1 as int)
                            ==> alignment_matches(o, e, t, l) < b.2
                },
        {
            let (considered, matches) = alignment_score(observed_minified, expected, top, left);
            if considered != 0 {
                let better = match best {
                    None => true,
                    Some(b) => matches > b.2 || (matches == b.2 && considered > b.3),
                };
                if better {
                    best = Some((top, left, matches, considered));
                }
            }
        }
    }
    best
}

// ---------------------------------------------------------------------------
// Searches over the symmetries of the grid and the orderings of the arrows
// ---------------------------------------------------------------------------
/// The transforms in the order in which the searches try them.
pub open spec fn xform_order(i: int) -> GridXform {
    if i == 0 {
        GridXform::Identity
    } else if i == 1 {
        GridXform::Rot90
    } else if i == 2 {
        GridXform::Rot180
    } else if i == 3 {
        GridXform::Rot270
    } else if i == 4 {
        GridXform::FlipH
    } else if i == 5 {
        GridXform::FlipV
    } else if i == 6 {
        GridXform::Transpose
    } else {
        GridXform::AntiTranspose
    }
}

/// The transforms in search order.
pub(crate) fn xform_list() -> (xs: [GridXform; 8])
    ensures
        forall|i: int| 0 <= i < 8 ==> #[trigger] xs@[i] == xform_order(i),
{
    [
        GridXform::Identity,
        GridXform::Rot90,
        GridXform::Rot180,
        GridXform::Rot270,
        GridXform::FlipH,
        GridXform::FlipV,
        GridXform::Transpose,
        GridXform::AntiTranspose,
    ]
}

/// The grid under transform number `i` of the search order, with its arrows reordered by `p`.
pub open spec fn candidate(g: Seq<Seq<Seq<char>>>, i: int, p: (int, int, int, int)) -> Seq<Seq<Seq<char>>> {
    permute_grid(xform_grid(g, xform_order(i)), glyph_cells(p))
}

/// Combination `(i2, p2)` comes before `(i, p)` in the search order.
pub open spec fn combo_before(i2: int, p2: (int, int, int, int), i: int, p: (int, int, int, int)) -> bool {
    i2 < i || (i2 == i && perm_code(p2) < perm_code(p))
}

/// The pattern sits somewhere in the grid.
pub open spec fn pattern_found(g: Seq<Seq<Seq<char>>>, pat: Seq<Seq<Seq<char>>>) -> bool {
    pattern_fits(g, pat) && exists|t: int, l: int|
        0 <= t <= g.len() - pat.len() && 0 <= l <= g[0].len() - pat[0].len() && #[trigger] pattern_at(g, pat, t, l)
}

proof fn lemma_found_iff_match(g: Seq<Seq<Seq<char>>>, pat: Seq<Seq<Seq<char>>>, res: Option<(usize, usize)>)
    requires
        first_pattern_match(g, pat, res),
    ensures
        pattern_found(g, pat) <==> res is Some,
{
    if let Some(pos) = res {
        assert(pattern_at(g, pat, pos.0 as int, pos.1 as int));
    }
}

/// A permutation cell list whose ranks form an ordering of the four ranks is the list of their
/// glyphs.
proof fn lemma_perm_cells(pc: Seq<Seq<char>>)
    requires
        pc.len() == 4,
        is_rank_perm(cell_perm_ranks(pc)),
    ensures
        pc == glyph_cells(cell_perm_ranks(pc)),
{
    assert forall|k: int| 0 <= k < 4 implies pc[k] == seq![rank_glyph(cell_rank(pc[k]))] by {
        let x = pc[k];
        if x == seq!['↑'] {
        } else if x == seq!['↓'] {
        } else if x == seq!['←'] {
        } else {
        }
        assert(seq![rank_glyph(cell_rank(x))] =~= x);
    }
    assert(pc =~= glyph_cells(cell_perm_ranks(pc)));
}

/// The transformed and permuted grid stays rectangular.
pub(crate) proof fn lemma_candidate_rect(g: Seq<Seq<Seq<char>>>, i: int, p: (int, int, int, int))
    requires
        is_rectangular(g),
    ensures
        is_rectangular(candidate(g, i, p)),
        xform_ok(g, xform_order(i)),
        candidate(g, i, p).len() * candidate(g, i, p)[0].len() == g.len() * g[0].len(),
{
    assert(is_rect(g));
    lemma_xform_undone_by_inverse(g, xform_order(i));
    let x = xform_grid(g, xform_order(i));
    let c = candidate(g, i, p);
    assert(c.len() == x.len());
    assert forall|r: int| 0 <= r < c.len() implies (#[trigger] c[r]).len() == c[0].len() by {
        assert(x[r].len() == x[0].len());
    }
    assert(c.len() * c[0].len() == g.len() * g[0].len()) by (nonlinear_arith)
        requires
            (c.len() == g.len() && c[0].len() == g[0].len()) || (c.len() == g[0].len() && c[0].len() == g.len()),
    ;
    if x.len() == g.len() {
        assert(c.len() == g.len() && c[0].len() == g[0].len()) by {
            assert(x[0].len() == c[0].len());
        }
    }
}

/// The grid of string cells has at least one row, a non-empty first row, and equal rows.
fn is_rectangular_cells(grid: &[Vec<String>]) -> (b: bool)
    ensures
        b == is_rectangular(grid.deep_view()),
{
    crate::grid::is_rectangular_grid(grid)
}

/// The first combination, in search order, of a transform (identity, the three rotations, the
/// two flips, transpose, anti-transpose) and an ordering of the arrows (lexicographic by rank)
/// under which the pattern sits in the grid, with where it sits; `None` if there is none or the
/// grid is not a non-empty rectangle.
pub fn find_pattern_with_xforms_and_perms(grid: &[Vec<String>], pattern: &[Vec<String>]) -> (res: Option<(
    usize,
    usize,
    GridXform,
    [String; 4],
)>)
    ensures
        res matches Some(found) ==> exists|i: int, p: (int, int, int, int)|
            {
                &&& 0 <= i < 8
                &&& is_rank_perm(p)
                &&& found.2 == xform_order(i)
                &&& found.3.deep_view() == glyph_cells(p)
                &&& is_rectangular(grid.deep_view())
                &&& first_pattern_match(
                    #[trigger] candidate(grid.deep_view(), i, p),
                    pattern.deep_view(),
                    Some((found.0, found.1)),
                )
                &&& forall|i2: int, p2: (int, int, int, int)|
                    0 <= i2 < 8 && is_rank_perm(p2) && combo_before(i2, p2, i, p) ==> !#[trigger] pattern_found(
                        candidate(grid.deep_view(), i2, p2),
                        pattern.deep_view(),
                    )
            },
        res is None ==> !is_rectangular(grid.deep_view()) || forall|i: int, p: (int, int, int, int)|
            0 <= i < 8 && is_rank_perm(p) ==> !#[trigger] pattern_found(
                candidate(grid.deep_view(), i, p),
                pattern.deep_view(),
            ),
{
    let ghost g = grid.deep_view();
    let ghost pat = pattern.deep_view();
    if !is_rectangular_cells(grid) {
        return None;
    }
    let xforms = xform_list();
    let perms = all_arrow_perms();
    let ghost ranks = Seq::new(perms@.len(), |k: int| cell_perm_ranks(perms@[k].deep_view()));
    assert(lists_all_perms(ranks));
    for xi in 0..8usize
        invariant
            g == grid.deep_view(),
            pat == pattern.deep_view(),
            is_rectangular(g),
            forall|i: int| 0 <= i < 8 ==> #[trigger] xforms@[i] == xform_order(i),
            ranks == Seq::new(perms@.len(), |k: int| cell_perm_ranks(perms@[k].deep_view())),
            lists_all_perms(ranks),
            forall|i: int, p: (int, int, int, int)|
                0 <= i < xi && is_rank_perm(p) ==> !#[trigger] pattern_found(candidate(g, i, p), pat),
    {
        let xf = xforms[xi];
        assert(xf == xform_order(xi as int));
        proof {
            lemma_candidate_rect(g, xi as int, (0, 1, 2, 3));
        }
        let g1 = apply_xform(grid, xf);
        let n = perms.len();
        for pi in 0..n
            invariant
                g == grid.deep_view(),
                pat == pattern.deep_view(),
                is_rectangular(g),
                forall|i: int| 0 <= i < 8 ==> #[trigger] xforms@[i] == xform_order(i),
                ranks == Seq::new(perms@.len(), |k: int| cell_perm_ranks(perms@[k].deep_view())),
                lists_all_perms(ranks),
                n == perms@.len(),
                xi < 8,
                xf == xform_order(xi as int),
                g1.deep_view() == xform_grid(g, xf),
                forall|i: int, p: (int, int, int, int)|
                    0 <= i < xi && is_rank_perm(p) ==> !#[trigger] pattern_found(candidate(g, i, p), pat),
                forall|k: int| 0 <= k < pi ==> !#[trigger] pattern_found(candidate(g, xi as int, ranks[k]), pat),
        {
            let perm = &perms[pi];
            let ghost rk = ranks[pi as int];
            assert(rk == cell_perm_ranks(perm.deep_view()));
            assert(is_rank_perm(rk));
            proof {
                lemma_perm_cells(perm.deep_view());
            }
            let g2 = apply_arrow_perm_str(&g1, perm);
            assert(g2.deep_view() == candidate(g, xi as int, rk));
            let found = find_pattern_strict(&g2, pattern);
            proof {
                lemma_found_iff_match(g2.deep_view(), pat, found);
            }
            if let Some((row, col)) = found {
                let p4 = [perm[0].clone(), perm[1].clone(), perm[2].clone(), perm[3].clone()];
                assert(p4.deep_view() =~= perm.deep_view());
                proof {
                    assert forall|i2: int, p2: (int, int, int, int)|
                        0 <= i2 < 8 && is_rank_perm(p2) && combo_before(i2, p2, xi as int, rk) implies !#[trigger] pattern_found(
                        candidate(g, i2, p2),
                        pat,
                    ) by {
                        if i2 == xi {
                            let k = choose|k: int| 0 <= k < ranks.len() && #[trigger] ranks[k] == p2;
                            if k >= pi {
                                if k > pi {
                                    assert(perm_code(ranks[pi as int]) < perm_code(ranks[k]));
                                }
                            }
                        }
                    }
                    assert(first_pattern_match(candidate(g, xi as int, rk), pat, Some((row, col))));
                }
                return Some((row, col, xf, p4));
            }
        }
        proof {
            assert forall|i: int, p: (int, int, int, int)|
                0 <= i < xi + 1 && is_rank_perm(p) implies !#[trigger] pattern_found(candidate(g, i, p), pat) by {
                if i == xi {
                    let k = choose|k: int| 0 <= k < ranks.len() && #[trigger] ranks[k] == p;
                }
            }
        }
    }
    None
}

/// `(m, c)` is lexicographically at most `(bm, bc)`.
pub open spec fn score_le(m: int, c: int, bm: int, bc: int) -> bool {
    m < bm || (m == bm && c <= bc)
}

/// `(m, c)` is lexicographically below `(bm, bc)`.
pub open spec fn score_lt(m: int, c: int, bm: int, bc: int) -> bool {
    m < bm || (m == bm && c < bc)
}

/// Two best alignments of the same grids have the same matches and arrows.
proof fn lemma_best_alignment_unique(
    obs: Seq<Seq<Seq<char>>>,
    exp: Seq<Seq<Seq<char>>>,
    b1: (usize, usize, usize, usize),
    b2: (usize, usize, usize, usize),
)
    requires
        best_alignment(obs, exp, Some(b1)),
        best_alignment(obs, exp, Some(b2)),
    ensures
        b1.2 == b2.2,
        b1.3 == b2.3,
{
    assert(placement(obs, exp, b1.0 as int, b1.1 as int));
    assert(placement(obs, exp, b2.0 as int, b2.1 as int));
}

/// Over all combinations of a transform and an ordering of the arrows (in search order), the
/// first one whose best alignment against the expected grid has the most matches, then the
/// most arrows: `(transform, ordering, top, left, matches, arrows)`; `None` when no combination
/// aligns or the observed grid is not a non-empty rectangle.
pub fn best_align_against_expected_with_xforms_and_perms(
    observed_minified: &[Vec<String>],
    expected: &[Vec<String>],
) -> (res: Option<(GridXform, [String; 4], usize, usize, usize, usize)>)
    requires
        observed_minified@.len() > 0 ==> observed_minified@.len() * observed_minified@[0]@.len() <= usize::MAX,
    ensures
        res matches Some(r) ==> exists|i: int, p: (int, int, int, int)|
            {
                &&& 0 <= i < 8
                &&& is_rank_perm(p)
                &&& r.0 == xform_order(i)
                &&& r.1.deep_view() == glyph_cells(p)
                &&& is_rectangular(observed_minified.deep_view())
                &&& best_alignment(
                    #[trigger] candidate(observed_minified.deep_view(), i, p),
                    expected.deep_view(),
                    Some((r.2, r.3, r.4, r.5)),
                )
                &&& forall|i2: int, p2: (int, int, int, int), b2: (usize, usize, usize, usize)|
                    0 <= i2 < 8 && is_rank_perm(p2) && #[trigger] best_alignment(
                        candidate(observed_minified.deep_view(), i2, p2),
                        expected.deep_view(),
                        Some(b2),
                    ) ==> score_le(b2.2 as int, b2.3 as int, r.4 as int, r.5 as int) && (combo_before(i2, p2, i, p)
                        ==> score_lt(b2.2 as int, b2.3 as int, r.4 as int, r.5 as int))
            },
        res is None ==> !is_rectangular(observed_minified.deep_view()) || forall|i: int, p: (int, int, int, int)|
            0 <= i < 8 && is_rank_perm(p) ==> #[trigger] best_alignment(
                candidate(observed_minified.deep_view(), i, p),
                expected.deep_view(),
                None,
            ),
{
    let ghost o = observed_minified.deep_view();
    let ghost e = expected.deep_view();
    if !is_rectangular_cells(observed_minified) {
        return None;
    }
    assert(o[0].len() == observed_minified@[0]@.len());
    let xforms = xform_list();
    let perms = all_arrow_perms();
    let ghost ranks = Seq::new(perms@.len(), |k: int| cell_perm_ranks(perms@[k].deep_view()));
    assert(lists_all_perms(ranks));
    let mut best: Option<(GridXform, [String; 4], usize, usize, usize, usize)> = None;
    let ghost mut bi: int = 0;
    let ghost mut bp: (int, int, int, int) = (0, 1, 2, 3);
    for xi in 0..8usize
        invariant
            o == observed_minified.deep_view(),
            e == expected.deep_view(),
            is_rectangular(o),
            o.len() * o[0].len() <= usize::MAX,
            forall|i: int| 0 <= i < 8 ==> #[trigger] xforms@[i] == xform_order(i),
            ranks == Seq::new(perms@.len(), |k: int| cell_perm_ranks(perms@[k].deep_view())),
            lists_all_perms(ranks),
            best is None ==> forall|i: int, p: (int, int, int, int)|
                0 <= i < xi && is_rank_perm(p) ==> #[trigger] best_alignment(candidate(o, i, p), e, None),
            best matches Some(r) ==> {
                &&& 0 <= bi < xi
                &&& is_rank_perm(bp)
                &&& r.0 == xform_order(bi)
                &&& r.1.deep_view() == glyph_cells(bp)
                &&& best_alignment(candidate(o, bi, bp), e, Some((r.2, r.3, r.4, r.5)))
                &&& forall|i2: int, p2: (int, int, int, int), b2: (usize, usize, usize, usize)|
                    0 <= i2 < xi && is_rank_perm(p2) && #[trigger] best_alignment(candidate(o, i2, p2), e, Some(b2))
                        ==> score_le(b2.2 as int, b2.3 as int, r.4 as int, r.5 as int) && (combo_before(
                        i2,
                        p2,
                        bi,
                        bp,
                    ) ==> score_lt(b2.2 as int, b2.3 as int, r.4 as int, r.5 as int))
            },
    {
        let xf = xforms[xi];
        assert(xf == xform_order(xi as int));
        proof {
            lemma_candidate_rect(o, xi as int, (0, 1, 2, 3));
        }
        let g1 = apply_xform(observed_minified, xf);
        let n = perms.len();
        for pi in 0..n
            invariant
                o == observed_minified.deep_view(),
                e == expected.deep_view(),
                is_rectangular(o),
                o.len() * o[0].len() <= usize::MAX,
                forall|i: int| 0 <= i < 8 ==> #[trigger] xforms@[i] == xform_order(i),
                ranks == Seq::new(perms@.len(), |k: int| cell_perm_ranks(perms@[k].deep_view())),
                lists_all_perms(ranks),
                n == perms@.len(),
                xi < 8,
                xf == xform_order(xi as int),
                g1.deep_view() == xform_grid(o, xf),
                best is None ==> forall|i: int, p: (int, int, int, int)|
                    0 <= i < xi && is_rank_perm(p) ==> #[trigger] best_alignment(candidate(o, i, p), e, None),
                best is None ==> forall|k: int|
                    0 <= k < pi ==> #[trigger] best_alignment(candidate(o, xi as int, ranks[k]), e, None),
                best matches Some(r) ==> {
                    &&& 0 <= bi <= xi
                    &&& is_rank_perm(bp)
                    &&& bi == xi ==> exists|k: int| 0 <= k < pi && ranks[k] == bp
                    &&& r.0 == xform_order(bi)
                    &&& r.1.deep_view() == glyph_cells(bp)
                    &&& best_alignment(candidate(o, bi, bp), e, Some((r.2, r.3, r.4, r.5)))
                    &&& forall|i2: int, p2: (int, int, int, int), b2: (usize, usize, usize, usize)|
                        0 <= i2 < xi && is_rank_perm(p2) && #[trigger] best_alignment(candidate(o, i2, p2), e, Some(b2))
                            ==> score_le(b2.2 as int, b2.3 as int, r.4 as int, r.5 as int) && (combo_before(
                            i2,
                            p2,
                            bi,
                            bp,
                        ) ==> score_lt(b2.2 as int, b2.3 as int, r.4 as int, r.5 as int))
                    &&& forall|k: int, b2: (usize, usize, usize, usize)|
                        0 <= k < pi && #[trigger] best_alignment(candidate(o, xi as int, ranks[k]), e, Some(b2))
                            ==> score_le(b2.2 as int, b2.3 as int, r.4 as int, r.5 as int) && (combo_before(
                            xi as int,
                            ranks[k],
                            bi,
                            bp,
                        ) ==> score_lt(b2.2 as int, b2.3 as int, r.4 as int, r.5 as int))
                },
        {
            let perm = &perms[pi];
            let ghost rk = ranks[pi as int];
            assert(rk == cell_perm_ranks(perm.deep_view()));
            assert(is_rank_perm(rk));
            proof {
                lemma_perm_cells(perm.deep_view());
                lemma_candidate_rect(o, xi as int, rk);
            }
            let g2 = apply_arrow_perm_str(&g1, perm);
            assert(g2.deep_view() == candidate(o, xi as int, rk));
            assert(g2@.len() > 0 ==> g2@.len() * g2@[0]@.len() <= usize::MAX) by {
                assert(g2.deep_view()[0].len() == g2@[0]@.len());
            }
            let found = best_align_against_expected(&g2, expected);
            if let Some((top, left, m, c)) = found {
                let better = match &best {
                    None => true,
                    Some(b) => m > b.4 || (m == b.4 && c > b.5),
                };
                if better {
                    let ghost old_best = best;
                    let p4 = [perm[0].clone(), perm[1].clone(), perm[2].clone(), perm[3].clone()];
                    assert(p4.deep_view() =~= perm.deep_view());
                    best = Some((xf, p4, top, left, m, c));
                    proof {
                        let ob = old_best;
                        let obi = bi;
                        let obp = bp;
                        bi = xi as int;
                        bp = rk;
                        assert forall|i2: int, p2: (int, int, int, int), b2: (usize, usize, usize, usize)|
                            0 <= i2 < xi && is_rank_perm(p2) && #[trigger] best_alignment(candidate(o, i2, p2), e, Some(b2))
                                implies score_le(b2.2 as int, b2.3 as int, m as int, c as int) && (combo_before(
                            i2,
                            p2,
                            bi,
                            bp,
                        ) ==> score_lt(b2.2 as int, b2.3 as int, m as int, c as int)) by {
                            if ob is None {
                                assert(best_alignment(candidate(o, i2, p2), e, None));
                            }
                        }
                        assert forall|k: int, b2: (usize, usize, usize, usize)|
                            0 <= k < pi + 1 && #[trigger] best_alignment(candidate(o, xi as int, ranks[k]), e, Some(b2))
                                implies score_le(b2.2 as int, b2.3 as int, m as int, c as int) && (combo_before(
                            xi as int,
                            ranks[k],
                            bi,
                            bp,
                        ) ==> score_lt(b2.2 as int, b2.3 as int, m as int, c as int)) by {
                            if k == pi {
                                lemma_best_alignment_unique(candidate(o, xi as int, rk), e, b2, (top, left, m, c));
                            } else {
                                if ob is None {
                                    assert(best_alignment(candidate(o, xi as int, ranks[k]), e, None));
                                }
                                assert(perm_code(ranks[k]) < perm_code(ranks[pi as int]));
                            }
                        }
                        assert(exists|k: int| 0 <= k < pi + 1 && ranks[k] == bp) by {
                            assert(ranks[pi as int] == bp);
                        }
                    }
                } else {
                    proof {
                        assert forall|k: int, b2: (usize, usize, usize, usize)|
                            0 <= k < pi + 1 && #[trigger] best_alignment(candidate(o, xi as int, ranks[k]), e, Some(b2))
                                implies ({
                            let r = best->0;
                            score_le(b2.2 as int, b2.3 as int, r.4 as int, r.5 as int) && (combo_before(
                                xi as int,
                                ranks[k],
                                bi,
                                bp,
                            ) ==> score_lt(b2.2 as int, b2.3 as int, r.4 as int, r.5 as int))
                        }) by {
                            if k == pi {
                                lemma_best_alignment_unique(candidate(o, xi as int, rk), e, b2, (top, left, m, c));
                                if bi == xi {
                                    let kb = choose|kb: int| 0 <= kb < pi && ranks[kb] == bp;
                                    assert(perm_code(ranks[kb]) < perm_code(ranks[pi as int]));
                                }
                            }
                        }
                    }
                }
            } else {
                proof {
                    assert(best_alignment(candidate(o, xi as int, rk), e, None));
                }
                proof {
                    if best is Some {
                        assert forall|k: int, b2: (usize, usize, usize, usize)|
                            0 <= k < pi + 1 && #[trigger] best_alignment(candidate(o, xi as int, ranks[k]), e, Some(b2))
                                implies ({
                            let r = best->0;
                            score_le(b2.2 as int, b2.3 as int, r.4 as int, r.5 as int) && (combo_before(
                                xi as int,
                                ranks[k],
                                bi,
                                bp,
                            ) ==> score_lt(b2.2 as int, b2.3 as int, r.4 as int, r.5 as int))
                        }) by {
                            if k == pi {
                                assert(best_alignment(candidate(o, xi as int, rk), e, None));
                            }
                        }
                    }
                }
            }
        }
        proof {
            if best is None {
                assert forall|i: int, p: (int, int, int, int)|
                    0 <= i < xi + 1 && is_rank_perm(p) implies #[trigger] best_alignment(candidate(o, i, p), e, None) by {
                    if i == xi {
                        let k = choose|k: int| 0 <= k < ranks.len() && #[trigger] ranks[k] == p;
                    }
                }
            } else {
                let r = best->0;
                assert forall|i2: int, p2: (int, int, int, int), b2: (usize, usize, usize, usize)|
                    0 <= i2 < xi + 1 && is_rank_perm(p2) && #[trigger] best_alignment(candidate(o, i2, p2), e, Some(b2))
                        implies score_le(b2.2 as int, b2.3 as int, r.4 as int, r.5 as int) && (combo_before(
                    i2,
                    p2,
                    bi,
                    bp,
                ) ==> score_lt(b2.2 as int, b2.3 as int, r.4 as int, r.5 as int)) by {
                    if i2 == xi {
                        let k = choose|k: int| 0 <= k < ranks.len() && #[trigger] ranks[k] == p2;
                        assert(best_alignment(candidate(o, xi as int, ranks[k]), e, Some(b2)));
                    }
                }
            }
        }
    }
    best
}

// ---------------------------------------------------------------------------
// Character grids
// ---------------------------------------------------------------------------
/// The first character of each cell (a space for an empty cell), for a rectangular grid.
pub open spec fn first_chars(g: Seq<Seq<Seq<char>>>) -> Seq<Seq<char>> {
    Seq::new(g.len(), |r: int| Seq::new(g[r].len(), |c: int| first_char_or_space(g[r][c])))
}

/// The grid of the first characters of the cells (a space for an empty cell); `None` unless the
/// grid is a non-empty rectangle.
pub fn grid_to_chars(grid: &[Vec<String>]) -> (r: Option<Vec<Vec<char>>>)
    ensures
        r is Some <==> is_rectangular(grid.deep_view()),
        r matches Some(out) ==> out.deep_view() == first_chars(grid.deep_view()),
{
    let ghost g = grid.deep_view();
    if grid_dims(grid).is_none() {
        return None;
    }
    let ghost target = first_chars(g);
    let mut out: Vec<Vec<char>> = Vec::new();
    for r in 0..grid.len()
        invariant
            g == grid.deep_view(),
            target == first_chars(g),
            out@.len() == r,
            forall|k: int| 0 <= k < r ==> (#[trigger] out@[k]).deep_view() == target[k],
    {
        let n = grid[r].len();
        let mut row: Vec<char> = Vec::new();
        for c in 0..n
            invariant
                g == grid.deep_view(),
                target == first_chars(g),
                r < g.len(),
                n == grid@[r as int]@.len(),
                row@.len() == c,
                forall|k: int| 0 <= k < c ==> (#[trigger] row@[k]) == target[r as int][k],
        {
            assert(g[r as int][c as int] == grid@[r as int]@[c as int]@);
            let first = crate::cells::cell_first_char(&grid[r][c]);
            let ch = match first {
                Some(ch) => ch,
                None => ' ',
            };
            row.push(ch);
        }
        assert(row.deep_view() =~= target[r as int]);
        out.push(row);
    }
    assert(out.deep_view() =~= target);
    Some(out)
}

/// Number of the first `n` positions of a window row where the grid row (from column `left`)
/// equals the expected row.
pub open spec fn row_score(gr: Seq<char>, er: Seq<char>, left: int, n: int) -> int
    decreases n,
{
    if n <= 0 {
        0
    } else {
        row_score(gr, er, left, n - 1) + (if gr[left + n - 1] == er[n - 1] {
            1int
        } else {
            0int
        })
    }
}

/// Number of cells of the first `n` rows of `e` that the window of `g` at `(top, left)` matches.
pub open spec fn window_score(g: Seq<Seq<char>>, e: Seq<Seq<char>>, top: int, left: int, n: int) -> int
    decreases n,
{
    if n <= 0 {
        0
    } else {
        window_score(g, e, top, left, n - 1) + row_score(g[top + n - 1], e[n - 1], left, e[0].len() as int)
    }
}

proof fn lemma_row_score_bound(gr: Seq<char>, er: Seq<char>, left: int, n: int)
    ensures
        0 <= row_score(gr, er, left, n) <= (if n > 0 { n } else { 0 }),
    decreases n,
{
    if n > 0 {
        lemma_row_score_bound(gr, er, left, n - 1);
    }
}

/// Number of cells of `expected` that the window of `g` at `(top, left)` matches.
pub fn score_window(g: &[Vec<char>], top: usize, left: usize, expected: &[Vec<char>]) -> (n: usize)
    requires
        expected@.len() > 0,
        expected@.len() * expected@[0]@.len() <= usize::MAX,
        forall|r: int| 0 <= r < expected@.len() ==> (#[trigger] expected@[r])@.len() >= expected@[0]@.len(),
        top + expected@.len() <= g@.len(),
        forall|r: int|
            0 <= r < expected@.len() ==> left + expected@[0]@.len() <= (#[trigger] g@[top + r])@.len(),
    ensures
        n == window_score(g.deep_view(), expected.deep_view(), top as int, left as int, expected@.len() as int),
{
    let ghost gv = g.deep_view();
    let ghost ev = expected.deep_view();
    let eh = expected.len();
    let ew = expected[0].len();
    let gl = g.len();
    assert(ev[0].len() == ew);
    let mut ok: usize = 0;
    for r in 0..eh
        invariant
            gv == g.deep_view(),
            gl == g@.len(),
            ev == expected.deep_view(),
            eh == expected@.len(),
            ew == ev[0].len(),
            eh * ew <= usize::MAX,
            forall|r: int| 0 <= r < expected@.len() ==> (#[trigger] expected@[r])@.len() >= ew,
            top + eh <= g@.len(),
            forall|r: int| 0 <= r < eh ==> left + ew <= (#[trigger] g@[top + r])@.len(),
            ok == window_score(gv, ev, top as int, left as int, r as int),
            ok <= r * ew,
    {
        proof {
            assert((r + 1) * ew <= eh * ew) by (nonlinear_arith)
                requires
                    r < eh,
            ;
            assert((r + 1) * ew == r * ew + ew) by (nonlinear_arith);
        }
        let rl = g[top + r].len();
        let mut c: usize = 0;
        while c < ew
            invariant
                gv == g.deep_view(),
                gl == g@.len(),
                rl == g@[top + r]@.len(),
                ev == expected.deep_view(),
                eh == expected@.len(),
                ew == ev[0].len(),
                r < eh,
                (r + 1) * ew <= usize::MAX,
                (r + 1) * ew == r * ew + ew,
                forall|r: int| 0 <= r < expected@.len() ==> (#[trigger] expected@[r])@.len() >= ew,
                top + eh <= g@.len(),
                forall|r: int| 0 <= r < eh ==> left + ew <= (#[trigger] g@[top + r])@.len(),
                c <= ew,
                ok == window_score(gv, ev, top as int, left as int, r as int) + row_score(
                    gv[top + r],
                    ev[r as int],
                    left as int,
                    c as int,
                ),
                ok <= r * ew + c,
            decreases ew - c,
        {
            assert(gv[top + r][left + c] == g@[top + r]@[left + c]);
            assert(ev[r as int][c as int] == expected@[r as int]@[c as int]);
            assert(left + ew <= g@[top + r]@.len());
            assert(left + c < rl);
            if g[top + r][left + c] == expected[r][c] {
                ok += 1;
            }
            c += 1;
        }
    }
    ok
}

// ---------------------------------------------------------------------------
// The expected 8x7 pattern
// ---------------------------------------------------------------------------
/// The 8x7 snippet of the Anoto pattern that the tools search for.
pub open spec fn expected_chars() -> Seq<Seq<char>> {
    seq![
        seq!['↑', '↓', '←', '↓', '↓', '←', '↓'],
        seq!['→', '↑', '↑', '←', '↑', '↓', '↓'],
        seq!['↓', '↓', '→', '↓', '↑', '→', '←'],
        seq!['↓', '←', '↑', '←', '↓', '↑', '→'],
        seq!['←', '→', '↓', '←', '→', '→', '↑'],
        seq!['↓', '↑', '→', '↑', '→', '↓', '↓'],
        seq!['↓', '↓', '←', '←', '→', '←', '→'],
        seq!['↑', '↓', '↓', '→', '→', '→', '←'],
    ]
}

/// The 8x7 snippet of the Anoto pattern as characters.
pub fn expected() -> (g: Vec<Vec<char>>)
    ensures
        g.deep_view() == expected_chars(),
{
    let g = vec![
        vec!['↑', '↓', '←', '↓', '↓', '←', '↓'],
        vec!['→', '↑', '↑', '←', '↑', '↓', '↓'],
        vec!['↓', '↓', '→', '↓', '↑', '→', '←'],
        vec!['↓', '←', '↑', '←', '↓', '↑', '→'],
        vec!['←', '→', '↓', '←', '→', '→', '↑'],
        vec!['↓', '↑', '→', '↑', '→', '↓', '↓'],
        vec!['↓', '↓', '←', '←', '→', '←', '→'],
        vec!['↑', '↓', '↓', '→', '→', '→', '←'],
    ];
    assert(g.deep_view() =~~= expected_chars());
    g
}

/// The 8x7 snippet as a grid of single-glyph cells.
pub open spec fn expected_cells() -> Seq<Seq<Seq<char>>> {
    Seq::new(8, |r: int| Seq::new(7, |c: int| seq![expected_chars()[r][c]]))
}

/// The built-in 8x7 snippet of the Anoto pattern as string cells.
pub fn builtin_expected_pattern_8x7() -> (g: Vec<Vec<String>>)
    ensures
        g.deep_view() == expected_cells(),
{
    let chars = expected();
    let ghost e = expected_chars();
    assert(chars@.len() == 8) by {
        assert(chars.deep_view().len() == chars@.len());
    }
    let mut out: Vec<Vec<String>> = Vec::new();
    for r in 0..8usize
        invariant
            chars.deep_view() == e,
            chars@.len() == 8,
            e == expected_chars(),
            out@.len() == r,
            forall|k: int| 0 <= k < r ==> (#[trigger] out@[k]).deep_view() == expected_cells()[k],
    {
        let mut row: Vec<String> = Vec::new();
        assert(chars@[r as int]@.len() == 7) by {
            assert(e[r as int].len() == 7);
            assert(chars.deep_view()[r as int].len() == chars@[r as int]@.len());
        }
        for c in 0..7usize
            invariant
                chars.deep_view() == e,
                chars@.len() == 8,
                e == expected_chars(),
                r < 8,
                chars@[r as int]@.len() == 7,
                row@.len() == c,
                forall|k: int| 0 <= k < c ==> (#[trigger] row@[k])@ == expected_cells()[r as int][k],
        {
            assert(e[r as int][c as int] == chars@[r as int]@[c as int]) by {
                assert(chars.deep_view()[r as int] == chars@[r as int].deep_view());
            }
            row.push(char_to_string(chars[r][c]));
        }
        assert(row.deep_view() =~= expected_cells()[r as int]);
        out.push(row);
    }
    assert(out.deep_view() =~= expected_cells());
    out
}

} // verus!
