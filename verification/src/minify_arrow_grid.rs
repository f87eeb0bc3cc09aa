//! Arrow grids as text and JSON, and minification of a full intersection grid into the
//! grid of 3x3 blocks that the decoder reads.
use vstd::arithmetic::div_mod::{lemma_fundamental_div_mod, lemma_fundamental_div_mod_converse};
use vstd::prelude::*;

use crate::cells::{
    arrow_cell, cell_first_char, char_to_string, chars_of, first_char_or_space, is_arrow_cell, is_arrow_char,
    space_cell,
};
use crate::grid::{copy_grid, copy_subgrid, is_rectangular, is_rectangular_grid, space, subgrid};

verus! {

// ---------------------------------------------------------------------------
// Text lines
// ---------------------------------------------------------------------------
/// Index of the first line feed at or after `i`, or the length of `s` when there is none.
pub open spec fn newline_from(s: Seq<char>, i: int) -> int
    decreases s.len() - i,
{
    if i >= s.len() {
        s.len() as int
    } else if s[i] == '\n' {
        i
    } else {
        newline_from(s, i + 1)
    }
}

pub proof fn lemma_newline_from(s: Seq<char>, i: int)
    requires
        0 <= i,
    ensures
        i <= newline_from(s, i) || (i > s.len() && newline_from(s, i) == s.len()),
        newline_from(s, i) <= s.len() || i > s.len(),
        newline_from(s, i) < s.len() ==> s[newline_from(s, i)] == '\n',
        forall|k: int| i <= k < newline_from(s, i) ==> s[k] != '\n',
    decreases s.len() - i,
{
    if i < s.len() && s[i] != '\n' {
        lemma_newline_from(s, i + 1);
    }
}

/// A line without the carriage return that ended it.
pub open spec fn strip_cr(l: Seq<char>) -> Seq<char> {
    if l.len() > 0 && l.last() == '\r' {
        l.drop_last()
    } else {
        l
    }
}

/// The lines of `s` as `str::lines` yields them: split at `\n`, a `\r` before the `\n` dropped,
/// and no empty line after a final line feed.
pub open spec fn text_lines(s: Seq<char>) -> Seq<Seq<char>>
    decreases s.len(),
{
    if s.len() == 0 {
        Seq::empty()
    } else {
        let e = newline_from(s, 0);
        proof {
            lemma_newline_from(s, 0);
        }
        if e < s.len() {
            seq![strip_cr(s.take(e))] + text_lines(s.skip(e + 1))
        } else {
            seq![s]
        }
    }
}

/// Length of the longest of `ls`.
pub open spec fn max_len(ls: Seq<Seq<char>>) -> int
    decreases ls.len(),
{
    if ls.len() == 0 {
        0
    } else {
        let m = max_len(ls.drop_last());
        if ls.last().len() > m {
            ls.last().len() as int
        } else {
            m
        }
    }
}

/// The grid a text describes: one row per line, one cell per character, short rows padded
/// with spaces; empty when no line has a character.
pub open spec fn text_grid(s: Seq<char>) -> Seq<Seq<Seq<char>>> {
    let ls = text_lines(s);
    let w = max_len(ls);
    if w == 0 {
        Seq::empty()
    } else {
        Seq::new(
            ls.len(),
            |r: int|
                Seq::new(
                    w as nat,
                    |c: int|
                        if c < ls[r].len() {
                            seq![ls[r][c]]
                        } else {
                            space()
                        },
                ),
        )
    }
}

proof fn lemma_text_lines_step(s: Seq<char>, start: int, i: int)
    requires
        0 <= start <= i < s.len(),
        s[i] == '\n',
        forall|k: int| start <= k < i ==> s[k] != '\n',
    ensures
        text_lines(s.skip(start)) == seq![strip_cr(s.subrange(start, i))] + text_lines(s.skip(i + 1)),
{
    let t = s.skip(start);
    lemma_newline_from_is(t, 0, i - start);
    assert(t.take(i - start) =~= s.subrange(start, i));
    assert(t.skip(i - start + 1) =~= s.skip(i + 1));
}

proof fn lemma_newline_from_is(s: Seq<char>, i: int, e: int)
    requires
        0 <= i <= e < s.len(),
        s[e] == '\n',
        forall|k: int| i <= k < e ==> s[k] != '\n',
    ensures
        newline_from(s, i) == e,
    decreases e - i,
{
    if i < e {
        lemma_newline_from_is(s, i + 1, e);
    }
}

proof fn lemma_text_lines_last(s: Seq<char>, start: int)
    requires
        0 <= start < s.len(),
        forall|k: int| start <= k < s.len() ==> s[k] != '\n',
    ensures
        text_lines(s.skip(start)) == seq![s.skip(start)],
{
    let t = s.skip(start);
    lemma_newline_from(t, 0);
    if newline_from(t, 0) < t.len() {
        assert(t[newline_from(t, 0)] == s[start + newline_from(t, 0)]);
    }
}

/// The lines of `text`, as `str::lines` yields them.
fn split_lines(text: &str) -> (out: Vec<Vec<char>>)
    ensures
        out.deep_view() == text_lines(text@),
{
    let s = chars_of(text);
    let n = s.len();
    let ghost sv = s@;
    let ghost mut acc: Seq<Seq<char>> = Seq::empty();
    let mut out: Vec<Vec<char>> = Vec::new();
    let mut start: usize = 0;
    let mut cur: Vec<char> = Vec::new();
    let mut i: usize = 0;
    assert(sv.skip(0) =~= sv);
    assert(acc + text_lines(sv.skip(0)) =~= text_lines(sv));
    while i < n
        invariant
            sv == text@,
            sv == s@,
            n == sv.len(),
            start <= i <= n,
            cur@ == sv.subrange(start as int, i as int),
            forall|k: int| start <= k < i ==> sv[k] != '\n',
            out@.len() == acc.len(),
            forall|j: int| 0 <= j < acc.len() ==> (#[trigger] out@[j])@ == acc[j],
            acc + text_lines(sv.skip(start as int)) == text_lines(sv),
        decreases n - i,
    {
        if s[i] == '\n' {
            proof {
                lemma_text_lines_step(sv, start as int, i as int);
            }
            let len = cur.len();
            if len > 0 && cur[len - 1] == '\r' {
                cur.pop();
            }
            let ghost line = strip_cr(sv.subrange(start as int, i as int));
            assert(cur@ =~= line);
            out.push(cur);
            proof {
                assert(acc.push(line) + text_lines(sv.skip(i + 1)) =~= acc + (seq![line] + text_lines(
                    sv.skip(i + 1),
                )));
                acc = acc.push(line);
            }
            cur = Vec::new();
            start = i + 1;
        } else {
            cur.push(s[i]);
        }
        i += 1;
    }
    if start < n {
        proof {
            lemma_text_lines_last(sv, start as int);
        }
        assert(cur@ =~= sv.skip(start as int));
        let ghost line = sv.skip(start as int);
        out.push(cur);
        proof {
            acc = acc.push(line);
        }
    } else {
        assert(sv.skip(start as int) =~= Seq::<char>::empty());
        assert(acc + text_lines(sv.skip(start as int)) =~= acc);
    }
    assert(out.deep_view() =~= acc) by {
        assert forall|j: int| 0 <= j < acc.len() implies #[trigger] out.deep_view()[j] =~= acc[j] by {
            assert(out@[j]@ == acc[j]);
        }
    }
    out
}

/// Parses a text arrow grid: one row per line, one cell per character. Shorter rows are padded
/// with `" "` cells to the longest row; a text without characters gives an empty grid.
pub fn grid_from_arrow_text(grid: &str) -> (rows: Vec<Vec<String>>)
    ensures
        rows.deep_view() == text_grid(grid@),
{
    let lines = split_lines(grid);
    let ghost ls = lines.deep_view();
    let mut max_w: usize = 0;
    for r in 0..lines.len()
        invariant
            ls == lines.deep_view(),
            max_w == max_len(ls.take(r as int)),
    {
        assert(ls.take(r + 1).drop_last() =~= ls.take(r as int));
        if lines[r].len() > max_w {
            max_w = lines[r].len();
        }
    }
    assert(ls.take(lines.len() as int) =~= ls);
    if max_w == 0 {
        return Vec::new();
    }
    let mut rows: Vec<Vec<String>> = Vec::new();
    for r in 0..lines.len()
        invariant
            ls == lines.deep_view(),
            max_w == max_len(ls),
            max_w > 0,
            rows@.len() == r,
            forall|i: int| 0 <= i < r ==> (#[trigger] rows@[i]).deep_view() == text_grid(grid@)[i],
            ls == text_lines(grid@),
    {
        let line = &lines[r];
        let mut row: Vec<String> = Vec::new();
        proof {
            lemma_max_len(ls, r as int);
        }
        for c in 0..max_w
            invariant
                line@ == ls[r as int],
                line@.len() <= max_w,
                row@.len() == c,
                forall|j: int|
                    0 <= j < c ==> (#[trigger] row@[j])@ == (if j < line@.len() {
                        seq![line@[j]]
                    } else {
                        space()
                    }),
        {
            if c < line.len() {
                row.push(char_to_string(line[c]));
            } else {
                row.push(space_cell());
            }
        }
        assert(row.deep_view() =~= text_grid(grid@)[r as int]);
        rows.push(row);
    }
    assert(rows.deep_view() =~= text_grid(grid@));
    rows
}

proof fn lemma_max_len(ls: Seq<Seq<char>>, r: int)
    requires
        0 <= r < ls.len(),
    ensures
        ls[r].len() <= max_len(ls),
    decreases ls.len(),
{
    if r < ls.len() - 1 {
        lemma_max_len(ls.drop_last(), r);
    }
}


// ---------------------------------------------------------------------------
// JSON text of a grid
// ---------------------------------------------------------------------------
/// A cell between double quotes (its characters are not escaped).
pub open spec fn quoted(cell: Seq<char>) -> Seq<char> {
    seq!['"'] + cell + seq!['"']
}

/// The first `n` cells of a row, quoted and separated by `", "`.
pub open spec fn json_cells(row: Seq<Seq<char>>, n: int) -> Seq<char>
    decreases n,
{
    if n <= 0 {
        Seq::empty()
    } else if n == 1 {
        quoted(row[0])
    } else {
        json_cells(row, n - 1) + seq![',', ' '] + quoted(row[n - 1])
    }
}

/// The lines of the first `n` rows: two spaces, the bracketed cells, and a comma after every
/// row but the last.
pub open spec fn json_rows(g: Seq<Seq<Seq<char>>>, n: int) -> Seq<char>
    decreases n,
{
    if n <= 0 {
        Seq::empty()
    } else {
        json_rows(g, n - 1) + seq![' ', ' ', '['] + json_cells(g[n - 1], g[n - 1].len() as int) + (
        if n < g.len() {
            seq![']', ',', '\n']
        } else {
            seq![']', '\n']
        })
    }
}

/// The JSON text of a grid: an array of arrays of strings, one row per line.
pub open spec fn grid_json(g: Seq<Seq<Seq<char>>>) -> Seq<char> {
    seq!['[', '\n'] + json_rows(g, g.len() as int) + seq![']']
}

/// Writes a grid as JSON text: `[`, then one line per row of quoted cells separated by
/// `", "`, then `]`. Cells are written as they are, without escaping.
pub fn write_grid_json_string(grid: &[Vec<String>]) -> (out: String)
    ensures
        out@ == grid_json(grid.deep_view()),
{
    let ghost g = grid.deep_view();
    let mut out = String::new();
    proof {
        reveal_strlit("[\n");
        reveal_strlit("  [");
        reveal_strlit(", ");
        reveal_strlit("\"");
        reveal_strlit("]");
        reveal_strlit(",\n");
        reveal_strlit("\n");
        assert("[\n"@ =~= seq!['[', '\n']);
        assert("  ["@ =~= seq![' ', ' ', '[']);
        assert(", "@ =~= seq![',', ' ']);
        assert("\""@ =~= seq!['"']);
        assert("]"@ =~= seq![']']);
        assert(",\n"@ =~= seq![',', '\n']);
        assert("\n"@ =~= seq!['\n']);
    }
    out.append("[\n");
    let n = grid.len();
    for ri in 0..n
        invariant
            "[\n"@ == seq!['[', '\n'],
            "  ["@ == seq![' ', ' ', '['],
            ", "@ == seq![',', ' '],
            "\""@ == seq!['"'],
            "]"@ == seq![']'],
            ",\n"@ == seq![',', '\n'],
            "\n"@ == seq!['\n'],
            g == grid.deep_view(),
            n == g.len(),
            out@ == seq!['[', '\n'] + json_rows(g, ri as int),
    {
        let row = &grid[ri];
        assert(row.deep_view() == g[ri as int]);
        let ghost before = out@;
        out.append("  [");
        assert(out@ =~= before + seq![' ', ' ', '['] + json_cells(g[ri as int], 0));
        for ci in 0..row.len()
            invariant
                "[\n"@ == seq!['[', '\n'],
                "  ["@ == seq![' ', ' ', '['],
                ", "@ == seq![',', ' '],
                "\""@ == seq!['"'],
                "]"@ == seq![']'],
                ",\n"@ == seq![',', '\n'],
                "\n"@ == seq!['\n'],
                ri < n,
                n == g.len(),
                row.deep_view() == g[ri as int],
                out@ == before + seq![' ', ' ', '['] + json_cells(g[ri as int], ci as int),
        {
            let ghost mid = out@;
            if ci > 0 {
                out.append(", ");
            }
            out.append("\"");
            out.append(row[ci].as_str());
            out.append("\"");
            assert(row.deep_view()[ci as int] == row@[ci as int]@);
            assert(quoted(g[ri as int][ci as int]) =~= seq!['"'] + row@[ci as int]@ + seq!['"']);
            if ci == 0 {
                assert(out@ =~= before + seq![' ', ' ', '['] + json_cells(g[ri as int], 1));
            } else {
                assert(out@ =~= before + seq![' ', ' ', '['] + json_cells(g[ri as int], ci + 1));
            }
        }
        out.append("]");
        if ri + 1 < n {
            out.append(",\n");
        } else {
            out.append("\n");
        }
        assert(out@ =~= seq!['[', '\n'] + json_rows(g, ri + 1));
    }
    out.append("]");
    out
}

// ---------------------------------------------------------------------------
// Fully filled windows
// ---------------------------------------------------------------------------
/// Every cell of the `rows` x `cols` block at `(top, left)` is one arrow glyph.
pub open spec fn block_all_arrows(g: Seq<Seq<Seq<char>>>, top: int, left: int, rows: int, cols: int) -> bool {
    forall|r: int, c: int|
        top <= r < top + rows && left <= c < left + cols ==> arrow_cell(#[trigger] g[r][c])
}

/// `(t, l)` comes before `(top, left)` in row-major order.
pub open spec fn before_in_row_major(t: int, l: int, top: int, left: int) -> bool {
    t < top || (t == top && l < left)
}

/// The requested window fits in a rectangular grid.
pub open spec fn window_fits(g: Seq<Seq<Seq<char>>>, rows: int, cols: int) -> bool {
    rows > 0 && cols > 0 && is_rectangular(g) && g.len() >= rows && g[0].len() >= cols
}

/// The first (in row-major order of its top-left cell) `target_rows` x `target_cols` window of
/// the grid made only of arrow cells, copied out; `None` if there is none or the grid is not a
/// non-empty rectangle that fits the window.
pub fn extract_fully_filled_arrow_window(grid: &[Vec<String>], target_rows: usize, target_cols: usize) -> (r: Option<Vec<Vec<String>>>)
    ensures
        r matches Some(win) ==> {
            &&& window_fits(grid.deep_view(), target_rows as int, target_cols as int)
            &&& exists|top: int, left: int|
                {
                    &&& 0 <= top <= grid.deep_view().len() - target_rows
                    &&& 0 <= left <= grid.deep_view()[0].len() - target_cols
                    &&& block_all_arrows(grid.deep_view(), top, left, target_rows as int, target_cols as int)
                    &&& win.deep_view() == subgrid(grid.deep_view(), top, left, target_rows as int, target_cols as int)
                    &&& forall|t: int, l: int|
                        0 <= t <= grid.deep_view().len() - target_rows && 0 <= l <= grid.deep_view()[0].len() - target_cols
                            && before_in_row_major(t, l, top, left) ==> !#[trigger] block_all_arrows(
                            grid.deep_view(),
                            t,
                            l,
                            target_rows as int,
                            target_cols as int,
                        )
                }
        },
        r is None ==> !window_fits(grid.deep_view(), target_rows as int, target_cols as int) || forall|
            t: int,
            l: int,
        |
            0 <= t <= grid.deep_view().len() - target_rows && 0 <= l <= grid.deep_view()[0].len() - target_cols
                ==> !#[trigger] block_all_arrows(grid.deep_view(), t, l, target_rows as int, target_cols as int),
{
    let ghost g = grid.deep_view();
    if target_rows == 0 || target_cols == 0 {
        return None;
    }
    if !is_rectangular_grid(grid) {
        return None;
    }
    let h = grid.len();
    let w = grid[0].len();
    if h < target_rows || w < target_cols {
        return None;
    }
    for top in 0..h - target_rows + 1
        invariant
            g == grid.deep_view(),
            is_rectangular(g),
            h == g.len(),
            w == g[0].len(),
            target_rows > 0,
            target_cols > 0,
            h >= target_rows,
            w >= target_cols,
            forall|t: int, l: int|
                0 <= t < top && 0 <= l <= w - target_cols ==> !#[trigger] block_all_arrows(
                    g,
                    t,
                    l,
                    target_rows as int,
                    target_cols as int,
                ),
    {
        for left in 0..w - target_cols + 1
            invariant
                g == grid.deep_view(),
                is_rectangular(g),
                h == g.len(),
                w == g[0].len(),
                target_rows > 0,
                target_cols > 0,
                h >= target_rows,
                w >= target_cols,
                top <= h - target_rows,
                forall|t: int, l: int|
                    0 <= t < top && 0 <= l <= w - target_cols ==> !#[trigger] block_all_arrows(
                        g,
                        t,
                        l,
                        target_rows as int,
                        target_cols as int,
                    ),
                forall|l: int|
                    0 <= l < left ==> !#[trigger] block_all_arrows(
                        g,
                        top as int,
                        l,
                        target_rows as int,
                        target_cols as int,
                    ),
        {
            let mut all_arrows = true;
            let mut r = top;
            while r < top + target_rows
                invariant
                    g == grid.deep_view(),
                    is_rectangular(g),
                    h == g.len(),
                    w == g[0].len(),
                    top <= r <= top + target_rows,
                    top + target_rows <= h,
                    left + target_cols <= w,
                    all_arrows ==> forall|rr: int, c: int|
                        top <= rr < r && left <= c < left + target_cols ==> arrow_cell(#[trigger] g[rr][c]),
                    !all_arrows ==> !block_all_arrows(
                        g,
                        top as int,
                        left as int,
                        target_rows as int,
                        target_cols as int,
                    ),
                decreases top + target_rows - r,
            {
                if all_arrows {
                    let mut c = left;
                    while c < left + target_cols
                        invariant
                            g == grid.deep_view(),
                            is_rectangular(g),
                            h == g.len(),
                            w == g[0].len(),
                            top <= r < top + target_rows,
                            top + target_rows <= h,
                            left <= c <= left + target_cols,
                            left + target_cols <= w,
                            all_arrows ==> forall|rr: int, cc: int|
                                top <= rr < r && left <= cc < left + target_cols ==> arrow_cell(
                                    #[trigger] g[rr][cc],
                                ),
                            all_arrows ==> forall|cc: int|
                                left <= cc < c ==> arrow_cell(#[trigger] g[r as int][cc]),
                            !all_arrows ==> !block_all_arrows(
                                g,
                                top as int,
                                left as int,
                                target_rows as int,
                                target_cols as int,
                            ),
                        decreases left + target_cols - c,
                    {
                        assert(g[r as int].len() == w);
                        assert(g[r as int][c as int] == grid@[r as int]@[c as int]@);
                        if all_arrows && !is_arrow_cell(grid[r][c].as_str()) {
                            all_arrows = false;
                        }
                        c += 1;
                    }
                }
                r += 1;
            }
            if all_arrows {
                proof {
                    assert forall|rr: int| top <= rr < top + target_rows implies left + target_cols
                        <= (#[trigger] grid@[rr])@.len() by {
                        assert(g[rr].len() == w);
                    }
                }
                let window = copy_subgrid(grid, top, left, target_rows, target_cols);
                return Some(window);
            }
        }
    }
    None
}


// ---------------------------------------------------------------------------
// Small helpers of the minification
// ---------------------------------------------------------------------------
/// Rank of an arrow glyph in the order up, down, left, right.
pub open spec fn arrow_rank(ch: char) -> Option<usize> {
    if ch == '↑' {
        Some(0usize)
    } else if ch == '↓' {
        Some(1usize)
    } else if ch == '←' {
        Some(2usize)
    } else if ch == '→' {
        Some(3usize)
    } else {
        None
    }
}

/// Rank of an arrow glyph in the order up, down, left, right.
pub(crate) fn arrow_index(ch: char) -> (r: Option<usize>)
    ensures
        r == arrow_rank(ch),
{
    match ch {
        '↑' => Some(0),
        '↓' => Some(1),
        '←' => Some(2),
        '→' => Some(3),
        _ => None,
    }
}

/// Last index of the 3-block that holds `idx`.
fn boundary_high(idx: usize) -> (r: usize)
    requires
        idx <= usize::MAX - 2,
    ensures
        r == idx + (2 - idx % 3),
{
    idx + (2 - (idx % 3))
}

/// `n` rounded up to a multiple of 3.
pub open spec fn round_up_3(n: int) -> int {
    n + (3 - n % 3) % 3
}

/// The grid padded with space cells on the right and at the bottom to dimensions that are
/// multiples of 3; an empty grid or one with an empty first row is kept, and a grid with rows
/// of different lengths gives an empty grid.
pub open spec fn padded_to_3(g: Seq<Seq<Seq<char>>>) -> Seq<Seq<Seq<char>>> {
    if g.len() == 0 || g[0].len() == 0 {
        g
    } else if !(forall|r: int| 0 <= r < g.len() ==> (#[trigger] g[r]).len() == g[0].len()) {
        Seq::empty()
    } else {
        Seq::new(
            round_up_3(g.len() as int) as nat,
            |r: int|
                Seq::new(
                    round_up_3(g[0].len() as int) as nat,
                    |c: int|
                        if r < g.len() && c < g[0].len() {
                            g[r][c]
                        } else {
                            space()
                        },
                ),
        )
    }
}

/// Pads a grid with space cells to dimensions that are multiples of 3.
fn pad_to_multiple_of_3(grid: Vec<Vec<String>>) -> (out: Vec<Vec<String>>)
    ensures
        out.deep_view() == padded_to_3(grid.deep_view()),
{
    let ghost g = grid.deep_view();
    if grid.len() == 0 || grid[0].len() == 0 {
        return grid;
    }
    let w = grid[0].len();
    if !crate::grid::all_rows_same_length(grid.as_slice()) {
        return Vec::new();
    }
    let h = grid.len();
    let pad_rows = (3 - (h % 3)) % 3;
    let pad_cols = (3 - (w % 3)) % 3;
    let new_w = w + pad_cols;
    let new_h = h + pad_rows;
    assert(new_w == round_up_3(w as int));
    assert(new_h == round_up_3(h as int));
    let ghost target = padded_to_3(g);
    let mut out: Vec<Vec<String>> = Vec::new();
    for r in 0..new_h
        invariant
            g == grid.deep_view(),
            h == g.len(),
            w == g[0].len(),
            w > 0,
            h > 0,
            forall|r: int| 0 <= r < g.len() ==> (#[trigger] g[r]).len() == g[0].len(),
            new_w == round_up_3(w as int),
            new_h == round_up_3(h as int),
            target == padded_to_3(g),
            out@.len() == r,
            forall|i: int| 0 <= i < r ==> (#[trigger] out@[i]).deep_view() == target[i],
    {
        let mut row: Vec<String> = Vec::new();
        for c in 0..new_w
            invariant
                g == grid.deep_view(),
                h == g.len(),
                w == g[0].len(),
                r < new_h,
                forall|r: int| 0 <= r < g.len() ==> (#[trigger] g[r]).len() == g[0].len(),
                new_w == round_up_3(w as int),
                new_h == round_up_3(h as int),
                target == padded_to_3(g),
                row@.len() == c,
                forall|j: int| 0 <= j < c ==> (#[trigger] row@[j])@ == target[r as int][j],
        {
            if r < h && c < w {
                assert(g[r as int][c as int] == grid@[r as int]@[c as int]@);
                row.push(grid[r][c].clone());
            } else {
                row.push(space_cell());
            }
        }
        assert(row.deep_view() =~= target[r as int]);
        out.push(row);
    }
    assert(out.deep_view() =~= target);
    out
}

// ---------------------------------------------------------------------------
// Crop bounds anchored on the phase of the pattern
// ---------------------------------------------------------------------------
/// Number of cells of `cells` equal to the one glyph `gl`.
pub open spec fn count_glyph(cells: Seq<Seq<char>>, gl: char) -> nat
    decreases cells.len(),
{
    if cells.len() == 0 {
        0
    } else {
        count_glyph(cells.drop_last(), gl) + (if cells.last() == seq![gl] {
            1nat
        } else {
            0nat
        })
    }
}

/// Column `c` of the grid.
pub open spec fn column(g: Seq<Seq<Seq<char>>>, c: int) -> Seq<Seq<char>> {
    Seq::new(g.len(), |r: int| g[r][c])
}

/// Which of three counts is largest: 0 for the first (also when all are 0), then 1, then 2.
pub open spec fn dominant_of_three(a: int, m: int, b: int) -> int {
    let mx = if a >= m && a >= b {
        a
    } else if m >= b {
        m
    } else {
        b
    };
    if mx == 0 {
        0
    } else if a == mx {
        0
    } else if m == mx {
        1
    } else {
        2
    }
}

/// Phase of a row of the pattern: 0 when `↑` dominates, 1 when horizontal arrows do, 2 when
/// `↓` does.
pub open spec fn row_kind(g: Seq<Seq<Seq<char>>>, r: int) -> int {
    dominant_of_three(
        count_glyph(g[r], '↑') as int,
        (count_glyph(g[r], '←') + count_glyph(g[r], '→')) as int,
        count_glyph(g[r], '↓') as int,
    )
}

/// Phase of a column of the pattern: 0 when `←` dominates, 1 when vertical arrows do, 2 when
/// `→` does.
pub open spec fn col_kind(g: Seq<Seq<Seq<char>>>, c: int) -> int {
    dominant_of_three(
        count_glyph(column(g, c), '←') as int,
        (count_glyph(column(g, c), '↑') + count_glyph(column(g, c), '↓')) as int,
        count_glyph(column(g, c), '→') as int,
    )
}

/// Row `r` holds an arrow cell.
pub open spec fn row_has_arrow(g: Seq<Seq<Seq<char>>>, r: int) -> bool {
    exists|c: int| 0 <= c < g[r].len() && arrow_cell(#[trigger] g[r][c])
}

/// Column `c` holds an arrow cell.
pub open spec fn col_has_arrow(g: Seq<Seq<Seq<char>>>, c: int) -> bool {
    exists|r: int| 0 <= r < g.len() && arrow_cell(#[trigger] g[r][c])
}

/// `a - b`, but not below zero.
pub open spec fn saturating_sub(a: int, b: int) -> int {
    if a >= b {
        a - b
    } else {
        0
    }
}

/// Bounds `(top, bottom, left, right)` of the arrow cells, with top and left moved back to the
/// start of the 3-phase that their row and column kinds show.
pub open spec fn crop_bounds_ok(g: Seq<Seq<Seq<char>>>, b: (usize, usize, usize, usize)) -> bool {
    exists|top_any: int, left_any: int| #[trigger] crop_bounds_from(g, top_any, left_any, b)
}

/// `b` is `(top, bottom, left, right)` for the first arrow row `top_any` and the first arrow
/// column `left_any`.
pub open spec fn crop_bounds_from(g: Seq<Seq<Seq<char>>>, top_any: int, left_any: int, b: (usize, usize, usize, usize)) -> bool {
    &&& 0 <= top_any <= b.1 < g.len()
    &&& 0 <= left_any <= b.3 < g[0].len()
    &&& row_has_arrow(g, top_any)
    &&& row_has_arrow(g, b.1 as int)
    &&& col_has_arrow(g, left_any)
    &&& col_has_arrow(g, b.3 as int)
    &&& forall|r: int| 0 <= r < top_any ==> !#[trigger] row_has_arrow(g, r)
    &&& forall|r: int| b.1 < r < g.len() ==> !#[trigger] row_has_arrow(g, r)
    &&& forall|c: int| 0 <= c < left_any ==> !#[trigger] col_has_arrow(g, c)
    &&& forall|c: int| b.3 < c < g[0].len() ==> !#[trigger] col_has_arrow(g, c)
    &&& b.0 == saturating_sub(top_any, row_kind(g, top_any))
    &&& b.2 == saturating_sub(left_any, col_kind(g, left_any))
}

/// The grid holds an arrow cell.
pub open spec fn grid_has_arrow(g: Seq<Seq<Seq<char>>>) -> bool {
    exists|r: int| 0 <= r < g.len() && #[trigger] row_has_arrow(g, r)
}

/// Number of cells of `cells` equal to `gl`, for each of the four arrows.
fn count_arrows(cells: &Vec<String>) -> (r: [usize; 4])
    ensures
        r[0] == count_glyph(cells.deep_view(), '↑'),
        r[1] == count_glyph(cells.deep_view(), '↓'),
        r[2] == count_glyph(cells.deep_view(), '←'),
        r[3] == count_glyph(cells.deep_view(), '→'),
        r[0] + r[1] + r[2] + r[3] <= cells@.len(),
{
    let ghost cv = cells.deep_view();
    let mut counts = [0usize; 4];
    for i in 0..cells.len()
        invariant
            cv == cells.deep_view(),
            counts[0] == count_glyph(cv.take(i as int), '↑'),
            counts[1] == count_glyph(cv.take(i as int), '↓'),
            counts[2] == count_glyph(cv.take(i as int), '←'),
            counts[3] == count_glyph(cv.take(i as int), '→'),
            counts[0] + counts[1] + counts[2] + counts[3] <= i,
    {
        assert(cv.take(i + 1).drop_last() =~= cv.take(i as int));
        let ch = single_arrow(&cells[i]);
        assert(cv[i as int] == cells@[i as int]@);
        proof {
            lemma_single_arrow_rank(cv[i as int], ch);
        }
        match ch {
            Some(k) => {
                counts[k] = counts[k] + 1;
            },
            None => {},
        }
    }
    assert(cv.take(cells.len() as int) =~= cv);
    counts
}

/// Rank of the arrow a cell holds, when the cell is exactly one arrow glyph.
pub(crate) fn single_arrow(s: &String) -> (r: Option<usize>)
    ensures
        r matches Some(k) ==> k < 4 && s@ == seq![rank_glyph(k as int)],
        r is None ==> s@ != seq!['↑'] && s@ != seq!['↓'] && s@ != seq!['←'] && s@ != seq!['→'],
{
    let t = s.as_str();
    if t.unicode_len() != 1 {
        return None;
    }
    let c = t.get_char(0);
    assert(t@ =~= seq![c]);
    arrow_index(c)
}

pub(crate) proof fn lemma_single_arrow_rank(cell: Seq<char>, r: Option<usize>)
    requires
        r matches Some(k) ==> k < 4 && cell == seq![rank_glyph(k as int)],
        r is None ==> cell != seq!['↑'] && cell != seq!['↓'] && cell != seq!['←'] && cell != seq!['→'],
    ensures
        (cell == seq!['↑']) == (r == Some(0usize)),
        (cell == seq!['↓']) == (r == Some(1usize)),
        (cell == seq!['←']) == (r == Some(2usize)),
        (cell == seq!['→']) == (r == Some(3usize)),
{
    if let Some(k) = r {
        let gl = rank_glyph(k as int);
        assert(cell[0] == gl);
    }
}

/// The glyph of each rank: up, down, left, right.
pub open spec fn rank_glyph(k: int) -> char {
    if k == 0 {
        '↑'
    } else if k == 1 {
        '↓'
    } else if k == 2 {
        '←'
    } else {
        '→'
    }
}

/// Column `c` of `grid` as counts of the four arrows.
fn count_arrows_in_column(grid: &[Vec<String>], c: usize) -> (r: [usize; 4])
    requires
        forall|i: int| 0 <= i < grid@.len() ==> c < (#[trigger] grid@[i])@.len(),
    ensures
        r[0] == count_glyph(column(grid.deep_view(), c as int), '↑'),
        r[1] == count_glyph(column(grid.deep_view(), c as int), '↓'),
        r[2] == count_glyph(column(grid.deep_view(), c as int), '←'),
        r[3] == count_glyph(column(grid.deep_view(), c as int), '→'),
        r[0] + r[1] + r[2] + r[3] <= grid@.len(),
{
    let ghost cv = column(grid.deep_view(), c as int);
    let mut counts = [0usize; 4];
    for i in 0..grid.len()
        invariant
            cv == column(grid.deep_view(), c as int),
            forall|i: int| 0 <= i < grid@.len() ==> c < (#[trigger] grid@[i])@.len(),
            counts[0] == count_glyph(cv.take(i as int), '↑'),
            counts[1] == count_glyph(cv.take(i as int), '↓'),
            counts[2] == count_glyph(cv.take(i as int), '←'),
            counts[3] == count_glyph(cv.take(i as int), '→'),
            counts[0] + counts[1] + counts[2] + counts[3] <= i,
    {
        assert(cv.take(i + 1).drop_last() =~= cv.take(i as int));
        let ch = single_arrow(&grid[i][c]);
        assert(cv[i as int] == grid@[i as int]@[c as int]@);
        proof {
            lemma_single_arrow_rank(cv[i as int], ch);
        }
        match ch {
            Some(k) => {
                counts[k] = counts[k] + 1;
            },
            None => {},
        }
    }
    assert(cv.take(grid.len() as int) =~= cv);
    counts
}

/// Which of three counts is largest (0 on ties with the first, then 1).
fn dominant(a: usize, m: usize, b: usize) -> (r: usize)
    ensures
        r == dominant_of_three(a as int, m as int, b as int),
{
    let mx = if a >= m && a >= b {
        a
    } else if m >= b {
        m
    } else {
        b
    };
    if mx == 0 {
        0
    } else if a == mx {
        0
    } else if m == mx {
        1
    } else {
        2
    }
}

/// `grid[r]` holds an arrow cell.
fn row_contains_arrow(row: &Vec<String>) -> (b: bool)
    ensures
        b == exists|c: int| 0 <= c < row@.len() && arrow_cell(#[trigger] row.deep_view()[c]),
{
    for c in 0..row.len()
        invariant
            forall|cc: int| 0 <= cc < c ==> !arrow_cell(#[trigger] row.deep_view()[cc]),
    {
        assert(row.deep_view()[c as int] == row@[c as int]@);
        if is_arrow_cell(row[c].as_str()) {
            return true;
        }
    }
    false
}

/// Column `c` of `grid` holds an arrow cell.
fn column_contains_arrow(grid: &[Vec<String>], c: usize) -> (b: bool)
    requires
        forall|i: int| 0 <= i < grid@.len() ==> c < (#[trigger] grid@[i])@.len(),
    ensures
        b == col_has_arrow(grid.deep_view(), c as int),
{
    let ghost g = grid.deep_view();
    for r in 0..grid.len()
        invariant
            g == grid.deep_view(),
            forall|i: int| 0 <= i < grid@.len() ==> c < (#[trigger] grid@[i])@.len(),
            forall|rr: int| 0 <= rr < r ==> !arrow_cell(#[trigger] g[rr][c as int]),
    {
        assert(g[r as int][c as int] == grid@[r as int]@[c as int]@);
        if is_arrow_cell(grid[r][c].as_str()) {
            return true;
        }
    }
    false
}

/// Bounds of the arrow cells of a rectangular grid, with the top row and left column moved
/// back to the start of their 3-phase; `None` for a grid that is empty, not rectangular or
/// without arrows.
fn crop_bounds_any_anchor(grid: &[Vec<String>]) -> (r: Option<(usize, usize, usize, usize)>)
    ensures
        r matches Some(b) ==> is_rectangular(grid.deep_view()) && crop_bounds_ok(grid.deep_view(), b),
        r is None ==> !is_rectangular(grid.deep_view()) || !grid_has_arrow(grid.deep_view()),
{
    let ghost g = grid.deep_view();
    if !is_rectangular_grid(grid) {
        return None;
    }
    let h = grid.len();
    let w = grid[0].len();
    assert forall|i: int| 0 <= i < grid@.len() implies (#[trigger] grid@[i])@.len() == w by {
        assert(g[i].len() == w);
    }
    // topmost row with an arrow
    let mut top_any: usize = 0;
    let mut found = false;
    while top_any < h && !found
        invariant
            g == grid.deep_view(),
            h == g.len(),
            top_any <= h,
            found ==> top_any < h && row_has_arrow(g, top_any as int),
            forall|r: int| 0 <= r < top_any ==> !#[trigger] row_has_arrow(g, r),
        decreases h - top_any + (if found { 0int } else { 1int }),
    {
        assert(grid@[top_any as int].deep_view() == g[top_any as int]);
        if row_contains_arrow(&grid[top_any]) {
            found = true;
        } else {
            top_any += 1;
        }
    }
    if !found {
        return None;
    }
    // bottommost row with an arrow
    let mut bottom_any: usize = h - 1;
    let mut found = false;
    while bottom_any > top_any && !found
        invariant
            g == grid.deep_view(),
            h == g.len(),
            top_any <= bottom_any < h,
            row_has_arrow(g, top_any as int),
            found ==> row_has_arrow(g, bottom_any as int),
            forall|r: int| bottom_any < r < h ==> !#[trigger] row_has_arrow(g, r),
        decreases bottom_any + (if found { 0int } else { 1int }),
    {
        assert(grid@[bottom_any as int].deep_view() == g[bottom_any as int]);
        if row_contains_arrow(&grid[bottom_any]) {
            found = true;
        } else {
            bottom_any -= 1;
        }
    }
    assert(row_has_arrow(g, bottom_any as int));
    // leftmost and rightmost columns with an arrow
    let ghost some_col = choose|c: int|
        0 <= c < g[top_any as int].len() && arrow_cell(#[trigger] g[top_any as int][c]);
    assert(col_has_arrow(g, some_col));
    let mut left_any: usize = 0;
    let mut found = false;
    while left_any < w && !found
        invariant
            g == grid.deep_view(),
            h == g.len(),
            w == g[0].len(),
            forall|i: int| 0 <= i < grid@.len() ==> (#[trigger] grid@[i])@.len() == w,
            0 <= some_col < w,
            col_has_arrow(g, some_col),
            left_any <= some_col,
            found ==> col_has_arrow(g, left_any as int),
            forall|c: int| 0 <= c < left_any ==> !#[trigger] col_has_arrow(g, c),
        decreases w - left_any + (if found { 0int } else { 1int }),
    {
        if column_contains_arrow(grid, left_any) {
            found = true;
        } else {
            left_any += 1;
        }
    }
    assert(col_has_arrow(g, left_any as int));
    let mut right_any: usize = w - 1;
    let mut found = false;
    while right_any > left_any && !found
        invariant
            g == grid.deep_view(),
            h == g.len(),
            w == g[0].len(),
            forall|i: int| 0 <= i < grid@.len() ==> (#[trigger] grid@[i])@.len() == w,
            left_any <= right_any < w,
            col_has_arrow(g, left_any as int),
            found ==> col_has_arrow(g, right_any as int),
            forall|c: int| right_any < c < w ==> !#[trigger] col_has_arrow(g, c),
        decreases right_any + (if found { 0int } else { 1int }),
    {
        if column_contains_arrow(grid, right_any) {
            found = true;
        } else {
            right_any -= 1;
        }
    }
    assert(col_has_arrow(g, right_any as int));
    // phase of the first row and column
    let rc = count_arrows(&grid[top_any]);
    assert(grid@[top_any as int].deep_view() == g[top_any as int]);
    let back_rows = dominant(rc[0], rc[2] + rc[3], rc[1]);
    let cc = count_arrows_in_column(grid, left_any);
    let back_cols = dominant(cc[2], cc[0] + cc[1], cc[3]);
    let top = top_any.saturating_sub(back_rows);
    let left = left_any.saturating_sub(back_cols);
    assert(crop_bounds_from(g, top_any as int, left_any as int, (top, bottom_any, left, right_any)));
    Some((top, bottom_any, left, right_any))
}


// ---------------------------------------------------------------------------
// Largest rectangle of arrow cells
// ---------------------------------------------------------------------------
/// Number of consecutive arrow cells in column `c` ending at row `r` (going upwards).
pub open spec fn run_height(g: Seq<Seq<Seq<char>>>, r: int, c: int) -> int
    decreases r + 1,
{
    if r < 0 {
        0
    } else if arrow_cell(g[r][c]) {
        1 + run_height(g, r - 1, c)
    } else {
        0
    }
}

proof fn lemma_run_height(g: Seq<Seq<Seq<char>>>, b: int, c: int, k: int)
    requires
        0 <= k,
        b - k + 1 >= 0,
    ensures
        run_height(g, b, c) >= k <==> forall|t: int| b - k + 1 <= t <= b ==> arrow_cell(#[trigger] g[t][c]),
    decreases k,
{
    lemma_run_height_bound(g, b, c);
    if k > 0 {
        lemma_run_height(g, b - 1, c, k - 1);
        lemma_run_height_bound(g, b - 1, c);
        if run_height(g, b, c) >= k {
            assert(arrow_cell(g[b][c]));
            assert(run_height(g, b, c) == 1 + run_height(g, b - 1, c));
            assert forall|t: int| b - k + 1 <= t <= b implies arrow_cell(#[trigger] g[t][c]) by {
                if t < b {
                    assert((b - 1) - (k - 1) + 1 <= t <= b - 1);
                }
            }
        }
        if forall|t: int| b - k + 1 <= t <= b ==> arrow_cell(#[trigger] g[t][c]) {
            assert(arrow_cell(g[b][c]));
            assert forall|t: int| (b - 1) - (k - 1) + 1 <= t <= b - 1 implies arrow_cell(
                #[trigger] g[t][c],
            ) by {
                assert(b - k + 1 <= t <= b);
            }
            assert(run_height(g, b - 1, c) >= k - 1);
        }
    }
}

proof fn lemma_run_height_bound(g: Seq<Seq<Seq<char>>>, r: int, c: int)
    ensures
        0 <= run_height(g, r, c) <= (if r >= 0 { r + 1 } else { 0 }),
    decreases r + 1,
{
    if r >= 0 {
        lemma_run_height_bound(g, r - 1, c);
    }
}

/// `rows` x `cols` block of arrow cells inside the grid, whose top-left cell is `(top, left)`.
pub open spec fn is_arrow_rect(g: Seq<Seq<Seq<char>>>, top: int, left: int, rows: int, cols: int) -> bool {
    &&& rows > 0
    &&& cols > 0
    &&& 0 <= top
    &&& top + rows <= g.len()
    &&& 0 <= left
    &&& left + cols <= g[0].len()
    &&& block_all_arrows(g, top, left, rows, cols)
}

/// The crop of a grid to the rectangle `(top, left, rows, cols)`: an arrow rectangle of the
/// largest area, and among those one whose bottom row comes first (every arrow rectangle that
/// ends on an earlier row is smaller), and among those ending on that row the one whose right
/// column comes first, the tallest on a tie (the order of the histogram scan); the crop is kept
/// only when it is at least 6x6, otherwise the whole grid is.
pub open spec fn chosen_crop(g: Seq<Seq<Seq<char>>>, top: int, left: int, rows: int, cols: int, out: Seq<Seq<Seq<char>>>) -> bool {
    &&& is_arrow_rect(g, top, left, rows, cols)
    &&& forall|t: int, l: int, rr: int, cc: int|
        #[trigger] is_arrow_rect(g, t, l, rr, cc) ==> rr * cc <= rows * cols
    &&& forall|t: int, l: int, rr: int, cc: int|
        #[trigger] is_arrow_rect(g, t, l, rr, cc) && t + rr < top + rows ==> rr * cc < rows * cols
    &&& forall|t: int, l: int, rr: int, cc: int|
        #[trigger] is_arrow_rect(g, t, l, rr, cc) && t + rr == top + rows && rr * cc == rows * cols ==> l + cc
            > left + cols || (l + cc == left + cols && rr <= rows)
    &&& out == (if rows >= 6 && cols >= 6 {
        subgrid(g, top, left, rows, cols)
    } else {
        g
    })
}

/// What cropping to the largest arrow rectangle gives: nothing for an empty grid, the grid
/// itself when it is not rectangular or has no arrow cell, and otherwise the crop to a
/// rectangle of arrow cells of the largest area (when that is at least 6x6).
pub open spec fn largest_arrow_crop(g: Seq<Seq<Seq<char>>>, out: Seq<Seq<Seq<char>>>) -> bool {
    if g.len() == 0 || g[0].len() == 0 {
        out.len() == 0
    } else if !is_rectangular(g) {
        out == g
    } else if !(exists|t: int, l: int, rr: int, cc: int| #[trigger] is_arrow_rect(g, t, l, rr, cc)) {
        out == g
    } else {
        exists|t: int, l: int, rr: int, cc: int| #[trigger] chosen_crop(g, t, l, rr, cc, out)
    }
}

/// Height of bar `j` of a histogram, 0 past its end.
pub open spec fn bar(hs: Seq<usize>, j: int) -> int {
    if 0 <= j < hs.len() {
        hs[j] as int
    } else {
        0
    }
}

/// Every bar in `a ..= b` is at least `k` high.
pub open spec fn bars_at_least(hs: Seq<usize>, a: int, b: int, k: int) -> bool {
    forall|x: int| a <= x <= b ==> bar(hs, x) >= k
}

/// `j` is the leftmost lowest bar of `a ..= b`.
pub open spec fn leftmost_min(hs: Seq<usize>, a: int, b: int, j: int) -> bool {
    &&& a <= j <= b
    &&& forall|x: int| a <= x <= b ==> bar(hs, x) >= bar(hs, j)
    &&& forall|x: int| a <= x < j ==> bar(hs, x) > bar(hs, j)
}

proof fn lemma_leftmost_min_exists(hs: Seq<usize>, a: int, b: int) -> (j: int)
    requires
        a <= b,
    ensures
        leftmost_min(hs, a, b, j),
    decreases b - a,
{
    if a == b {
        a
    } else {
        let j0 = lemma_leftmost_min_exists(hs, a, b - 1);
        if bar(hs, b) < bar(hs, j0) {
            b
        } else {
            j0
        }
    }
}

/// A scan candidate: bars `left ..= right` are at least `height` high.
pub open spec fn valid_candidate(hs: Seq<usize>, height: int, left: int, right: int) -> bool {
    &&& height >= 1
    &&& 0 <= left <= right < hs.len()
    &&& bars_at_least(hs, left, right, height)
}

/// Start of the range of bars that stack entry `p` covers on its left.
pub open spec fn stack_left(s: Seq<usize>, p: int) -> int {
    if p == 0 {
        0
    } else {
        s[p - 1] + 1
    }
}

/// Start of the range after the top of the stack.
pub open spec fn after_top(s: Seq<usize>) -> int {
    if s.len() == 0 {
        0
    } else {
        s.last() + 1
    }
}

/// Shape of the stack of the histogram scan before bar `i`.
#[verifier::opaque]
pub open spec fn stack_ok(hs: Seq<usize>, s: Seq<usize>, i: int) -> bool {
    let w = hs.len() as int;
    &&& i <= w + 1
    &&& forall|p: int, q: int| 0 <= p < q < s.len() ==> s[p] < s[q]
    &&& forall|p: int| 0 <= p < s.len() ==> s[p] < i && s[p] <= w
    &&& forall|p: int, q: int| 0 <= p < q < s.len() ==> bar(hs, s[p] as int) <= bar(hs, s[q] as int)
    &&& forall|p: int, j: int|
        #![trigger s[p], bar(hs, j)]
        0 <= p < s.len() && stack_left(s, p) <= j < s[p] ==> bar(hs, j) >= bar(hs, s[p] as int)
    &&& forall|p: int, j: int|
        #![trigger s[p], bar(hs, j)]
        0 <= p < s.len() && s[p] < j < i ==> bar(hs, j) >= bar(hs, s[p] as int)
    &&& i <= w ==> forall|j: int| after_top(s) <= j < i ==> bar(hs, j) > bar(hs, i)
    &&& i == w + 1 ==> forall|p: int| 0 <= p < s.len() ==> bar(hs, s[p] as int) == 0
}

/// Bar `j` is on the stack.
pub open spec fn on_stack(s: Seq<usize>, j: int) -> bool {
    exists|p: int| 0 <= p < s.len() && s[p] == j
}

/// Every run of bars whose leftmost lowest bar has been scanned and popped is no larger than
/// `area`.
#[verifier::opaque]
pub open spec fn popped_accounted(hs: Seq<usize>, s: Seq<usize>, i: int, area: int) -> bool {
    forall|a: int, b: int, j: int|
        #[trigger] leftmost_min(hs, a, b, j) && 0 <= a && b < hs.len() && bar(hs, j) >= 1 && j < i
            && !on_stack(s, j) ==> bar(hs, j) * (b - a + 1) <= area
}

proof fn lemma_scan_start(hs: Seq<usize>, area: int)
    ensures
        stack_ok(hs, Seq::empty(), 0),
        popped_accounted(hs, Seq::empty(), 0, area),
{
    reveal(stack_ok);
    reveal(popped_accounted);
}

proof fn lemma_stack_below(hs: Seq<usize>, s: Seq<usize>, i: int)
    requires
        stack_ok(hs, s, i),
    ensures
        forall|p: int| 0 <= p < s.len() ==> #[trigger] s[p] < i && s[p] <= hs.len(),
{
    reveal(stack_ok);
}

proof fn lemma_scan_push(hs: Seq<usize>, s: Seq<usize>, i: int, area: int)
    requires
        stack_ok(hs, s, i),
        popped_accounted(hs, s, i, area),
        0 <= i <= hs.len(),
        i <= usize::MAX,
        s.len() == 0 || bar(hs, i) >= bar(hs, s.last() as int),
    ensures
        stack_ok(hs, s.push(i as usize), i + 1),
        popped_accounted(hs, s.push(i as usize), i + 1, area),
{
    reveal(stack_ok);
    reveal(popped_accounted);
    let ns = s.push(i as usize);
    let w = hs.len() as int;
    assert(ns[s.len() as int] == i);
    assert forall|p: int| 0 <= p < s.len() implies ns[p] == s[p] by {}
    if s.len() > 0 {
        assert forall|p: int| 0 <= p < s.len() implies bar(hs, #[trigger] s[p] as int) <= bar(hs, i) by {
            if p < s.len() - 1 {
                assert(bar(hs, s[p] as int) <= bar(hs, s[s.len() - 1] as int));
            }
        }
    }
    assert forall|p: int, j: int|
        #![trigger ns[p], bar(hs, j)]
        0 <= p < ns.len() && ns[p] < j < i + 1 implies bar(hs, j) >= bar(hs, ns[p] as int) by {
        if p < s.len() {
            assert(ns[p] == s[p]);
            if j < i {
                assert(s[p] < j < i);
            }
        }
    }
    assert forall|p: int, j: int|
        #![trigger ns[p], bar(hs, j)]
        0 <= p < ns.len() && stack_left(ns, p) <= j < ns[p] implies bar(hs, j) >= bar(hs, ns[p] as int) by {
        if p == s.len() {
            assert(after_top(s) <= j < i);
        } else {
            assert(ns[p] == s[p]);
            assert(stack_left(ns, p) == stack_left(s, p));
        }
    }
    assert forall|p: int, q: int| 0 <= p < q < ns.len() implies bar(hs, #[trigger] ns[p] as int) <= bar(
        hs,
        #[trigger] ns[q] as int,
    ) by {
        assert(ns[p] == s[p]);
        if q < s.len() {
            assert(ns[q] == s[q]);
        }
    }
    if i == w {
        assert forall|p: int| 0 <= p < ns.len() implies bar(hs, #[trigger] ns[p] as int) == 0 by {
            if p < s.len() {
                assert(ns[p] == s[p]);
            }
        }
    }
    assert forall|a: int, b: int, j: int|
        #[trigger] leftmost_min(hs, a, b, j) && 0 <= a && b < hs.len() && bar(hs, j) >= 1 && j < i + 1
            && !on_stack(ns, j) implies bar(hs, j) * (b - a + 1) <= area by {
        if j == i {
            assert(ns[s.len() as int] == j);
        } else if on_stack(s, j) {
            let p = choose|p: int| 0 <= p < s.len() && s[p] == j;
            assert(ns[p] == j);
        }
    }
}

/// Popping the top of the stack keeps its shape.
proof fn lemma_pop_shape(hs: Seq<usize>, s: Seq<usize>, i: int)
    requires
        stack_ok(hs, s, i),
        0 <= i <= hs.len(),
        s.len() > 0,
        bar(hs, i) < bar(hs, s.last() as int),
    ensures
        stack_ok(hs, s.drop_last(), i),
        forall|j: int| after_top(s.drop_last()) <= j <= i - 1 ==> #[trigger] bar(hs, j) >= bar(hs, s.last() as int),
        after_top(s.drop_last()) <= s.last() < i,
        s.drop_last().len() > 0 ==> bar(hs, s.drop_last().last() as int) <= bar(hs, s.last() as int),
{
    reveal(stack_ok);
    reveal(popped_accounted);
    let ns = s.drop_last();
    let t = s.last() as int;
    let p = s.len() - 1;
    assert(s[p] == t);
    assert(stack_left(s, p) == after_top(ns)) by {
        if p > 0 {
            assert(ns.last() == s[p - 1]);
        }
    }
    assert forall|p2: int| 0 <= p2 < ns.len() implies ns[p2] == s[p2] by {}
    assert forall|j: int| after_top(ns) <= j <= i - 1 implies #[trigger] bar(hs, j) >= bar(hs, t) by {
        if j < t {
            assert(stack_left(s, p) <= j < s[p]);
        } else if j > t {
            assert(s[p] < j < i);
        }
    }
    assert forall|j: int| after_top(ns) <= j < i implies #[trigger] bar(hs, j) > bar(hs, i) by {
        assert(bar(hs, j) >= bar(hs, t));
    }
    assert forall|p2: int, j: int|
        #![trigger ns[p2], bar(hs, j)]
        0 <= p2 < ns.len() && stack_left(ns, p2) <= j < ns[p2] implies bar(hs, j) >= bar(hs, ns[p2] as int) by {
        assert(s[p2] == ns[p2]);
        assert(stack_left(s, p2) == stack_left(ns, p2));
    }
    assert forall|p2: int, j: int|
        #![trigger ns[p2], bar(hs, j)]
        0 <= p2 < ns.len() && ns[p2] < j < i implies bar(hs, j) >= bar(hs, ns[p2] as int) by {
        assert(s[p2] == ns[p2]);
    }
    assert forall|p2: int, q: int| 0 <= p2 < q < ns.len() implies bar(hs, #[trigger] ns[p2] as int) <= bar(
        hs,
        #[trigger] ns[q] as int,
    ) by {
        assert(s[p2] == ns[p2]);
        assert(s[q] == ns[q]);
    }
    if ns.len() > 0 {
        assert(ns.last() == s[p - 1]);
        assert(bar(hs, s[p - 1] as int) <= bar(hs, s[p] as int));
    }
}

/// Popping the top `t` of the stack, with a new best area that covers the run of bars
/// around `t` that are at least as high, keeps every popped run accounted for.
proof fn lemma_pop_accounted(hs: Seq<usize>, s: Seq<usize>, i: int, area: int, new_area: int)
    requires
        stack_ok(hs, s, i),
        popped_accounted(hs, s, i, area),
        0 <= i <= hs.len(),
        s.len() > 0,
        bar(hs, i) < bar(hs, s.last() as int),
        new_area >= area,
        new_area >= bar(hs, s.last() as int) * (i - after_top(s.drop_last())),
        forall|j: int| after_top(s.drop_last()) <= j <= i - 1 ==> #[trigger] bar(hs, j) >= bar(hs, s.last() as int),
        after_top(s.drop_last()) <= s.last() < i,
        s.drop_last().len() > 0 ==> bar(hs, s.drop_last().last() as int) <= bar(hs, s.last() as int),
    ensures
        popped_accounted(hs, s.drop_last(), i, new_area),
{
    reveal(stack_ok);
    reveal(popped_accounted);
    let ns = s.drop_last();
    let t = s.last() as int;
    let p = s.len() - 1;
    assert(s[p] == t);
    assert forall|a: int, b: int, j: int|
        #[trigger] leftmost_min(hs, a, b, j) && 0 <= a && b < hs.len() && bar(hs, j) >= 1 && j < i
            && !on_stack(ns, j) implies bar(hs, j) * (b - a + 1) <= new_area by {
        if j == t {
            if ns.len() > 0 && ns.last() >= a {
                let below = ns.last() as int;
                assert(below < t) by {
                    assert(ns.last() == s[p - 1]);
                }
                assert(bar(hs, below) > bar(hs, j));
            }
            if b >= i {
                assert(bar(hs, i) >= bar(hs, j));
            }
            assert(after_top(ns) <= a) by {
                if ns.len() > 0 {
                    assert(ns.last() < a);
                }
            }
            assert(bar(hs, j) * (b - a + 1) <= bar(hs, t) * (i - after_top(ns))) by (nonlinear_arith)
                requires
                    bar(hs, j) == bar(hs, t),
                    0 <= b - a + 1 <= i - after_top(ns),
                    bar(hs, t) >= 0,
            ;
        } else {
            if on_stack(s, j) {
                let q = choose|q: int| 0 <= q < s.len() && s[q] == j;
                assert(q != p);
                assert(ns[q] == j);
            }
        }
    }
}

/// A run of bars of area `area` ends after the recorded rectangle `rect`, or ends with it and is
/// at most as high.
pub open spec fn run_not_before(b: int, k: int, rect: (usize, usize, usize, usize)) -> bool {
    b > rect.3 || (b == rect.3 && k <= rect.2 + 1 - rect.0)
}

/// Every popped run of the best area is no earlier than the recorded rectangle in the order of
/// the scan (by right end, then taller first).
#[verifier::opaque]
pub open spec fn popped_after(hs: Seq<usize>, s: Seq<usize>, i: int, area: int, rect: (usize, usize, usize, usize)) -> bool {
    forall|a: int, b: int, j: int|
        #[trigger] leftmost_min(hs, a, b, j) && 0 <= a && b < hs.len() && bar(hs, j) >= 1 && j < i
            && !on_stack(s, j) && bar(hs, j) * (b - a + 1) == area ==> run_not_before(b, bar(hs, j), rect)
}

/// Pushing a bar pops nothing, so the popped runs keep their order.
proof fn lemma_push_after(hs: Seq<usize>, s: Seq<usize>, i: int, area: int, rect: (usize, usize, usize, usize))
    requires
        popped_after(hs, s, i, area, rect),
        0 <= i <= usize::MAX,
    ensures
        popped_after(hs, s.push(i as usize), i + 1, area, rect),
{
    reveal(popped_after);
    let ns = s.push(i as usize);
    assert forall|a: int, b: int, j: int|
        #[trigger] leftmost_min(hs, a, b, j) && 0 <= a && b < hs.len() && bar(hs, j) >= 1 && j < i + 1
            && !on_stack(ns, j) && bar(hs, j) * (b - a + 1) == area implies run_not_before(b, bar(hs, j), rect) by {
        if j == i {
            assert(ns[s.len() as int] == j);
        } else if on_stack(s, j) {
            let p = choose|p: int| 0 <= p < s.len() && s[p] == j;
            assert(ns[p] == j);
        }
    }
}

/// Popping the top `t` of the stack: its runs lie within the candidate `(left, i - 1)` of
/// height `bar(t)`; if the candidate is recorded, its runs of the best area are it; if not, a
/// run of the best area comes at or after the recorded rectangle.
proof fn lemma_pop_after(
    hs: Seq<usize>,
    s: Seq<usize>,
    i: int,
    old_area: int,
    new_area: int,
    old_rect: (usize, usize, usize, usize),
    new_rect: (usize, usize, usize, usize),
    tracked_before: bool,
)
    requires
        stack_ok(hs, s, i),
        popped_accounted(hs, s, i, old_area),
        tracked_before ==> popped_after(hs, s, i, old_area, old_rect),
        tracked_before && old_rect.3 + 1 == i ==> old_rect.2 + 1 - old_rect.0 >= bar(hs, s.last() as int),
        tracked_before ==> old_rect.3 + 1 <= i,
        0 <= i <= hs.len(),
        s.len() > 0,
        bar(hs, i) < bar(hs, s.last() as int),
        forall|j: int| after_top(s.drop_last()) <= j <= i - 1 ==> #[trigger] bar(hs, j) >= bar(hs, s.last() as int),
        after_top(s.drop_last()) <= s.last() < i,
        s.drop_last().len() > 0 ==> bar(hs, s.drop_last().last() as int) <= bar(hs, s.last() as int),
        new_area > old_area ==> {
            &&& new_area == bar(hs, s.last() as int) * (i - after_top(s.drop_last()))
            &&& new_rect.3 == i - 1
            &&& new_rect.2 + 1 - new_rect.0 == bar(hs, s.last() as int)
        },
        new_area <= old_area ==> {
            &&& new_area == old_area
            &&& new_rect == old_rect
            &&& bar(hs, s.last() as int) * (i - after_top(s.drop_last())) <= old_area
        },
        new_area > old_area || tracked_before,
    ensures
        popped_after(hs, s.drop_last(), i, new_area, new_rect),
        new_rect.3 + 1 == i && s.drop_last().len() > 0 ==> new_rect.2 + 1 - new_rect.0 >= bar(
            hs,
            s.drop_last().last() as int,
        ),
{
    reveal(stack_ok);
    reveal(popped_accounted);
    reveal(popped_after);
    let ns = s.drop_last();
    let t = s.last() as int;
    let h = bar(hs, t);
    let p = s.len() - 1;
    let lo = after_top(ns);
    assert(s[p] == t);
    assert forall|a: int, b: int, j: int|
        #[trigger] leftmost_min(hs, a, b, j) && 0 <= a && b < hs.len() && bar(hs, j) >= 1 && j < i
            && !on_stack(ns, j) && bar(hs, j) * (b - a + 1) == new_area implies run_not_before(b, bar(hs, j), new_rect) by {
        if j == t {
            if ns.len() > 0 && ns.last() >= a {
                let below = ns.last() as int;
                assert(below < t) by {
                    assert(ns.last() == s[p - 1]);
                }
                assert(bar(hs, below) > bar(hs, j));
            }
            if b >= i {
                assert(bar(hs, i) >= bar(hs, j));
            }
            assert(lo <= a) by {
                if ns.len() > 0 {
                    assert(ns.last() < a);
                }
            }
            assert(h * (b - a + 1) <= h * (i - lo)) by (nonlinear_arith)
                requires
                    0 <= b - a + 1 <= i - lo,
                    h >= 0,
            ;
            if h * (b - a + 1) == h * (i - lo) {
                assert(b - a + 1 == i - lo) by (nonlinear_arith)
                    requires
                        h * (b - a + 1) == h * (i - lo),
                        h >= 1,
                ;
            }
            assert(b <= i - 1);
        } else {
            if on_stack(s, j) {
                let q = choose|q: int| 0 <= q < s.len() && s[q] == j;
                assert(q != p);
                assert(ns[q] == j);
            }
        }
    }
    if new_rect.3 + 1 == i && ns.len() > 0 {
        assert(ns.last() == s[p - 1]);
        assert(bar(hs, s[p - 1] as int) <= bar(hs, s[p] as int));
    }
}

/// At the end of the scan every run of the best area is no earlier than the recorded rectangle.
proof fn lemma_scan_done_after(hs: Seq<usize>, s: Seq<usize>, area: int, rect: (usize, usize, usize, usize))
    requires
        stack_ok(hs, s, (hs.len() + 1) as int),
        popped_accounted(hs, s, (hs.len() + 1) as int, area),
        popped_after(hs, s, (hs.len() + 1) as int, area, rect),
    ensures
        forall|a: int, b: int, k: int|
            #[trigger] bars_at_least(hs, a, b, k) && 0 <= a <= b < hs.len() && k >= 1 && k * (b - a + 1) == area
                ==> run_not_before(b, k, rect),
{
    reveal(stack_ok);
    reveal(popped_accounted);
    reveal(popped_after);
    assert forall|a: int, b: int, k: int|
        #[trigger] bars_at_least(hs, a, b, k) && 0 <= a <= b < hs.len() && k >= 1 && k * (b - a + 1) == area
            implies run_not_before(b, k, rect) by {
        let j = lemma_leftmost_min_exists(hs, a, b);
        assert(bar(hs, j) >= k);
        if on_stack(s, j) {
            let q = choose|q: int| 0 <= q < s.len() && s[q] == j;
            assert(bar(hs, s[q] as int) == 0);
        }
        assert(bar(hs, j) * (b - a + 1) <= area);
        assert(bar(hs, j) == k) by (nonlinear_arith)
            requires
                bar(hs, j) * (b - a + 1) <= k * (b - a + 1),
                bar(hs, j) >= k,
                b - a + 1 >= 1,
        ;
    }
}

proof fn lemma_scan_done(hs: Seq<usize>, s: Seq<usize>, area: int)
    requires
        stack_ok(hs, s, (hs.len() + 1) as int),
        popped_accounted(hs, s, (hs.len() + 1) as int, area),
    ensures
        forall|a: int, b: int, k: int|
            #[trigger] bars_at_least(hs, a, b, k) && 0 <= a <= b < hs.len() && k >= 1 ==> k * (b - a + 1)
                <= area,
{
    reveal(stack_ok);
    reveal(popped_accounted);
    assert forall|a: int, b: int, k: int|
        #[trigger] bars_at_least(hs, a, b, k) && 0 <= a <= b < hs.len() && k >= 1 implies k * (b - a + 1)
            <= area by {
        let j = lemma_leftmost_min_exists(hs, a, b);
        assert(bar(hs, j) >= k);
        if on_stack(s, j) {
            let q = choose|q: int| 0 <= q < s.len() && s[q] == j;
            assert(bar(hs, s[q] as int) == 0);
        }
        assert(k * (b - a + 1) <= bar(hs, j) * (b - a + 1)) by (nonlinear_arith)
            requires
                k <= bar(hs, j),
                b - a + 1 >= 0,
        ;
    }
}

/// One row of the largest-rectangle search: the stack scan of the histogram `heights` (the
/// run heights of row `r`), updating the best area found so far (only a strictly larger area
/// replaces it).
fn scan_row(heights: &Vec<usize>, r: usize, best_area: usize, best: (usize, usize, usize, usize)) -> (res: (
    usize,
    (usize, usize, usize, usize),
))
    requires
        forall|j: int| 0 <= j < heights@.len() ==> #[trigger] heights@[j] <= r + 1,
        (r + 1) * heights@.len() <= usize::MAX,
        r < usize::MAX,
        heights@.len() < usize::MAX,
        best_area <= (r + 1) * heights@.len(),
    ensures
        res.0 >= best_area,
        res.0 <= (r + 1) * heights@.len(),
        res.0 == best_area ==> res.1 == best,
        res.0 > best_area ==> {
            let hh = res.1.2 + 1 - res.1.0;
            &&& res.1.2 == r
            &&& 1 <= hh <= r + 1
            &&& valid_candidate(heights@, hh, res.1.1 as int, res.1.3 as int)
            &&& hh * (res.1.3 - res.1.1 + 1) == res.0
        },
        forall|a: int, b: int, k: int|
            #[trigger] bars_at_least(heights@, a, b, k) && 0 <= a <= b < heights@.len() && k >= 1
                ==> k * (b - a + 1) <= res.0,
        res.0 > best_area ==> forall|a: int, b: int, k: int|
            #[trigger] bars_at_least(heights@, a, b, k) && 0 <= a <= b < heights@.len() && k >= 1 && k * (b - a + 1)
                == res.0 ==> run_not_before(b, k, res.1),
{
    let ghost hs = heights@;
    let w = heights.len();
    let mut area_best = best_area;
    let mut rect = best;
    let mut stack: Vec<usize> = Vec::new();
    let mut i: usize = 0;
    proof {
        lemma_scan_start(hs, best_area as int);
    }
    while i <= w
        invariant
            hs == heights@,
            w == hs.len(),
            forall|j: int| 0 <= j < w ==> #[trigger] hs[j] <= r + 1,
            (r + 1) * w <= usize::MAX,
            r < usize::MAX,
            w < usize::MAX,
            i <= w + 1,
            stack_ok(hs, stack@, i as int),
            popped_accounted(hs, stack@, i as int, area_best as int),
            area_best >= best_area,
            area_best <= (r + 1) * w,
            area_best == best_area ==> rect == best,
            area_best > best_area ==> {
                let hh = rect.2 + 1 - rect.0;
                &&& rect.2 == r
                &&& 1 <= hh <= r + 1
                &&& valid_candidate(hs, hh, rect.1 as int, rect.3 as int)
                &&& hh * (rect.3 - rect.1 + 1) == area_best
                &&& rect.3 + 1 <= i
                &&& popped_after(hs, stack@, i as int, area_best as int, rect)
                &&& rect.3 + 1 == i && stack@.len() > 0 ==> rect.2 + 1 - rect.0 >= bar(hs, stack@.last() as int)
            },
        decreases 2 * (w + 1 - i) + stack@.len(),
    {
        let cur_h = if i == w {
            0
        } else {
            heights[i]
        };
        assert(cur_h == bar(hs, i as int));
        proof {
            lemma_stack_below(hs, stack@, i as int);
        }
        let push = if stack.len() == 0 {
            true
        } else {
            let top = stack[stack.len() - 1];
            assert(stack@.last() == top);
            cur_h >= heights[top]
        };
        if push {
            proof {
                lemma_scan_push(hs, stack@, i as int, area_best as int);
                if area_best > best_area {
                    lemma_push_after(hs, stack@, i as int, area_best as int, rect);
                }
            }
            stack.push(i);
            i += 1;
        } else {
            let ghost old_stack = stack@;
            proof {
                lemma_pop_shape(hs, old_stack, i as int);
            }
            let top = stack.pop().unwrap();
            assert(stack@ =~= old_stack.drop_last());
            let height = heights[top];
            assert(height == bar(hs, top as int));
            let right = i - 1;
            let left = if stack.len() == 0 {
                0
            } else {
                stack[stack.len() - 1] + 1
            };
            assert(left == after_top(stack@));
            let ghost old_best = area_best;
            let ghost old_rect = rect;
            if height != 0 {
                proof {
                    assert(left <= top < i);
                    assert(height * (right + 1 - left) <= (r + 1) * w) by (nonlinear_arith)
                        requires
                            height <= r + 1,
                            0 < right + 1 - left <= w,
                    ;
                }
                let width = right + 1 - left;
                let area = height * width;
                if area > area_best {
                    area_best = area;
                    let bottom = r;
                    let top_row = r + 1 - height;
                    rect = (top_row, left, bottom, right);
                }
            }
            proof {
                if area_best > best_area {
                    lemma_pop_after(
                        hs,
                        old_stack,
                        i as int,
                        old_best as int,
                        area_best as int,
                        old_rect,
                        rect,
                        old_best > best_area,
                    );
                }
                lemma_pop_accounted(hs, old_stack, i as int, old_best as int, area_best as int);
                if area_best > old_best {
                    assert(valid_candidate(hs, height as int, left as int, right as int));
                }
            }
        }
    }
    proof {
        lemma_scan_done(hs, stack@, area_best as int);
        if area_best > best_area {
            lemma_scan_done_after(hs, stack@, area_best as int, rect);
        }
    }
    (area_best, rect)
}


/// A rectangle of arrow cells whose bottom row is `r` stands on bars that are all at least its
/// height in the run heights of row `r`.
proof fn lemma_rect_bars(g: Seq<Seq<Seq<char>>>, hs: Seq<usize>, r: int, t: int, l: int, rr: int, cc: int)
    requires
        is_arrow_rect(g, t, l, rr, cc),
        t + rr - 1 == r,
        hs.len() == g[0].len(),
        forall|j: int| 0 <= j < hs.len() ==> #[trigger] hs[j] == run_height(g, r, j),
    ensures
        bars_at_least(hs, l, l + cc - 1, rr),
{
    assert forall|x: int| l <= x <= l + cc - 1 implies bar(hs, x) >= rr by {
        lemma_run_height(g, r, x, rr);
        assert forall|y: int| r - rr + 1 <= y <= r implies arrow_cell(#[trigger] g[y][x]) by {
            assert(t <= y < t + rr && l <= x < l + cc);
        }
        assert(hs[x] == run_height(g, r, x));
    }
}

/// Bars `left ..= right` of the run heights of row `r` that are all at least `hh` high stand
/// under a rectangle of arrow cells.
proof fn lemma_candidate_rect(g: Seq<Seq<Seq<char>>>, hs: Seq<usize>, r: int, hh: int, left: int, right: int)
    requires
        valid_candidate(hs, hh, left, right),
        hh <= r + 1,
        0 <= r < g.len(),
        g.len() > 0,
        hs.len() == g[0].len(),
        forall|j: int| 0 <= j < hs.len() ==> #[trigger] hs[j] == run_height(g, r, j),
    ensures
        is_arrow_rect(g, r + 1 - hh, left, hh, right - left + 1),
{
    assert forall|y: int, x: int|
        r + 1 - hh <= y < r + 1 - hh + hh && left <= x < left + (right - left + 1) implies arrow_cell(
        #[trigger] g[y][x],
    ) by {
        assert(bar(hs, x) >= hh);
        assert(hs[x] == run_height(g, r, x));
        lemma_run_height(g, r, x, hh);
    }
}

/// `grid` cropped to a largest rectangle of arrow cells, when that rectangle is at least 6x6;
/// otherwise `grid` unchanged (empty when `grid` is).
fn crop_to_largest_arrow_rectangle(grid: &[Vec<String>]) -> (out: Vec<Vec<String>>)
    requires
        grid@.len() > 0 ==> grid@.len() * grid@[0]@.len() < usize::MAX,
    ensures
        largest_arrow_crop(grid.deep_view(), out.deep_view()),
{
    let ghost g = grid.deep_view();
    if grid.len() == 0 || grid[0].len() == 0 {
        return Vec::new();
    }
    let h = grid.len();
    let w = grid[0].len();
    assert(g.len() == h && g[0].len() == w);
    if !is_rectangular_grid(grid) {
        return copy_grid(grid);
    }
    proof {
        assert(w <= h * w && h * w < usize::MAX) by (nonlinear_arith)
            requires
                h >= 1,
                h * w < usize::MAX,
        ;
    }
    let mut heights: Vec<usize> = Vec::new();
    for c in 0..w
        invariant
            heights@.len() == c,
            forall|j: int| 0 <= j < c ==> #[trigger] heights@[j] == run_height(g, -1, j),
    {
        heights.push(0);
    }
    let mut best: (usize, usize, usize, usize) = (0, 0, 0, 0);
    let mut best_area: usize = 0;
    for r in 0..h
        invariant
            g == grid.deep_view(),
            h == g.len(),
            w == g[0].len(),
            w > 0,
            w < usize::MAX,
            is_rectangular(g),
            h * w < usize::MAX,
            heights@.len() == w,
            forall|j: int| 0 <= j < w ==> #[trigger] heights@[j] == run_height(g, r - 1, j),
            best_area <= r * w,
            best_area > 0 ==> {
                &&& best.0 <= best.2
                &&& best.1 <= best.3
                &&& is_arrow_rect(g, best.0 as int, best.1 as int, best.2 - best.0 + 1, best.3 - best.1 + 1)
                &&& (best.2 - best.0 + 1) * (best.3 - best.1 + 1) == best_area
            },
            forall|t: int, l: int, rr: int, cc: int|
                #[trigger] is_arrow_rect(g, t, l, rr, cc) && t + rr <= r ==> rr * cc <= best_area,
            best_area > 0 ==> best.2 < r,
            best_area > 0 ==> forall|t: int, l: int, rr: int, cc: int|
                #[trigger] is_arrow_rect(g, t, l, rr, cc) && t + rr <= best.2 ==> rr * cc < best_area,
            best_area > 0 ==> forall|t: int, l: int, rr: int, cc: int|
                #[trigger] is_arrow_rect(g, t, l, rr, cc) && t + rr == best.2 + 1 && rr * cc == best_area
                    ==> run_not_before(l + cc - 1, rr, best),
    {
        let ghost prev = heights@;
        for c in 0..w
            invariant
                g == grid.deep_view(),
                h == g.len(),
                w == g[0].len(),
                is_rectangular(g),
                r < h,
                heights@.len() == w,
                forall|j: int| 0 <= j < c ==> #[trigger] heights@[j] == run_height(g, r as int, j),
                forall|j: int| c <= j < w ==> #[trigger] heights@[j] == prev[j],
                forall|j: int| 0 <= j < w ==> #[trigger] prev[j] == run_height(g, r - 1, j),
        {
            assert(g[r as int][c as int] == grid@[r as int]@[c as int]@);
            proof {
                lemma_run_height_bound(g, r - 1, c as int);
            }
            if is_arrow_cell(grid[r][c].as_str()) {
                let v = heights[c] + 1;
                heights.set(c, v);
            } else {
                heights.set(c, 0);
            }
        }
        proof {
            assert forall|j: int| 0 <= j < heights@.len() implies #[trigger] heights@[j] <= r + 1 by {
                lemma_run_height_bound(g, r as int, j);
            }
            assert((r + 1) * w <= h * w && best_area <= (r + 1) * w) by (nonlinear_arith)
                requires
                    r < h,
                    best_area <= r * w,
                    w >= 0,
            ;
        }
        let ghost old_area = best_area;
        let ghost old_best = best;
        let (a, b) = scan_row(&heights, r, best_area, best);
        proof {
            let hs = heights@;
            if a > old_area {
                let hh = b.2 + 1 - b.0;
                lemma_candidate_rect(g, hs, r as int, hh, b.1 as int, b.3 as int);
            }
            assert forall|t: int, l: int, rr: int, cc: int|
                #[trigger] is_arrow_rect(g, t, l, rr, cc) && t + rr <= r + 1 implies rr * cc <= a by {
                if t + rr == r + 1 {
                    lemma_rect_bars(g, hs, r as int, t, l, rr, cc);
                    assert(bars_at_least(hs, l, l + cc - 1, rr) && 0 <= l <= l + cc - 1 < hs.len() && rr >= 1);
                }
            }
            if a > old_area {
                assert forall|t: int, l: int, rr: int, cc: int|
                    #[trigger] is_arrow_rect(g, t, l, rr, cc) && t + rr == b.2 + 1 && rr * cc == a implies run_not_before(
                    l + cc - 1,
                    rr,
                    b,
                ) by {
                    lemma_rect_bars(g, hs, r as int, t, l, rr, cc);
                    assert(bars_at_least(hs, l, l + cc - 1, rr) && 0 <= l <= l + cc - 1 < hs.len() && rr >= 1);
                    assert(rr * (l + cc - 1 - l + 1) == a);
                }
            }
        }
        best_area = a;
        best = b;
    }
    if best_area == 0 {
        proof {
            assert forall|t: int, l: int, rr: int, cc: int| !#[trigger] is_arrow_rect(g, t, l, rr, cc) by {
                if is_arrow_rect(g, t, l, rr, cc) {
                    assert(rr * cc >= 1) by (nonlinear_arith)
                        requires
                            rr >= 1,
                            cc >= 1,
                    ;
                }
            }
        }
        return copy_grid(grid);
    }
    let (top, left, bottom, right) = best;
    let rows = bottom - top + 1;
    let cols = right - left + 1;
    proof {
        assert forall|rw: int| top <= rw < top + rows implies left + cols <= (#[trigger] grid@[rw])@.len() by {
            assert(g[rw].len() == grid@[rw]@.len());
        }
    }
    let cropped = copy_subgrid(grid, top, left, rows, cols);
    let out = if rows >= 6 && cols >= 6 {
        cropped
    } else {
        copy_grid(grid)
    };
    proof {
        assert(chosen_crop(g, top as int, left as int, rows as int, cols as int, out.deep_view()));
    }
    out
}


// ---------------------------------------------------------------------------
// Minification of a full intersection grid
// ---------------------------------------------------------------------------
/// Number of cells of `cells` that are not the single-space cell.
pub open spec fn non_space_count(cells: Seq<Seq<char>>) -> nat
    decreases cells.len(),
{
    if cells.len() == 0 {
        0
    } else {
        non_space_count(cells.drop_last()) + (if cells.last() == space() {
            0nat
        } else {
            1nat
        })
    }
}

/// Lowers the end row `re` (not below `floor`) while row `re`, columns `c0 ..= c1`, holds at
/// most one non-space cell.
pub open spec fn shave_rows(g: Seq<Seq<Seq<char>>>, floor: int, c0: int, c1: int, re: int) -> int
    decreases re - floor,
{
    if re > floor && non_space_count(g[re].subrange(c0, c1 + 1)) <= 1 {
        shave_rows(g, floor, c0, c1, re - 1)
    } else {
        re
    }
}

/// Lowers the end column `ce` (not below `floor`) while column `ce`, rows `r0 ..= r1`, holds
/// at most one non-space cell.
pub open spec fn shave_cols(g: Seq<Seq<Seq<char>>>, floor: int, r0: int, r1: int, ce: int) -> int
    decreases ce - floor,
{
    if ce > floor && non_space_count(column(g, ce).subrange(r0, r1 + 1)) <= 1 {
        shave_cols(g, floor, r0, r1, ce - 1)
    } else {
        ce
    }
}

/// The smaller of two integers.
pub open spec fn min_int(a: int, b: int) -> int {
    if a <= b {
        a
    } else {
        b
    }
}

/// End of the 3-block that holds `idx`.
pub open spec fn block_end(idx: int) -> int {
    idx + (2 - idx % 3)
}

/// Last row of the crop: the bottom arrow row extended to the end of its 3-block (within the
/// grid), then shaved of sparse rows.
pub open spec fn crop_row_end(g: Seq<Seq<Seq<char>>>, b: (usize, usize, usize, usize)) -> int {
    shave_rows(
        g,
        b.1 as int,
        b.2 as int,
        min_int(block_end(b.3 as int), g[0].len() - 1),
        min_int(block_end(b.1 as int), g.len() - 1),
    )
}

/// Last column of the crop: the right arrow column extended to the end of its 3-block (within
/// the grid), then shaved of sparse columns over the rows of the crop.
pub open spec fn crop_col_end(g: Seq<Seq<Seq<char>>>, b: (usize, usize, usize, usize)) -> int {
    shave_cols(g, b.3 as int, b.0 as int, crop_row_end(g, b), min_int(block_end(b.3 as int), g[0].len() - 1))
}

/// The crop of the grid to the bounds `b` and the ends above, padded to multiples of 3.
pub open spec fn phase_crop(g: Seq<Seq<Seq<char>>>, b: (usize, usize, usize, usize)) -> Seq<Seq<Seq<char>>> {
    padded_to_3(
        subgrid(g, b.0 as int, b.2 as int, crop_row_end(g, b) - b.0 + 1, crop_col_end(g, b) - b.2 + 1),
    )
}

/// 1 when the first character of `cell` is the arrow of rank `k`, else 0.
pub open spec fn rank_hit(cell: Seq<char>, k: int) -> int {
    match arrow_rank(first_char_or_space(cell)) {
        Some(x) => if x == k {
            1
        } else {
            0
        },
        None => 0,
    }
}

/// Number of the first `n` cells (in row-major order) of the 3x3 block `(by, bx)` of `p`
/// whose first character is the arrow of rank `k`.
pub open spec fn block_count(p: Seq<Seq<Seq<char>>>, by: int, bx: int, k: int, n: int) -> int
    decreases n,
{
    if n <= 0 {
        0
    } else {
        block_count(p, by, bx, k, n - 1) + rank_hit(p[3 * by + (n - 1) / 3][3 * bx + (n - 1) % 3], k)
    }
}

/// Rank of the largest of four counts, the last one on ties.
pub open spec fn last_max_rank(c0: int, c1: int, c2: int, c3: int) -> int {
    let m01 = if c0 >= c1 {
        c0
    } else {
        c1
    };
    let m23 = if c2 >= c3 {
        c2
    } else {
        c3
    };
    let m = if m01 >= m23 {
        m01
    } else {
        m23
    };
    if c3 == m {
        3
    } else if c2 == m {
        2
    } else if c1 == m {
        1
    } else {
        0
    }
}

/// The arrow of the 3x3 block `(by, bx)` of `p`: none when it holds no arrow, else the arrow
/// that occurs most often (the last in the order up, down, left, right on ties).
pub open spec fn block_value(p: Seq<Seq<Seq<char>>>, by: int, bx: int) -> Option<char> {
    let c0 = block_count(p, by, bx, 0, 9);
    let c1 = block_count(p, by, bx, 1, 9);
    let c2 = block_count(p, by, bx, 2, 9);
    let c3 = block_count(p, by, bx, 3, 9);
    if c0 + c1 + c2 + c3 == 0 {
        None
    } else {
        Some(rank_glyph(last_max_rank(c0, c1, c2, c3)))
    }
}

/// The grid of 3x3 blocks of `p` and their arrows.
pub open spec fn block_grid(p: Seq<Seq<Seq<char>>>) -> Seq<Seq<Option<char>>> {
    Seq::new((p.len() / 3) as nat, |by: int| Seq::new((p[0].len() / 3) as nat, |bx: int| block_value(p, by, bx)))
}

/// Row `r` of the block grid has an arrow.
pub open spec fn used_row(bg: Seq<Seq<Option<char>>>, r: int) -> bool {
    exists|c: int| 0 <= c < bg[r].len() && (#[trigger] bg[r][c]) is Some
}

/// Column `c` of the block grid has an arrow.
pub open spec fn used_col(bg: Seq<Seq<Option<char>>>, c: int) -> bool {
    exists|r: int| 0 <= r < bg.len() && (#[trigger] bg[r][c]) is Some
}

/// `bx` is `(first row, last row, first column, last column)` of the blocks with an arrow.
pub open spec fn block_box(bg: Seq<Seq<Option<char>>>, bx: (int, int, int, int)) -> bool {
    &&& 0 <= bx.0 <= bx.1 < bg.len()
    &&& 0 <= bx.2 <= bx.3 < bg[0].len()
    &&& used_row(bg, bx.0)
    &&& used_row(bg, bx.1)
    &&& used_col(bg, bx.2)
    &&& used_col(bg, bx.3)
    &&& forall|r: int| 0 <= r < bx.0 ==> !#[trigger] used_row(bg, r)
    &&& forall|r: int| bx.1 < r < bg.len() ==> !#[trigger] used_row(bg, r)
    &&& forall|c: int| 0 <= c < bx.2 ==> !#[trigger] used_col(bg, c)
    &&& forall|c: int| bx.3 < c < bg[0].len() ==> !#[trigger] used_col(bg, c)
}

/// A block as a cell: its arrow, or a space.
pub open spec fn block_text(v: Option<char>) -> Seq<char> {
    match v {
        Some(ch) => seq![ch],
        None => space(),
    }
}

/// The blocks inside `bx` as cells.
pub open spec fn box_cells(bg: Seq<Seq<Option<char>>>, bx: (int, int, int, int)) -> Seq<Seq<Seq<char>>> {
    Seq::new(
        (bx.1 - bx.0 + 1) as nat,
        |i: int| Seq::new((bx.3 - bx.2 + 1) as nat, |j: int| block_text(bg[bx.0 + i][bx.2 + j])),
    )
}

/// What minifying a full grid gives: nothing for a grid that is empty, not rectangular or
/// without arrows; otherwise the blocks of the phase crop, trimmed to those with arrows (nothing
/// if none has one), cropped to their largest rectangle of arrows.
pub open spec fn minify_result(g: Seq<Seq<Seq<char>>>, out: Seq<Seq<Seq<char>>>) -> bool {
    if !is_rectangular(g) || !grid_has_arrow(g) {
        out.len() == 0
    } else {
        exists|b: (usize, usize, usize, usize)|
            #[trigger] crop_bounds_ok(g, b) && {
                let bg = block_grid(phase_crop(g, b));
                if exists|r: int| 0 <= r < bg.len() && #[trigger] used_row(bg, r) {
                    exists|bx: (int, int, int, int)|
                        #[trigger] block_box(bg, bx) && largest_arrow_crop(box_cells(bg, bx), out)
                } else {
                    out.len() == 0
                }
            }
    }
}

/// `s` is the single-space cell.
fn is_space_cell(s: &String) -> (b: bool)
    ensures
        b == (s@ == space()),
{
    let t = s.as_str();
    if t.unicode_len() != 1 {
        return false;
    }
    let c = t.get_char(0);
    assert(t@ =~= seq![c]);
    c == ' '
}

/// Number of non-space cells in row `r`, columns `c0 ..= c1`.
fn row_non_space(grid: &[Vec<String>], r: usize, c0: usize, c1: usize) -> (n: usize)
    requires
        r < grid@.len(),
        c0 <= c1 < grid@[r as int]@.len(),
        c1 < usize::MAX,
    ensures
        n == non_space_count(grid.deep_view()[r as int].subrange(c0 as int, c1 + 1)),
        n <= c1 + 1 - c0,
{
    let ghost row = grid.deep_view()[r as int];
    let mut n: usize = 0;
    let mut c = c0;
    while c <= c1
        invariant
            row == grid.deep_view()[r as int],
            r < grid@.len(),
            c0 <= c <= c1 + 1,
            c1 < grid@[r as int]@.len(),
            c1 < usize::MAX,
            n == non_space_count(row.subrange(c0 as int, c as int)),
            n <= c - c0,
        decreases c1 + 1 - c,
    {
        assert(row.subrange(c0 as int, c + 1).drop_last() =~= row.subrange(c0 as int, c as int));
        assert(row[c as int] == grid@[r as int]@[c as int]@);
        if !is_space_cell(&grid[r][c]) {
            n += 1;
        }
        c += 1;
    }
    n
}

/// Number of non-space cells in column `c`, rows `r0 ..= r1`.
fn col_non_space(grid: &[Vec<String>], c: usize, r0: usize, r1: usize) -> (n: usize)
    requires
        r0 <= r1 < grid@.len(),
        r1 < usize::MAX,
        forall|i: int| 0 <= i < grid@.len() ==> c < (#[trigger] grid@[i])@.len(),
    ensures
        n == non_space_count(column(grid.deep_view(), c as int).subrange(r0 as int, r1 + 1)),
        n <= r1 + 1 - r0,
{
    let ghost col = column(grid.deep_view(), c as int);
    let mut n: usize = 0;
    let mut r = r0;
    while r <= r1
        invariant
            col == column(grid.deep_view(), c as int),
            r0 <= r <= r1 + 1,
            r1 < grid@.len(),
            r1 < usize::MAX,
            forall|i: int| 0 <= i < grid@.len() ==> c < (#[trigger] grid@[i])@.len(),
            n == non_space_count(col.subrange(r0 as int, r as int)),
            n <= r - r0,
        decreases r1 + 1 - r,
    {
        assert(col.subrange(r0 as int, r + 1).drop_last() =~= col.subrange(r0 as int, r as int));
        assert(col[r as int] == grid@[r as int]@[c as int]@);
        if !is_space_cell(&grid[r][c]) {
            n += 1;
        }
        r += 1;
    }
    n
}


/// The glyph of an arrow rank.
pub(crate) fn glyph_of_rank(k: usize) -> (c: char)
    ensures
        c == rank_glyph(k as int),
{
    if k == 0 {
        '↑'
    } else if k == 1 {
        '↓'
    } else if k == 2 {
        '←'
    } else {
        '→'
    }
}

/// The arrow of the 3x3 block `(by, bx)` of `p`.
fn block_arrow(p: &Vec<Vec<String>>, by: usize, bx: usize) -> (v: Option<char>)
    requires
        3 * by + 2 < p@.len(),
        forall|i: int| 0 <= i < p@.len() ==> 3 * bx + 2 < (#[trigger] p@[i])@.len(),
    ensures
        v == block_value(p.deep_view(), by as int, bx as int),
{
    let ghost pv = p.deep_view();
    let n = p.len();
    let m = p[0].len();
    assert(3 * bx + 2 < p@[0]@.len());
    let mut counts = [0usize; 4];
    let mut i: usize = 0;
    while i < 9
        invariant
            pv == p.deep_view(),
            n == p@.len(),
            3 * bx + 2 < m,
            3 * by + 2 < p@.len(),
            forall|i: int| 0 <= i < p@.len() ==> 3 * bx + 2 < (#[trigger] p@[i])@.len(),
            i <= 9,
            forall|k: int| 0 <= k < 4 ==> counts[k] == block_count(pv, by as int, bx as int, k, i as int),
            forall|k: int| 0 <= k < 4 ==> counts[k] <= i,
        decreases 9 - i,
    {
        let dy = i / 3;
        let dx = i % 3;
        let row = 3 * by + dy;
        let col = 3 * bx + dx;
        assert(row < p@.len());
        assert(col < p@[row as int]@.len());
        assert(pv[row as int][col as int] == p@[row as int]@[col as int]@);
        let first = cell_first_char(&p[row][col]);
        let ch = match first {
            Some(c) => c,
            None => ' ',
        };
        assert(ch == first_char_or_space(pv[row as int][col as int]));
        let ghost before = counts;
        match arrow_index(ch) {
            Some(k) => {
                counts[k] = counts[k] + 1;
            },
            None => {},
        }
        assert forall|k: int| 0 <= k < 4 implies counts[k] == block_count(
            pv,
            by as int,
            bx as int,
            k,
            (i + 1) as int,
        ) by {
            assert(block_count(pv, by as int, bx as int, k, (i + 1) as int) == block_count(
                pv,
                by as int,
                bx as int,
                k,
                i as int,
            ) + rank_hit(pv[row as int][col as int], k));
        }
        i += 1;
    }
    let total = counts[0] + counts[1] + counts[2] + counts[3];
    if total == 0 {
        None
    } else {
        let mut best: usize = 0;
        if counts[1] >= counts[best] {
            best = 1;
        }
        if counts[2] >= counts[best] {
            best = 2;
        }
        if counts[3] >= counts[best] {
            best = 3;
        }
        Some(glyph_of_rank(best))
    }
}

/// The grid of the arrows of the 3x3 blocks of `p`.
fn blocks_of(p: &Vec<Vec<String>>) -> (bg: Vec<Vec<Option<char>>>)
    requires
        p@.len() > 0,
        is_rectangular(p.deep_view()),
    ensures
        bg.deep_view() == block_grid(p.deep_view()),
{
    let ghost pv = p.deep_view();
    let h3 = p.len() / 3;
    let w3 = p[0].len() / 3;
    assert(pv[0].len() == p@[0]@.len());
    assert forall|i: int| 0 <= i < p@.len() implies 3 * w3 <= (#[trigger] p@[i])@.len() by {
        assert(pv[i].len() == p@[i]@.len());
    }
    let ghost target = block_grid(pv);
    let mut bg: Vec<Vec<Option<char>>> = Vec::new();
    for by in 0..h3
        invariant
            pv == p.deep_view(),
            target == block_grid(pv),
            h3 == p@.len() / 3,
            w3 == pv[0].len() / 3,
            forall|i: int| 0 <= i < p@.len() ==> 3 * w3 <= (#[trigger] p@[i])@.len(),
            bg@.len() == by,
            forall|r: int| 0 <= r < by ==> (#[trigger] bg@[r]).deep_view() == target[r],
    {
        let mut row: Vec<Option<char>> = Vec::new();
        for bx in 0..w3
            invariant
                pv == p.deep_view(),
                target == block_grid(pv),
                h3 == p@.len() / 3,
                w3 == pv[0].len() / 3,
                by < h3,
                forall|i: int| 0 <= i < p@.len() ==> 3 * w3 <= (#[trigger] p@[i])@.len(),
                row@.len() == bx,
                forall|c: int| 0 <= c < bx ==> (#[trigger] row@[c]) == target[by as int][c],
        {
            let v = block_arrow(p, by, bx);
            row.push(v);
        }
        assert(row.deep_view() =~= target[by as int]);
        bg.push(row);
    }
    assert(bg.deep_view() =~= target);
    bg
}


/// Row `r` of the blocks has an arrow.
fn block_row_used(bg: &Vec<Vec<Option<char>>>, r: usize) -> (b: bool)
    requires
        r < bg@.len(),
    ensures
        b == used_row(bg.deep_view(), r as int),
{
    let ghost v = bg.deep_view();
    let n = bg[r].len();
    assert(v[r as int].len() == n);
    for c in 0..n
        invariant
            v == bg.deep_view(),
            r < bg@.len(),
            n == v[r as int].len(),
            forall|cc: int| 0 <= cc < c ==> !((#[trigger] v[r as int][cc]) is Some),
    {
        assert(v[r as int][c as int] == bg@[r as int]@[c as int]);
        if bg[r][c].is_some() {
            return true;
        }
    }
    false
}

/// Column `c` of the blocks has an arrow.
fn block_col_used(bg: &Vec<Vec<Option<char>>>, c: usize) -> (b: bool)
    requires
        forall|i: int| 0 <= i < bg@.len() ==> c < (#[trigger] bg@[i])@.len(),
    ensures
        b == used_col(bg.deep_view(), c as int),
{
    let ghost v = bg.deep_view();
    for r in 0..bg.len()
        invariant
            v == bg.deep_view(),
            forall|i: int| 0 <= i < bg@.len() ==> c < (#[trigger] bg@[i])@.len(),
            forall|rr: int| 0 <= rr < r ==> !((#[trigger] v[rr][c as int]) is Some),
    {
        assert(v[r as int][c as int] == bg@[r as int]@[c as int]);
        if bg[r][c].is_some() {
            return true;
        }
    }
    false
}

/// First and last rows and columns of the blocks that have an arrow; `None` when no block has
/// one.
fn block_bounds(bg: &Vec<Vec<Option<char>>>) -> (res: Option<(usize, usize, usize, usize)>)
    requires
        bg@.len() > 0,
        forall|i: int| 0 <= i < bg@.len() ==> (#[trigger] bg@[i])@.len() == bg@[0]@.len(),
    ensures
        res matches Some(b) ==> block_box(bg.deep_view(), (b.0 as int, b.1 as int, b.2 as int, b.3 as int)),
        res is None ==> !exists|r: int| 0 <= r < bg.deep_view().len() && #[trigger] used_row(bg.deep_view(), r),
{
    let ghost v = bg.deep_view();
    let h = bg.len();
    let w = bg[0].len();
    assert(v[0].len() == w);
    let mut top: usize = 0;
    let mut found = false;
    while top < h && !found
        invariant
            v == bg.deep_view(),
            h == v.len(),
            top <= h,
            found ==> top < h && used_row(v, top as int),
            forall|r: int| 0 <= r < top ==> !#[trigger] used_row(v, r),
        decreases h - top + (if found { 0int } else { 1int }),
    {
        if block_row_used(bg, top) {
            found = true;
        } else {
            top += 1;
        }
    }
    if !found {
        return None;
    }
    let mut bottom: usize = h - 1;
    let mut found = false;
    while bottom > top && !found
        invariant
            v == bg.deep_view(),
            h == v.len(),
            top <= bottom < h,
            used_row(v, top as int),
            found ==> used_row(v, bottom as int),
            forall|r: int| bottom < r < h ==> !#[trigger] used_row(v, r),
        decreases bottom + (if found { 0int } else { 1int }),
    {
        if block_row_used(bg, bottom) {
            found = true;
        } else {
            bottom -= 1;
        }
    }
    assert(used_row(v, bottom as int));
    let ghost some_col = choose|c: int| 0 <= c < v[top as int].len() && (#[trigger] v[top as int][c]) is Some;
    assert(v[top as int].len() == w) by {
        assert(v[top as int].len() == bg@[top as int]@.len());
    }
    assert(used_col(v, some_col));
    assert forall|i: int| 0 <= i < bg@.len() implies (#[trigger] bg@[i])@.len() == w by {}
    let mut left: usize = 0;
    let mut found = false;
    while left < w && !found
        invariant
            v == bg.deep_view(),
            h == v.len(),
            w == v[0].len(),
            forall|i: int| 0 <= i < bg@.len() ==> (#[trigger] bg@[i])@.len() == w,
            0 <= some_col < w,
            used_col(v, some_col),
            left <= some_col,
            found ==> used_col(v, left as int),
            forall|c: int| 0 <= c < left ==> !#[trigger] used_col(v, c),
        decreases w - left + (if found { 0int } else { 1int }),
    {
        if block_col_used(bg, left) {
            found = true;
        } else {
            left += 1;
        }
    }
    assert(used_col(v, left as int));
    let mut right: usize = w - 1;
    let mut found = false;
    while right > left && !found
        invariant
            v == bg.deep_view(),
            h == v.len(),
            w == v[0].len(),
            forall|i: int| 0 <= i < bg@.len() ==> (#[trigger] bg@[i])@.len() == w,
            left <= right < w,
            used_col(v, left as int),
            found ==> used_col(v, right as int),
            forall|c: int| right < c < w ==> !#[trigger] used_col(v, c),
        decreases right + (if found { 0int } else { 1int }),
    {
        if block_col_used(bg, right) {
            found = true;
        } else {
            right -= 1;
        }
    }
    assert(used_col(v, right as int));
    Some((top, bottom, left, right))
}

/// The blocks inside `b` as cells.
fn cells_of_box(bg: &Vec<Vec<Option<char>>>, b: (usize, usize, usize, usize)) -> (out: Vec<Vec<String>>)
    requires
        b.0 <= b.1 < bg@.len(),
        b.2 <= b.3,
        forall|i: int| 0 <= i < bg@.len() ==> b.3 < (#[trigger] bg@[i])@.len(),
    ensures
        out.deep_view() == box_cells(bg.deep_view(), (b.0 as int, b.1 as int, b.2 as int, b.3 as int)),
{
    let ghost v = bg.deep_view();
    let ghost target = box_cells(v, (b.0 as int, b.1 as int, b.2 as int, b.3 as int));
    let n = bg.len();
    let m = bg[b.0].len();
    assert(b.3 < m);
    let rows = b.1 - b.0 + 1;
    let cols = b.3 - b.2 + 1;
    let mut out: Vec<Vec<String>> = Vec::new();
    for i in 0..rows
        invariant
            v == bg.deep_view(),
            target == box_cells(v, (b.0 as int, b.1 as int, b.2 as int, b.3 as int)),
            rows == b.1 - b.0 + 1,
            cols == b.3 - b.2 + 1,
            b.0 <= b.1 < bg@.len(),
            b.2 <= b.3,
            forall|i: int| 0 <= i < bg@.len() ==> b.3 < (#[trigger] bg@[i])@.len(),
            out@.len() == i,
            forall|k: int| 0 <= k < i ==> (#[trigger] out@[k]).deep_view() == target[k],
    {
        let mut row: Vec<String> = Vec::new();
        for j in 0..cols
            invariant
                v == bg.deep_view(),
                target == box_cells(v, (b.0 as int, b.1 as int, b.2 as int, b.3 as int)),
                rows == b.1 - b.0 + 1,
                cols == b.3 - b.2 + 1,
                i < rows,
                b.0 <= b.1 < bg@.len(),
                b.2 <= b.3,
                forall|i: int| 0 <= i < bg@.len() ==> b.3 < (#[trigger] bg@[i])@.len(),
                row@.len() == j,
                forall|k: int| 0 <= k < j ==> (#[trigger] row@[k])@ == target[i as int][k],
        {
            let r = b.0 + i;
            let c = b.2 + j;
            assert(v[r as int][c as int] == bg@[r as int]@[c as int]);
            let cell = match bg[r][c] {
                Some(ch) => char_to_string(ch),
                None => space_cell(),
            };
            row.push(cell);
        }
        assert(row.deep_view() =~= target[i as int]);
        out.push(row);
    }
    assert(out.deep_view() =~= target);
    out
}


/// Minifies a full grid of intersection cells to the grid of its 3x3 blocks.
///
/// The grid is cropped to its arrows, with the top row and left column moved back to the start
/// of their 3-phase and the bottom row and right column extended to the end of theirs (sparse
/// extensions are shaved off again), padded with spaces to multiples of 3, and each 3x3 block
/// becomes the arrow that occurs most often in it (by first character of its cells), or a space
/// when it holds none. Rows and columns of blocks without arrows are trimmed from the border,
/// and the result is cropped to its largest rectangle of arrows when that is at least 6x6.
#[verifier::spinoff_prover]
#[verifier::rlimit(40)]
pub fn minify_from_full_grid(grid: &[Vec<String>]) -> (out: Vec<Vec<String>>)
    requires
        grid@.len() > 0 ==> grid@.len() * grid@[0]@.len() < usize::MAX,
    ensures
        minify_result(grid.deep_view(), out.deep_view()),
{
    let ghost g = grid.deep_view();
    if grid.len() == 0 || grid[0].len() == 0 {
        return Vec::new();
    }
    let height = grid.len();
    let width = grid[0].len();
    assert(g.len() == height && g[0].len() == width);
    if !is_rectangular_grid(grid) {
        return Vec::new();
    }
    proof {
        assert(height <= height * width && width <= height * width) by (nonlinear_arith)
            requires
                height >= 1,
                width >= 1,
        ;
    }
    let b = match crop_bounds_any_anchor(grid) {
        Some(v) => v,
        None => {
            return Vec::new();
        },
    };
    let (top, bottom, left, right) = b;
    let ghost (top_any, left_any) = choose|ta: int, la: int| #[trigger] crop_bounds_from(g, ta, la, b);
    assert(crop_bounds_from(g, top_any, left_any, b));
    assert(grid_has_arrow(g));
    assert(top <= bottom < height && left <= right < width);
    assert forall|i: int| 0 <= i < grid@.len() implies (#[trigger] grid@[i])@.len() == width by {
        assert(g[i].len() == grid@[i]@.len());
    }
    let row_start = top;
    let col_start = left;
    let hb = boundary_high(bottom);
    let row_end0 = if hb < height - 1 {
        hb
    } else {
        height - 1
    };
    let wb = boundary_high(right);
    let col_end0 = if wb < width - 1 {
        wb
    } else {
        width - 1
    };
    let mut row_end = row_end0;
    let col_end_rows = col_end0;
    while row_end > bottom && row_non_space(grid, row_end, col_start, col_end_rows) <= 1
        invariant
            g == grid.deep_view(),
            height == g.len(),
            width == g[0].len(),
            forall|i: int| 0 <= i < grid@.len() ==> (#[trigger] grid@[i])@.len() == width,
            height * width < usize::MAX,
            width <= height * width,
            col_start <= col_end_rows < width,
            bottom <= row_end <= row_end0 < height,
            shave_rows(g, bottom as int, col_start as int, col_end_rows as int, row_end as int) == shave_rows(
                g,
                bottom as int,
                col_start as int,
                col_end_rows as int,
                row_end0 as int,
            ),
        decreases row_end,
    {
        row_end -= 1;
    }
    assert(row_end == crop_row_end(g, b));
    let mut col_end = col_end0;
    while col_end > right && col_non_space(grid, col_end, row_start, row_end) <= 1
        invariant
            g == grid.deep_view(),
            height == g.len(),
            width == g[0].len(),
            forall|i: int| 0 <= i < grid@.len() ==> (#[trigger] grid@[i])@.len() == width,
            height * width < usize::MAX,
            height <= height * width,
            row_start <= row_end < height,
            right <= col_end <= col_end0 < width,
            shave_cols(g, right as int, row_start as int, row_end as int, col_end as int) == shave_cols(
                g,
                right as int,
                row_start as int,
                row_end as int,
                col_end0 as int,
            ),
        decreases col_end,
    {
        col_end -= 1;
    }
    assert(col_end == crop_col_end(g, b));
    let rows = row_end - row_start + 1;
    let cols = col_end - col_start + 1;
    let cropped = copy_subgrid(grid, row_start, col_start, rows, cols);
    let ghost cv = cropped.deep_view();
    assert forall|r: int| 0 <= r < cv.len() implies (#[trigger] cv[r]).len() == cols by {
        assert(g[row_start + r].len() == width);
    }
    let p = pad_to_multiple_of_3(cropped);
    let ghost pv = p.deep_view();
    assert(pv == phase_crop(g, b));
    assert(pv.len() == round_up_3(rows as int) && pv[0].len() == round_up_3(cols as int));
    assert(is_rectangular(pv));
    assert(p@.len() == pv.len());
    let bg = blocks_of(&p);
    let ghost bv = bg.deep_view();
    assert(bv == block_grid(pv));
    assert(bg@.len() == bv.len());
    assert forall|i: int| 0 <= i < bg@.len() implies (#[trigger] bg@[i])@.len() == bg@[0]@.len() by {
        assert(bv[i].len() == bg@[i]@.len());
        assert(bv[0].len() == bg@[0]@.len());
    }
    match block_bounds(&bg) {
        None => {
            assert(crop_bounds_ok(g, b));
            Vec::new()
        },
        Some(bx) => {
            assert(bv[0].len() == bg@[0]@.len());
            let minified = cells_of_box(&bg, bx);
            let ghost mv = minified.deep_view();
            proof {
                assert(bv.len() <= rows && bv[0].len() <= cols);
                let mr = bx.1 - bx.0 + 1;
                let mc = bx.3 - bx.2 + 1;
                assert(mv.len() == mr && mv[0].len() == mc);
                assert(minified@.len() == mr && minified@[0]@.len() == mc);
                assert(mr * mc <= height * width) by (nonlinear_arith)
                    requires
                        1 <= mr <= height,
                        1 <= mc <= width,
                ;
            }
            let out = crop_to_largest_arrow_rectangle(&minified);
            proof {
                let bxi = (bx.0 as int, bx.1 as int, bx.2 as int, bx.3 as int);
                assert(block_box(bv, bxi));
                assert(crop_bounds_ok(g, b));
            }
            out
        },
    }
}

// ---------------------------------------------------------------------------
// Minifying a grid of uniform 3x3 blocks
// ---------------------------------------------------------------------------
/// Every cell of a rectangular grid is a single arrow glyph.
pub open spec fn all_arrow_cells(m: Seq<Seq<Seq<char>>>) -> bool {
    &&& is_rectangular(m)
    &&& forall|r: int, c: int| 0 <= r < m.len() && 0 <= c < m[0].len() ==> #[trigger] arrow_cell(m[r][c])
}

/// The grid with each cell of `m` repeated as a 3x3 block.
pub open spec fn expand3(m: Seq<Seq<Seq<char>>>) -> Seq<Seq<Seq<char>>> {
    Seq::new((3 * m.len()) as nat, |r: int| Seq::new((3 * m[0].len()) as nat, |c: int| m[r / 3][c / 3]))
}

/// The row and column of cell `i` of a 3x3 block, and the block of a cell.
proof fn lemma_block_index(b: int, t: int)
    requires
        b >= 0,
        0 <= t < 3,
    ensures
        (3 * b + t) / 3 == b,
        (3 * b + t) % 3 == t,
{
    lemma_fundamental_div_mod_converse(3 * b + t, 3, b, t);
}

/// In the expanded grid, the cells of block `(by, bx)` are the cell `(by, bx)` of `m`.
proof fn lemma_expand3_cell(m: Seq<Seq<Seq<char>>>, by: int, bx: int, i: int, j: int)
    requires
        is_rectangular(m),
        0 <= by < m.len(),
        0 <= bx < m[0].len(),
        0 <= i < 3,
        0 <= j < 3,
    ensures
        expand3(m)[3 * by + i][3 * bx + j] == m[by][bx],
        expand3(m)[3 * by + i].len() == 3 * m[0].len(),
{
    lemma_block_index(by, i);
    lemma_block_index(bx, j);
}

/// The counts of a uniform block: all nine cells hit the rank of its arrow.
proof fn lemma_uniform_block_count(m: Seq<Seq<Seq<char>>>, by: int, bx: int, k: int, n: int)
    requires
        is_rectangular(m),
        0 <= by < m.len(),
        0 <= bx < m[0].len(),
        0 <= n <= 9,
    ensures
        block_count(expand3(m), by, bx, k, n) == n * rank_hit(m[by][bx], k),
    decreases n,
{
    if n > 0 {
        lemma_uniform_block_count(m, by, bx, k, n - 1);
        let t = n - 1;
        assert(0 <= t / 3 < 3 && 0 <= t % 3 < 3 && t / 3 == t / 3) by {
            lemma_fundamental_div_mod(t, 3);
        }
        lemma_expand3_cell(m, by, bx, t / 3, t % 3);
        assert((n - 1) * rank_hit(m[by][bx], k) + rank_hit(m[by][bx], k) == n * rank_hit(m[by][bx], k))
            by (nonlinear_arith);
    }
}

/// A block of nine equal arrow cells has that arrow.
proof fn lemma_uniform_block_value(m: Seq<Seq<Seq<char>>>, by: int, bx: int)
    requires
        all_arrow_cells(m),
        0 <= by < m.len(),
        0 <= bx < m[0].len(),
    ensures
        block_value(expand3(m), by, bx) == Some(m[by][bx][0]),
{
    let cell = m[by][bx];
    assert(arrow_cell(cell));
    lemma_uniform_block_count(m, by, bx, 0, 9);
    lemma_uniform_block_count(m, by, bx, 1, 9);
    lemma_uniform_block_count(m, by, bx, 2, 9);
    lemma_uniform_block_count(m, by, bx, 3, 9);
    assert(first_char_or_space(cell) == cell[0]);
}

/// The expanded grid is a rectangle of arrow cells three times as high and wide.
proof fn lemma_expand3_shape(m: Seq<Seq<Seq<char>>>)
    requires
        all_arrow_cells(m),
    ensures
        expand3(m).len() == 3 * m.len(),
        expand3(m)[0].len() == 3 * m[0].len(),
        is_rectangular(expand3(m)),
        forall|r: int, c: int|
            0 <= r < 3 * m.len() && 0 <= c < 3 * m[0].len() ==> #[trigger] arrow_cell(expand3(m)[r][c]),
        forall|r: int| 0 <= r < 3 * m.len() ==> #[trigger] row_has_arrow(expand3(m), r),
        forall|c: int| 0 <= c < 3 * m[0].len() ==> #[trigger] col_has_arrow(expand3(m), c),
{
    let e = expand3(m);
    assert forall|r: int, c: int| 0 <= r < 3 * m.len() && 0 <= c < 3 * m[0].len() implies #[trigger] arrow_cell(e[r][c]) by {
        lemma_fundamental_div_mod(r, 3);
        lemma_fundamental_div_mod(c, 3);
        assert(0 <= r / 3 < m.len()) by (nonlinear_arith)
            requires
                r == 3 * (r / 3) + r % 3,
                0 <= r % 3 < 3,
                0 <= r < 3 * m.len(),
        ;
        assert(0 <= c / 3 < m[0].len()) by (nonlinear_arith)
            requires
                c == 3 * (c / 3) + c % 3,
                0 <= c % 3 < 3,
                0 <= c < 3 * m[0].len(),
        ;
        assert(arrow_cell(m[r / 3][c / 3]));
    }
    assert forall|r: int| 0 <= r < 3 * m.len() implies #[trigger] row_has_arrow(e, r) by {
        assert(arrow_cell(e[r][0]));
    }
    assert forall|c: int| 0 <= c < 3 * m[0].len() implies #[trigger] col_has_arrow(e, c) by {
        assert(arrow_cell(e[0][c]));
    }
}

/// The crop bounds of the expanded grid are the whole grid.
proof fn lemma_expand3_bounds(m: Seq<Seq<Seq<char>>>, b: (usize, usize, usize, usize))
    requires
        all_arrow_cells(m),
        crop_bounds_ok(expand3(m), b),
    ensures
        b.0 == 0,
        b.1 == 3 * m.len() - 1,
        b.2 == 0,
        b.3 == 3 * m[0].len() - 1,
        crop_row_end(expand3(m), b) == 3 * m.len() - 1,
        crop_col_end(expand3(m), b) == 3 * m[0].len() - 1,
{
    let e = expand3(m);
    let hh: int = 3 * m.len() as int;
    let ww: int = 3 * m[0].len() as int;
    lemma_expand3_shape(m);
    let (ta, la) = choose|ta: int, la: int| #[trigger] crop_bounds_from(e, ta, la, b);
    assert(row_has_arrow(e, 0));
    assert(col_has_arrow(e, 0));
    assert(row_has_arrow(e, hh - 1));
    assert(col_has_arrow(e, ww - 1));
    assert(ta == 0);
    assert(la == 0);
    assert(b.1 == hh - 1);
    assert(b.3 == ww - 1);
    lemma_block_index(m.len() - 1, 2);
    lemma_block_index(m[0].len() - 1, 2);
    assert(block_end(hh - 1) == hh - 1);
    assert(block_end(ww - 1) == ww - 1);
}

/// The phase crop of the expanded grid is the whole grid.
proof fn lemma_expand3_phase_crop(m: Seq<Seq<Seq<char>>>, b: (usize, usize, usize, usize))
    requires
        all_arrow_cells(m),
        crop_bounds_ok(expand3(m), b),
    ensures
        phase_crop(expand3(m), b) == expand3(m),
{
    let e = expand3(m);
    let hh: int = 3 * m.len() as int;
    let ww: int = 3 * m[0].len() as int;
    lemma_expand3_shape(m);
    lemma_expand3_bounds(m, b);
    let sub = subgrid(e, 0, 0, hh, ww);
    assert forall|r: int| 0 <= r < hh implies (#[trigger] sub[r]) =~= e[r] by {
        assert(e[r].len() == ww);
    }
    lemma_block_index(m.len() as int, 0);
    lemma_block_index(m[0].len() as int, 0);
    assert(round_up_3(hh) == hh);
    assert(round_up_3(ww) == ww);
    let pc = phase_crop(e, b);
    assert(sub.len() == hh && sub[0].len() == ww);
    assert(forall|r: int| 0 <= r < sub.len() ==> (#[trigger] sub[r]).len() == sub[0].len());
    assert(pc.len() == hh);
    assert forall|r: int| 0 <= r < hh implies (#[trigger] pc[r]) =~= e[r] by {
        assert(pc[r].len() == ww);
        assert forall|c: int| 0 <= c < ww implies pc[r][c] == e[r][c] by {
            assert(sub[r][c] == e[r][c]);
        }
    }
    assert(pc =~= e);
}

/// The blocks of the expanded grid are the cells of `m`.
proof fn lemma_expand3_blocks(m: Seq<Seq<Seq<char>>>)
    requires
        all_arrow_cells(m),
    ensures
        block_grid(expand3(m)).len() == m.len(),
        forall|by: int| 0 <= by < m.len() ==> (#[trigger] block_grid(expand3(m))[by]).len() == m[0].len(),
        forall|by: int, bx: int|
            0 <= by < m.len() && 0 <= bx < m[0].len() ==> #[trigger] block_grid(expand3(m))[by][bx] == Some(
                m[by][bx][0],
            ),
        forall|r: int| 0 <= r < m.len() ==> #[trigger] used_row(block_grid(expand3(m)), r),
        forall|c: int| 0 <= c < m[0].len() ==> #[trigger] used_col(block_grid(expand3(m)), c),
{
    let e = expand3(m);
    lemma_expand3_shape(m);
    lemma_block_index(m.len() as int, 0);
    lemma_block_index(m[0].len() as int, 0);
    let bg = block_grid(e);
    assert forall|by: int, bx: int| 0 <= by < m.len() && 0 <= bx < m[0].len() implies #[trigger] bg[by][bx] == Some(
        m[by][bx][0],
    ) by {
        lemma_uniform_block_value(m, by, bx);
    }
    assert forall|r: int| 0 <= r < m.len() implies #[trigger] used_row(bg, r) by {
        assert(bg[r][0] is Some);
    }
    assert forall|c: int| 0 <= c < m[0].len() implies #[trigger] used_col(bg, c) by {
        assert(bg[0][c] is Some);
    }
}

/// The box of blocks with arrows is all of them, and its cells are `m`.
proof fn lemma_expand3_box(m: Seq<Seq<Seq<char>>>, bx: (int, int, int, int))
    requires
        all_arrow_cells(m),
        block_box(block_grid(expand3(m)), bx),
    ensures
        box_cells(block_grid(expand3(m)), bx) == m,
{
    let bg = block_grid(expand3(m));
    let mm = m.len() as int;
    let nn = m[0].len() as int;
    lemma_expand3_blocks(m);
    assert(used_row(bg, 0));
    assert(used_row(bg, mm - 1));
    assert(used_col(bg, nn - 1));
    assert(used_col(bg, 0));
    assert(bx == (0int, mm - 1, 0int, nn - 1));
    let cells = box_cells(bg, bx);
    assert forall|i: int| 0 <= i < mm implies (#[trigger] cells[i]) =~= m[i] by {
        assert(m[i].len() == nn);
        assert forall|j: int| 0 <= j < nn implies cells[i][j] == m[i][j] by {
            assert(arrow_cell(m[i][j]));
            assert(bg[i][j] == Some(m[i][j][0]));
            assert(m[i][j] =~= seq![m[i][j][0]]);
        }
    }
    assert(cells =~= m);
}

/// The largest arrow rectangle of a grid of arrow cells is the whole grid.
proof fn lemma_largest_crop_whole(m: Seq<Seq<Seq<char>>>, out: Seq<Seq<Seq<char>>>)
    requires
        all_arrow_cells(m),
        largest_arrow_crop(m, out),
    ensures
        out == m,
{
    let mm = m.len() as int;
    let nn = m[0].len() as int;
    assert(is_arrow_rect(m, 0, 0, mm, nn));
    let (t, l, rr, cc) = choose|t: int, l: int, rr: int, cc: int| #[trigger] chosen_crop(m, t, l, rr, cc, out);
    assert(mm * nn <= rr * cc);
    assert(rr == mm && cc == nn) by (nonlinear_arith)
        requires
            mm * nn <= rr * cc,
            1 <= rr <= mm,
            1 <= cc <= nn,
    ;
    assert(subgrid(m, 0, 0, mm, nn) =~= m) by {
        assert forall|r: int| 0 <= r < mm implies (#[trigger] subgrid(m, 0, 0, mm, nn)[r]) =~= m[r] by {
            assert(m[r].len() == nn);
        }
    }
}

/// Minifying a grid in which each arrow cell of `m` is repeated as a uniform 3x3 block gives `m`
/// back.
pub proof fn lemma_minify_uniform_blocks(m: Seq<Seq<Seq<char>>>, out: Seq<Seq<Seq<char>>>)
    requires
        all_arrow_cells(m),
        minify_result(expand3(m), out),
    ensures
        out == m,
{
    let e = expand3(m);
    lemma_expand3_shape(m);
    assert(grid_has_arrow(e)) by {
        assert(row_has_arrow(e, 0));
    }
    let b = choose|b: (usize, usize, usize, usize)|
        #[trigger] crop_bounds_ok(e, b) && {
            let bg = block_grid(phase_crop(e, b));
            if exists|r: int| 0 <= r < bg.len() && #[trigger] used_row(bg, r) {
                exists|bx: (int, int, int, int)|
                    #[trigger] block_box(bg, bx) && largest_arrow_crop(box_cells(bg, bx), out)
            } else {
                out.len() == 0
            }
        };
    lemma_expand3_phase_crop(m, b);
    lemma_expand3_blocks(m);
    let bg = block_grid(e);
    assert(used_row(bg, 0));
    let bx = choose|bx: (int, int, int, int)| #[trigger] block_box(bg, bx) && largest_arrow_crop(box_cells(bg, bx), out);
    lemma_expand3_box(m, bx);
    lemma_largest_crop_whole(m, out);
}

// ---------------------------------------------------------------------------
// What the arrow of a 3x3 block is
// ---------------------------------------------------------------------------
/// Rank of the arrow that cell `(a, b)` of the 3x3 block `(by, bx)` of `p` starts with, if any.
pub open spec fn block_cell_rank(p: Seq<Seq<Seq<char>>>, by: int, bx: int, a: int, b: int) -> Option<usize> {
    arrow_rank(first_char_or_space(p[3 * by + a][3 * bx + b]))
}

/// 1 when cell `(a, b)` of the 3x3 block `(by, bx)` of `p` starts with the arrow of rank `k`.
pub open spec fn cell_has_rank(p: Seq<Seq<Seq<char>>>, by: int, bx: int, a: int, b: int, k: int) -> int {
    if block_cell_rank(p, by, bx, a, b) == Some(k as usize) {
        1
    } else {
        0
    }
}

/// Number of the nine cells of the 3x3 block `(by, bx)` of `p` that start with the arrow of
/// rank `k`.
#[verifier::opaque]
pub open spec fn cells_with_rank(p: Seq<Seq<Seq<char>>>, by: int, bx: int, k: int) -> int {
    cell_has_rank(p, by, bx, 0, 0, k) + cell_has_rank(p, by, bx, 0, 1, k) + cell_has_rank(p, by, bx, 0, 2, k)
        + cell_has_rank(p, by, bx, 1, 0, k) + cell_has_rank(p, by, bx, 1, 1, k) + cell_has_rank(p, by, bx, 1, 2, k)
        + cell_has_rank(p, by, bx, 2, 0, k) + cell_has_rank(p, by, bx, 2, 1, k) + cell_has_rank(p, by, bx, 2, 2, k)
}

/// Some cell of the 3x3 block `(by, bx)` of `p` starts with an arrow.
pub open spec fn block_holds_arrow(p: Seq<Seq<Seq<char>>>, by: int, bx: int) -> bool {
    exists|a: int, b: int| 0 <= a < 3 && 0 <= b < 3 && #[trigger] block_cell_rank(p, by, bx, a, b) is Some
}

/// The block counts are the counts of the nine cells.
proof fn lemma_block_count_cells(p: Seq<Seq<Seq<char>>>, by: int, bx: int, k: int)
    requires
        0 <= k < 4,
    ensures
        block_count(p, by, bx, k, 9) == cells_with_rank(p, by, bx, k),
{
    reveal(cells_with_rank);
    assert forall|a: int, b: int| 0 <= a < 3 && 0 <= b < 3 implies rank_hit(p[3 * by + a][3 * bx + b], k)
        == #[trigger] cell_has_rank(p, by, bx, a, b, k) by {}
    assert(block_count(p, by, bx, k, 0) == 0);
    assert(block_count(p, by, bx, k, 1) == cell_has_rank(p, by, bx, 0, 0, k));
    assert(block_count(p, by, bx, k, 2) == block_count(p, by, bx, k, 1) + cell_has_rank(p, by, bx, 0, 1, k));
    assert(block_count(p, by, bx, k, 3) == block_count(p, by, bx, k, 2) + cell_has_rank(p, by, bx, 0, 2, k));
    assert(block_count(p, by, bx, k, 4) == block_count(p, by, bx, k, 3) + cell_has_rank(p, by, bx, 1, 0, k));
    assert(block_count(p, by, bx, k, 5) == block_count(p, by, bx, k, 4) + cell_has_rank(p, by, bx, 1, 1, k));
    assert(block_count(p, by, bx, k, 6) == block_count(p, by, bx, k, 5) + cell_has_rank(p, by, bx, 1, 2, k));
    assert(block_count(p, by, bx, k, 7) == block_count(p, by, bx, k, 6) + cell_has_rank(p, by, bx, 2, 0, k));
    assert(block_count(p, by, bx, k, 8) == block_count(p, by, bx, k, 7) + cell_has_rank(p, by, bx, 2, 1, k));
    assert(block_count(p, by, bx, k, 9) == block_count(p, by, bx, k, 8) + cell_has_rank(p, by, bx, 2, 2, k));
}

/// A cell starting with an arrow counts once, under the rank of that arrow; any other cell
/// counts under no rank.
proof fn lemma_cell_counts_once(p: Seq<Seq<Seq<char>>>, by: int, bx: int, a: int, b: int)
    ensures
        cell_has_rank(p, by, bx, a, b, 0) + cell_has_rank(p, by, bx, a, b, 1) + cell_has_rank(p, by, bx, a, b, 2)
            + cell_has_rank(p, by, bx, a, b, 3) == (if block_cell_rank(p, by, bx, a, b) is Some {
            1int
        } else {
            0int
        }),
        cell_has_rank(p, by, bx, a, b, 0) >= 0 && cell_has_rank(p, by, bx, a, b, 1) >= 0 && cell_has_rank(p, by, bx, a, b, 2)
            >= 0 && cell_has_rank(p, by, bx, a, b, 3) >= 0,
{
}

/// The four counts of a block add up to its number of arrow cells: none exactly when no cell is
/// an arrow.
proof fn lemma_block_total(p: Seq<Seq<Seq<char>>>, by: int, bx: int)
    ensures
        cells_with_rank(p, by, bx, 0) >= 0,
        cells_with_rank(p, by, bx, 1) >= 0,
        cells_with_rank(p, by, bx, 2) >= 0,
        cells_with_rank(p, by, bx, 3) >= 0,
        (cells_with_rank(p, by, bx, 0) + cells_with_rank(p, by, bx, 1) + cells_with_rank(p, by, bx, 2)
            + cells_with_rank(p, by, bx, 3) == 0) <==> !block_holds_arrow(p, by, bx),
{
    reveal(cells_with_rank);
    lemma_cell_counts_once(p, by, bx, 0, 0);
    lemma_cell_counts_once(p, by, bx, 0, 1);
    lemma_cell_counts_once(p, by, bx, 0, 2);
    lemma_cell_counts_once(p, by, bx, 1, 0);
    lemma_cell_counts_once(p, by, bx, 1, 1);
    lemma_cell_counts_once(p, by, bx, 1, 2);
    lemma_cell_counts_once(p, by, bx, 2, 0);
    lemma_cell_counts_once(p, by, bx, 2, 1);
    lemma_cell_counts_once(p, by, bx, 2, 2);
    if block_holds_arrow(p, by, bx) {
        let (a, b) = choose|a: int, b: int| 0 <= a < 3 && 0 <= b < 3 && #[trigger] block_cell_rank(p, by, bx, a, b) is Some;
        lemma_cell_counts_once(p, by, bx, a, b);
    }
}

/// The arrow of a 3x3 block: none exactly when no cell of the block is an arrow; otherwise an
/// arrow that occurs in the block at least as often as every other arrow, and more often than
/// every arrow after it in the order up, down, left, right (so a block with a single arrow cell
/// has that arrow).
pub proof fn lemma_block_value_is_majority(p: Seq<Seq<Seq<char>>>, by: int, bx: int)
    ensures
        block_value(p, by, bx) is None <==> !block_holds_arrow(p, by, bx),
        block_value(p, by, bx) matches Some(ch) ==> exists|k: int|
            {
                &&& 0 <= k < 4
                &&& arrow_rank(ch) == Some(k as usize)
                &&& cells_with_rank(p, by, bx, k) >= 1
                &&& forall|k2: int| 0 <= k2 < 4 ==> #[trigger] cells_with_rank(p, by, bx, k2) <= cells_with_rank(p, by, bx, k)
                &&& forall|k2: int| k < k2 < 4 ==> #[trigger] cells_with_rank(p, by, bx, k2) < cells_with_rank(p, by, bx, k)
            },
{
    lemma_block_count_cells(p, by, bx, 0);
    lemma_block_count_cells(p, by, bx, 1);
    lemma_block_count_cells(p, by, bx, 2);
    lemma_block_count_cells(p, by, bx, 3);
    lemma_block_total(p, by, bx);
    let c0 = cells_with_rank(p, by, bx, 0);
    let c1 = cells_with_rank(p, by, bx, 1);
    let c2 = cells_with_rank(p, by, bx, 2);
    let c3 = cells_with_rank(p, by, bx, 3);
    if let Some(ch) = block_value(p, by, bx) {
        let k = last_max_rank(c0, c1, c2, c3);
        assert(ch == rank_glyph(k));
        assert(arrow_rank(ch) == Some(k as usize));
        assert(cells_with_rank(p, by, bx, k) >= 1);
    }
}

/// Minifying the grid that holds a single arrow cell gives that grid back: its one block holds
/// one arrow, which is the block's arrow.
pub proof fn lemma_minify_single_arrow(ch: char, out: Seq<Seq<Seq<char>>>)
    requires
        is_arrow_char(ch),
        minify_result(seq![seq![seq![ch]]], out),
    ensures
        out == seq![seq![seq![ch]]],
{
    let cell = seq![ch];
    let g = seq![seq![cell]];
    assert(arrow_cell(g[0][0]));
    assert(is_rectangular(g));
    assert(row_has_arrow(g, 0));
    assert(grid_has_arrow(g));
    let b = choose|b: (usize, usize, usize, usize)|
        #[trigger] crop_bounds_ok(g, b) && {
            let bg = block_grid(phase_crop(g, b));
            if exists|r: int| 0 <= r < bg.len() && #[trigger] used_row(bg, r) {
                exists|bx: (int, int, int, int)|
                    #[trigger] block_box(bg, bx) && largest_arrow_crop(box_cells(bg, bx), out)
            } else {
                out.len() == 0
            }
        };
    let (ta, la) = choose|ta: int, la: int| #[trigger] crop_bounds_from(g, ta, la, b);
    assert(ta == 0 && la == 0 && b.1 == 0 && b.3 == 0);
    assert(b.0 == 0 && b.2 == 0);
    assert(block_end(0) == 2);
    assert(crop_row_end(g, b) == 0);
    assert(crop_col_end(g, b) == 0);
    let sub = subgrid(g, 0, 0, 1, 1);
    assert(sub[0] =~= g[0]);
    assert(sub =~= g);
    assert(round_up_3(1) == 3);
    let pc = phase_crop(g, b);
    assert(pc == padded_to_3(g));
    assert(pc.len() == 3);
    assert(forall|r: int| 0 <= r < 3 ==> (#[trigger] pc[r]).len() == 3);
    assert(pc[0][0] == cell);
    assert(forall|r: int, c: int| 0 <= r < 3 && 0 <= c < 3 && (r != 0 || c != 0) ==> #[trigger] pc[r][c] == space());
    assert(block_cell_rank(pc, 0, 0, 0, 0) == arrow_rank(ch));
    assert(block_holds_arrow(pc, 0, 0));
    lemma_block_value_is_majority(pc, 0, 0);
    let v = block_value(pc, 0, 0);
    assert(v is Some);
    let k = choose|k: int|
        {
            &&& 0 <= k < 4
            &&& arrow_rank(v->0) == Some(k as usize)
            &&& cells_with_rank(pc, 0, 0, k) >= 1
            &&& forall|k2: int| 0 <= k2 < 4 ==> #[trigger] cells_with_rank(pc, 0, 0, k2) <= cells_with_rank(pc, 0, 0, k)
            &&& forall|k2: int| k < k2 < 4 ==> #[trigger] cells_with_rank(pc, 0, 0, k2) < cells_with_rank(pc, 0, 0, k)
        };
    assert(arrow_rank(ch) == Some(k as usize)) by {
        reveal(cells_with_rank);
        assert(block_cell_rank(pc, 0, 0, 0, 1) is None);
        assert(block_cell_rank(pc, 0, 0, 0, 2) is None);
        assert(block_cell_rank(pc, 0, 0, 1, 0) is None);
        assert(block_cell_rank(pc, 0, 0, 1, 1) is None);
        assert(block_cell_rank(pc, 0, 0, 1, 2) is None);
        assert(block_cell_rank(pc, 0, 0, 2, 0) is None);
        assert(block_cell_rank(pc, 0, 0, 2, 1) is None);
        assert(block_cell_rank(pc, 0, 0, 2, 2) is None);
    }
    assert(v == Some(ch));
    let bg = block_grid(pc);
    assert(bg.len() == 1 && bg[0].len() == 1);
    assert(bg[0][0] == Some(ch));
    assert(used_row(bg, 0));
    let bx = choose|bx: (int, int, int, int)| #[trigger] block_box(bg, bx) && largest_arrow_crop(box_cells(bg, bx), out);
    assert(bx == (0int, 0int, 0int, 0int));
    let cells = box_cells(bg, bx);
    assert(cells[0] =~= g[0]);
    assert(cells =~= g);
    assert(all_arrow_cells(g));
    lemma_largest_crop_whole(g, out);
}

} // verus!
