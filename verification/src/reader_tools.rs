//! Helpers of the reader's command-line tools: argument checks, grid comparison, the text of
//! reports, and the choice between two minified grids.
use vstd::prelude::*;

use crate::anoto_decode::{decode_all_windows_from_minified_arrows, decoded_windows, DecodedWindow};
use crate::decimal::{decimal, decimal_string, signed_decimal, signed_decimal_string};
use crate::grid::copy_grid;
use crate::minify_arrow_grid::{grid_json, write_grid_json_string};
use crate::pattern_search::{arrow_count, arrow_total, cell_total, patch_matches, patch_matches_expected};

verus! {

// ---------------------------------------------------------------------------
// Arguments
// ---------------------------------------------------------------------------
/// Checks the numbers given to `--generate`: width and height (both positive), then optionally
/// the section `u v` (10 10 unless all four numbers are given).
pub fn parse_generate_args(args: &[i32]) -> (r: Result<(usize, usize, i32, i32), String>)
    ensures
        args@.len() < 2 || args@.len() > 4 ==> (r matches Err(e) && e@ == "--generate expects 2 to 4 integers"@),
        2 <= args@.len() <= 4 && (args@[0] <= 0 || args@[1] <= 0) ==> (r matches Err(e) && e@
            == "--generate WIDTH and HEIGHT must be > 0"@),
        2 <= args@.len() <= 4 && args@[0] > 0 && args@[1] > 0 ==> (r matches Ok(t) && t.0 == args@[0] && t.1
            == args@[1] && (if args@.len() >= 4 {
            t.2 == args@[2] && t.3 == args@[3]
        } else {
            t.2 == 10 && t.3 == 10
        })),
{
    if args.len() < 2 || args.len() > 4 {
        return Err(String::from_str("--generate expects 2 to 4 integers"));
    }
    let w = args[0];
    let h = args[1];
    if w <= 0 || h <= 0 {
        return Err(String::from_str("--generate WIDTH and HEIGHT must be > 0"));
    }
    let (u, v) = if args.len() >= 4 {
        (args[2], args[3])
    } else {
        (10, 10)
    };
    Ok((w as usize, h as usize, u, v))
}

/// The input path to read: the deprecated directory option when given, else the input option;
/// an error when neither is given.
pub fn input_path<T>(dir: Option<T>, input: Option<T>) -> (r: Result<T, String>)
    ensures
        dir matches Some(d) ==> (r matches Ok(p) && p == d),
        dir is None ==> (input matches Some(i) ==> (r matches Ok(p) && p == i)),
        dir is None && input is None ==> (r matches Err(e) && e@ == "missing --input (or use --generate)"@),
{
    if let Some(d) = dir {
        return Ok(d);
    }
    if let Some(i) = input {
        return Ok(i);
    }
    Err(String::from_str("missing --input (or use --generate)"))
}

// ---------------------------------------------------------------------------
// Comparing grids
// ---------------------------------------------------------------------------
/// `label` followed by the decimal text of `n`.
fn labeled(label: &str, n: usize) -> (s: String)
    ensures
        s@ == label@ + decimal(n as nat),
{
    let mut s = String::from_str(label);
    s.append(decimal_string(n as u64).as_str());
    s
}

/// What `first_grid_mismatch` reports for two grids: a different number of rows, else the first
/// row of a different width, else the first differing cell in row-major order; `None` when the
/// grids are equal.
pub open spec fn mismatch_report(
    a: Seq<Seq<Seq<char>>>,
    b: Seq<Seq<Seq<char>>>,
    res: Option<(usize, usize, Seq<char>, Seq<char>)>,
) -> bool {
    if a.len() != b.len() {
        res == Some((0usize, 0usize, "height "@ + decimal(a.len()), "height "@ + decimal(b.len())))
    } else {
        match res {
            None => a == b,
            Some(m) => {
                &&& m.0 < a.len()
                &&& forall|r: int| 0 <= r < m.0 ==> #[trigger] a[r] == b[r]
                &&& if a[m.0 as int].len() != b[m.0 as int].len() {
                    &&& m.1 == 0
                    &&& m.2 == "width "@ + decimal(a[m.0 as int].len())
                    &&& m.3 == "width "@ + decimal(b[m.0 as int].len())
                } else {
                    &&& m.1 < a[m.0 as int].len()
                    &&& forall|c: int| 0 <= c < m.1 ==> #[trigger] a[m.0 as int][c] == b[m.0 as int][c]
                    &&& a[m.0 as int][m.1 as int] != b[m.0 as int][m.1 as int]
                    &&& m.2 == a[m.0 as int][m.1 as int]
                    &&& m.3 == b[m.0 as int][m.1 as int]
                }
            },
        }
    }
}

/// The first difference between two grids as `(row, column, found, expected)`: a different
/// number of rows (`"height N"`), else the first row of a different width (`"width N"`), else
/// the first differing cell in row-major order; `None` when the grids are equal.
pub fn first_grid_mismatch(a: &[Vec<String>], b: &[Vec<String>]) -> (res: Option<(usize, usize, String, String)>)
    ensures
        mismatch_report(
            a.deep_view(),
            b.deep_view(),
            match res {
                Some(m) => Some((m.0, m.1, m.2@, m.3@)),
                None => None,
            },
        ),
{
    let ghost av = a.deep_view();
    let ghost bv = b.deep_view();
    if a.len() != b.len() {
        return Some((0, 0, labeled("height ", a.len()), labeled("height ", b.len())));
    }
    for r in 0..a.len()
        invariant
            av == a.deep_view(),
            bv == b.deep_view(),
            a@.len() == b@.len(),
            forall|k: int| 0 <= k < r ==> #[trigger] av[k] == bv[k],
    {
        let ra = &a[r];
        let rb = &b[r];
        assert(av[r as int] == ra.deep_view() && bv[r as int] == rb.deep_view());
        if ra.len() != rb.len() {
            return Some((r, 0, labeled("width ", ra.len()), labeled("width ", rb.len())));
        }
        for c in 0..ra.len()
            invariant
                av == a.deep_view(),
                bv == b.deep_view(),
                r < a@.len(),
                a@.len() == b@.len(),
                forall|k: int| 0 <= k < r ==> #[trigger] av[k] == bv[k],
                av[r as int] == ra.deep_view(),
                bv[r as int] == rb.deep_view(),
                ra@.len() == rb@.len(),
                forall|k: int| 0 <= k < c ==> #[trigger] av[r as int][k] == bv[r as int][k],
        {
            assert(av[r as int][c as int] == ra@[c as int]@ && bv[r as int][c as int] == rb@[c as int]@);
            if !ra[c].eq(&rb[c]) {
                return Some((r, c, ra[c].clone(), rb[c].clone()));
            }
        }
        assert(av[r as int] =~= bv[r as int]);
    }
    assert(av =~= bv);
    None
}

// ---------------------------------------------------------------------------
// Report text
// ---------------------------------------------------------------------------
/// The JSON text of a grid, or `[]` for a grid without rows.
pub fn grid_json_or_empty(grid: &[Vec<String>]) -> (s: String)
    ensures
        s@ == (if grid@.len() == 0 {
            "[]"@
        } else {
            grid_json(grid.deep_view())
        }),
{
    if grid.len() == 0 {
        String::from_str("[]")
    } else {
        write_grid_json_string(grid)
    }
}

/// The first `k` coordinate pairs of a row as `[x,y]`, separated by commas.
pub open spec fn pairs_text(row: Seq<[i32; 2]>, k: int) -> Seq<char>
    decreases k,
{
    if k <= 0 {
        Seq::empty()
    } else {
        pairs_text(row, k - 1) + (if k > 1 {
            seq![',']
        } else {
            Seq::empty()
        }) + seq!['['] + signed_decimal(row[k - 1]@[0] as int) + seq![','] + signed_decimal(row[k - 1]@[1] as int)
            + seq![']']
    }
}

/// The first `n` rows, one per line, each indented, in brackets and followed by a comma unless
/// it is the last of `total` rows.
pub open spec fn rows_text(rows: Seq<Seq<[i32; 2]>>, n: int) -> Seq<char>
    decreases n,
{
    if n <= 0 {
        Seq::empty()
    } else {
        rows_text(rows, n - 1) + seq![' ', ' ', '['] + pairs_text(rows[n - 1], rows[n - 1].len() as int) + seq![']']
            + (if n < rows.len() {
            seq![',']
        } else {
            Seq::empty()
        }) + seq!['\n']
    }
}

/// The text of the decoded coordinates: a JSON array with one line per row of `[x,y]` pairs.
pub open spec fn verify_rows_text(rows: Seq<Seq<[i32; 2]>>) -> Seq<char> {
    seq!['[', '\n'] + rows_text(rows, rows.len() as int) + seq![']', '\n']
}

fn append_chars(s: &mut String, lit: &str)
    ensures
        final(s)@ == old(s)@ + lit@,
{
    s.append(lit);
}

/// Writes decoded coordinate rows as JSON text, each row of `[x,y]` pairs on a line of its own.
pub fn verify_rows_compact_text(rows: &[Vec<[i32; 2]>]) -> (out: String)
    ensures
        out@ == verify_rows_text(Seq::new(rows@.len(), |i: int| rows@[i]@)),
{
    let ghost rv = Seq::new(rows@.len(), |i: int| rows@[i]@);
    proof {
        reveal_strlit("[\n");
        reveal_strlit("  [");
        reveal_strlit(",");
        reveal_strlit("[");
        reveal_strlit("]");
        reveal_strlit("\n");
        reveal_strlit("]\n");
    }
    let mut out = String::new();
    append_chars(&mut out, "[\n");
    assert(out@ =~= seq!['[', '\n'] + rows_text(rv, 0));
    let n = rows.len();
    for ri in 0..n
        invariant
            rv == Seq::new(rows@.len(), |i: int| rows@[i]@),
            n == rows@.len(),
            out@ == seq!['[', '\n'] + rows_text(rv, ri as int),
            "  ["@ == seq![' ', ' ', '['],
            ","@ == seq![','],
            "["@ == seq!['['],
            "]"@ == seq![']'],
            "\n"@ == seq!['\n'],
    {
        let row = &rows[ri];
        assert(rv[ri as int] == row@);
        let ghost before = out@;
        append_chars(&mut out, "  [");
        assert(out@ =~= before + seq![' ', ' ', '['] + pairs_text(row@, 0));
        for ci in 0..row.len()
            invariant
                rv == Seq::new(rows@.len(), |i: int| rows@[i]@),
                n == rows@.len(),
                ri < n,
                rv[ri as int] == row@,
                out@ == before + seq![' ', ' ', '['] + pairs_text(row@, ci as int),
                ","@ == seq![','],
                "["@ == seq!['['],
                "]"@ == seq![']'],
        {
            let ghost mid = out@;
            if ci > 0 {
                append_chars(&mut out, ",");
            }
            let xy = row[ci];
            append_chars(&mut out, "[");
            out.append(signed_decimal_string(xy[0] as i64).as_str());
            append_chars(&mut out, ",");
            out.append(signed_decimal_string(xy[1] as i64).as_str());
            append_chars(&mut out, "]");
            assert(out@ =~= before + seq![' ', ' ', '['] + pairs_text(row@, ci + 1));
        }
        let ghost mid = out@;
        append_chars(&mut out, "]");
        if ri + 1 < n {
            append_chars(&mut out, ",");
        }
        append_chars(&mut out, "\n");
        assert(out@ =~= seq!['[', '\n'] + rows_text(rv, ri + 1));
    }
    append_chars(&mut out, "]\n");
    assert(out@ =~= verify_rows_text(rv));
    out
}

// ---------------------------------------------------------------------------
// Choosing the minified grid to decode
// ---------------------------------------------------------------------------
/// The two ways of building the intersection grid.
#[derive(Clone, Copy, Debug, PartialEq, Eq, Structural)]
pub enum GridBuilder {
    Observed,
    Phase,
}

/// Number of 6x6 windows of a minified grid that decode.
pub fn decode_score(minified: &[Vec<String>]) -> (n: usize)
    ensures
        n == decoded_windows(minified.deep_view()).len(),
{
    decode_all_windows_from_minified_arrows(minified).len()
}

/// The minified grid with more decodable windows (the observed one on ties), with the way it was
/// built and its number of decodable windows.
pub fn select_best_minified_for_decode(
    minified_observed: &[Vec<String>],
    minified_phase: &[Vec<String>],
) -> (r: (GridBuilder, Vec<Vec<String>>, usize))
    ensures
        ({
            let so = decoded_windows(minified_observed.deep_view()).len();
            let sp = decoded_windows(minified_phase.deep_view()).len();
            if so >= sp {
                r.0 == GridBuilder::Observed && r.1.deep_view() == minified_observed.deep_view() && r.2 == so
            } else {
                r.0 == GridBuilder::Phase && r.1.deep_view() == minified_phase.deep_view() && r.2 == sp
            }
        }),
{
    let so = decode_score(minified_observed);
    let sp = decode_score(minified_phase);
    if so >= sp {
        (GridBuilder::Observed, copy_grid(minified_observed), so)
    } else {
        (GridBuilder::Phase, copy_grid(minified_phase), sp)
    }
}

// ---------------------------------------------------------------------------
// Decoded positions grouped by row
// ---------------------------------------------------------------------------
/// Some decoded window encodes the position `(x, y)`.
pub open spec fn has_point(ws: Seq<DecodedWindow>, x: i32, y: i32) -> bool {
    exists|k: int| 0 <= k < ws.len() && (#[trigger] ws[k]).x == x && ws[k].y == y
}

/// `row` lists, in increasing order of `x`, the positions `[x, y]` of the decoded windows on
/// row `y` with `x` at most `bound`.
#[verifier::opaque]
pub open spec fn row_lists(ws: Seq<DecodedWindow>, row: Seq<[i32; 2]>, y: i32, bound: int) -> bool {
    &&& forall|j: int|
        0 <= j < row.len() ==> (#[trigger] row[j])@[1] == y && has_point(ws, row[j]@[0], y) && row[j]@[0] <= bound
    &&& forall|j1: int, j2: int| 0 <= j1 < j2 < row.len() ==> (#[trigger] row[j1])@[0] < (#[trigger] row[j2])@[0]
    &&& forall|k: int|
        0 <= k < ws.len() && (#[trigger] ws[k]).y == y && ws[k].x <= bound ==> exists|j: int|
            0 <= j < row.len() && (#[trigger] row[j])@[0] == ws[k].x
}

/// `rows` groups the positions of the decoded windows with `y` at most `bound` by row: one
/// non-empty row per such `y`, in increasing order of `y`, each listing all positions of its
/// row in increasing order of `x`.
pub open spec fn rows_group(ws: Seq<DecodedWindow>, rows: Seq<Seq<[i32; 2]>>, bound: int) -> bool {
    &&& forall|i: int|
        0 <= i < rows.len() ==> (#[trigger] rows[i]).len() > 0 && row_lists(ws, rows[i], rows[i][0]@[1], i32::MAX as int)
    &&& forall|i1: int, i2: int| 0 <= i1 < i2 < rows.len() ==> (#[trigger] rows[i1])[0]@[1] < (#[trigger] rows[i2])[0]@[1]
    &&& forall|i: int| 0 <= i < rows.len() ==> (#[trigger] rows[i])[0]@[1] <= bound
    &&& forall|k: int|
        0 <= k < ws.len() && (#[trigger] ws[k]).y <= bound ==> exists|i: int|
            0 <= i < rows.len() && (#[trigger] rows[i])[0]@[1] == ws[k].y
}

/// The least `x` above `after` among the windows on row `y`.
fn next_x(ws: &Vec<DecodedWindow>, y: i32, after: i64) -> (r: Option<i32>)
    ensures
        r matches Some(x) ==> has_point(ws@, x, y) && x > after,
        r matches Some(x) ==> forall|k: int|
            0 <= k < ws@.len() && (#[trigger] ws@[k]).y == y && ws@[k].x > after ==> x <= ws@[k].x,
        r is None ==> forall|k: int| 0 <= k < ws@.len() && (#[trigger] ws@[k]).y == y ==> ws@[k].x <= after,
{
    let mut best: Option<i32> = None;
    for k in 0..ws.len()
        invariant
            best matches Some(x) ==> has_point(ws@, x, y) && x > after,
            best matches Some(x) ==> forall|j: int|
                0 <= j < k && (#[trigger] ws@[j]).y == y && ws@[j].x > after ==> x <= ws@[j].x,
            best is None ==> forall|j: int| 0 <= j < k && (#[trigger] ws@[j]).y == y ==> ws@[j].x <= after,
    {
        let w = ws[k];
        assert(ws@[k as int] == w);
        if w.y == y && (w.x as i64) > after {
            let smaller = match best {
                Some(b) => w.x < b,
                None => true,
            };
            if smaller {
                best = Some(w.x);
            }
        }
    }
    best
}

/// The least `y` above `after` among the windows.
fn next_y(ws: &Vec<DecodedWindow>, after: i64) -> (r: Option<i32>)
    ensures
        r matches Some(y) ==> (exists|k: int| 0 <= k < ws@.len() && (#[trigger] ws@[k]).y == y) && y > after,
        r matches Some(y) ==> forall|k: int| 0 <= k < ws@.len() && (#[trigger] ws@[k]).y > after ==> y <= ws@[k].y,
        r is None ==> forall|k: int| 0 <= k < ws@.len() ==> (#[trigger] ws@[k]).y <= after,
{
    let mut best: Option<i32> = None;
    for k in 0..ws.len()
        invariant
            best matches Some(y) ==> (exists|j: int| 0 <= j < ws@.len() && (#[trigger] ws@[j]).y == y) && y > after,
            best matches Some(y) ==> forall|j: int| 0 <= j < k && (#[trigger] ws@[j]).y > after ==> y <= ws@[j].y,
            best is None ==> forall|j: int| 0 <= j < k ==> (#[trigger] ws@[j]).y <= after,
    {
        let w = ws[k];
        assert(ws@[k as int] == w);
        if (w.y as i64) > after {
            let smaller = match best {
                Some(b) => w.y < b,
                None => true,
            };
            if smaller {
                best = Some(w.y);
            }
        }
    }
    best
}

proof fn lemma_row_step(ws: Seq<DecodedWindow>, before: Seq<[i32; 2]>, y: i32, bound: int, x: i32)
    requires
        row_lists(ws, before, y, bound),
        has_point(ws, x, y),
        x > bound,
        forall|k: int| 0 <= k < ws.len() && (#[trigger] ws[k]).y == y && ws[k].x > bound ==> x <= ws[k].x,
    ensures
        row_lists(ws, before.push([x, y]), y, x as int),
{
    reveal(row_lists);
    let r = before.push([x, y]);
    assert(r[r.len() - 1] == [x, y]);
    assert(r[r.len() - 1]@[0] == x && r[r.len() - 1]@[1] == y);
    assert forall|j: int| 0 <= j < r.len() implies (#[trigger] r[j])@[1] == y && has_point(ws, r[j]@[0], y) && r[j]@[0]
        <= x by {
        if j < before.len() {
            assert(r[j] == before[j]);
        }
    }
    assert forall|j1: int, j2: int| 0 <= j1 < j2 < r.len() implies (#[trigger] r[j1])@[0] < (#[trigger] r[j2])@[0] by {
        assert(r[j1] == before[j1]);
        if j2 < before.len() {
            assert(r[j2] == before[j2]);
        }
    }
    assert forall|k: int| 0 <= k < ws.len() && (#[trigger] ws[k]).y == y && ws[k].x <= x implies exists|j: int|
        0 <= j < r.len() && (#[trigger] r[j])@[0] == ws[k].x by {
        if ws[k].x <= bound {
            let j = choose|j: int| 0 <= j < before.len() && (#[trigger] before[j])@[0] == ws[k].x;
            assert(r[j] == before[j]);
        } else {
            assert(r[r.len() - 1]@[0] == ws[k].x);
        }
    }
}

/// The positions `[x, y]` of the decoded windows on row `y`, in increasing order of `x`.
fn row_of_points(ws: &Vec<DecodedWindow>, y: i32) -> (row: Vec<[i32; 2]>)
    requires
        exists|k: int| 0 <= k < ws@.len() && (#[trigger] ws@[k]).y == y,
    ensures
        row@.len() > 0,
        row_lists(ws@, row@, y, i32::MAX as int),
{
    let mut row: Vec<[i32; 2]> = Vec::new();
    let mut bound: i64 = i32::MIN as i64 - 1;
    proof {
        reveal(row_lists);
    }
    loop
        invariant
            exists|k: int| 0 <= k < ws@.len() && (#[trigger] ws@[k]).y == y,
            i32::MIN - 1 <= bound <= i32::MAX,
            row_lists(ws@, row@, y, bound as int),
            bound == i32::MIN - 1 <==> row@.len() == 0,
        decreases i32::MAX - bound,
    {
        match next_x(ws, y, bound) {
            None => {
                proof {
                    reveal(row_lists);
                    let k = choose|k: int| 0 <= k < ws@.len() && (#[trigger] ws@[k]).y == y;
                    assert(ws@[k].x <= bound);
                    assert forall|k: int| 0 <= k < ws@.len() && (#[trigger] ws@[k]).y == y && ws@[k].x <= i32::MAX implies exists|j: int|
                        0 <= j < row@.len() && (#[trigger] row@[j])@[0] == ws@[k].x by {
                        assert(ws@[k].x <= bound);
                    }
                }
                return row;
            },
            Some(x) => {
                proof {
                    lemma_row_step(ws@, row@, y, bound as int, x);
                }
                row.push([x, y]);
                bound = x as i64;
            },
        }
    }
}

proof fn lemma_rows_step(ws: Seq<DecodedWindow>, before: Seq<Seq<[i32; 2]>>, bound: int, row: Seq<[i32; 2]>, y: i32)
    requires
        rows_group(ws, before, bound),
        exists|k: int| 0 <= k < ws.len() && (#[trigger] ws[k]).y == y,
        y > bound,
        forall|k: int| 0 <= k < ws.len() && (#[trigger] ws[k]).y > bound ==> y <= ws[k].y,
        row.len() > 0,
        row_lists(ws, row, y, i32::MAX as int),
    ensures
        rows_group(ws, before.push(row), y as int),
{
    let nv = before.push(row);
    assert(row[0]@[1] == y) by {
        reveal(row_lists);
    }
    assert(nv[before.len() as int] == row);
    assert forall|i: int| 0 <= i < nv.len() implies (#[trigger] nv[i]).len() > 0 && row_lists(ws, nv[i], nv[i][0]@[1], i32::MAX as int) by {
        if i < before.len() {
            assert(nv[i] == before[i]);
        }
    }
    assert forall|i1: int, i2: int| 0 <= i1 < i2 < nv.len() implies (#[trigger] nv[i1])[0]@[1] < (#[trigger] nv[i2])[0]@[1] by {
        assert(nv[i1] == before[i1]);
        if i2 < before.len() {
            assert(nv[i2] == before[i2]);
        }
    }
    assert forall|i: int| 0 <= i < nv.len() implies (#[trigger] nv[i])[0]@[1] <= y by {
        if i < before.len() {
            assert(nv[i] == before[i]);
        }
    }
    assert forall|k: int| 0 <= k < ws.len() && (#[trigger] ws[k]).y <= y implies exists|i: int|
        0 <= i < nv.len() && (#[trigger] nv[i])[0]@[1] == ws[k].y by {
        if ws[k].y <= bound {
            let i = choose|i: int| 0 <= i < before.len() && (#[trigger] before[i])[0]@[1] == ws[k].y;
            assert(nv[i] == before[i]);
        } else {
            assert(nv[before.len() as int][0]@[1] == ws[k].y);
        }
    }
}

/// The decoded positions of a minified grid grouped by row: one row per `y`, in increasing
/// order, each with its positions `[x, y]` in increasing order of `x` and without repeats.
pub fn decoded_xy_rows_pretty(minified: &[Vec<String>]) -> (rows: Vec<Vec<[i32; 2]>>)
    ensures
        rows_group(decoded_windows(minified.deep_view()), Seq::new(rows@.len(), |i: int| rows@[i]@), i32::MAX as int),
{
    let ws = decode_all_windows_from_minified_arrows(minified);
    let ghost wv = ws@;
    let mut rows: Vec<Vec<[i32; 2]>> = Vec::new();
    let mut bound: i64 = i32::MIN as i64 - 1;
    loop
        invariant
            wv == ws@,
            wv == decoded_windows(minified.deep_view()),
            i32::MIN - 1 <= bound <= i32::MAX,
            rows_group(wv, Seq::new(rows@.len(), |i: int| rows@[i]@), bound as int),
        decreases i32::MAX - bound,
    {
        let ghost rv = Seq::new(rows@.len(), |i: int| rows@[i]@);
        match next_y(&ws, bound) {
            None => {
                proof {
                    assert forall|k: int| 0 <= k < wv.len() && (#[trigger] wv[k]).y <= i32::MAX implies exists|i: int|
                        0 <= i < rv.len() && (#[trigger] rv[i])[0]@[1] == wv[k].y by {
                        assert(wv[k].y <= bound);
                    }
                    assert forall|i: int| 0 <= i < rv.len() implies (#[trigger] rv[i])[0]@[1] <= i32::MAX by {}
                    assert(rows_group(wv, rv, i32::MAX as int));
                }
                return rows;
            },
            Some(y) => {
                let row = row_of_points(&ws, y);
                proof {
                    lemma_rows_step(wv, rv, bound as int, row@, y);
                }
                rows.push(row);
                proof {
                    let nv = Seq::new(rows@.len(), |i: int| rows@[i]@);
                    assert(nv =~= rv.push(row@));
                }
                bound = y as i64;
            },
        }
    }
}

// ---------------------------------------------------------------------------
// Choosing the grid to write, and checking decoded windows against a section
// ---------------------------------------------------------------------------
/// The full minified grid that is written: the one with more arrows; on a tie the one with more
/// decodable windows; on a tie again the observed one.
pub fn select_minified_for_writes(minified_observed: &[Vec<String>], minified_phase: &[Vec<String>]) -> (r: Vec<Vec<String>>)
    requires
        cell_total(minified_observed.deep_view(), minified_observed@.len() as int) <= usize::MAX,
        cell_total(minified_phase.deep_view(), minified_phase@.len() as int) <= usize::MAX,
    ensures
        ({
            let go = minified_observed.deep_view();
            let gp = minified_phase.deep_view();
            let ao = arrow_total(go);
            let ap = arrow_total(gp);
            r.deep_view() == (if ap > ao {
                gp
            } else if ao > ap {
                go
            } else if decoded_windows(gp).len() > decoded_windows(go).len() {
                gp
            } else {
                go
            })
        }),
{
    let ao = arrow_count(minified_observed);
    let ap = arrow_count(minified_phase);
    if ap > ao {
        copy_grid(minified_phase)
    } else if ao > ap {
        copy_grid(minified_observed)
    } else {
        let so = decode_score(minified_observed);
        let sp = decode_score(minified_phase);
        if sp > so {
            copy_grid(minified_phase)
        } else {
            copy_grid(minified_observed)
        }
    }
}

/// Number of the first `n` decoded windows whose 6x6 patch of `g` equals the patch of the
/// section grid `e` at the position they decode to.
pub open spec fn matched_count(ws: Seq<DecodedWindow>, g: Seq<Seq<Seq<char>>>, e: Seq<Seq<Seq<char>>>, n: int) -> int
    decreases n,
{
    if n <= 0 {
        0
    } else {
        matched_count(ws, g, e, n - 1) + (if patch_matches(
            g,
            ws[n - 1].window_row as int,
            ws[n - 1].window_col as int,
            e,
            ws[n - 1].x as int,
            ws[n - 1].y as int,
        ) {
            1int
        } else {
            0int
        })
    }
}

/// Decodes the 6x6 windows of a minified grid and counts those whose patch equals the section
/// grid's patch at the decoded position: `(decoded, matched)`.
pub fn count_matching_windows(minified: &[Vec<String>], expected: &[Vec<String>]) -> (r: (usize, usize))
    ensures
        r.0 == decoded_windows(minified.deep_view()).len(),
        r.1 == matched_count(
            decoded_windows(minified.deep_view()),
            minified.deep_view(),
            expected.deep_view(),
            decoded_windows(minified.deep_view()).len() as int,
        ),
{
    let ghost g = minified.deep_view();
    let ghost e = expected.deep_view();
    let decoded = decode_all_windows_from_minified_arrows(minified);
    let mut matched: usize = 0;
    for k in 0..decoded.len()
        invariant
            g == minified.deep_view(),
            e == expected.deep_view(),
            decoded@ == decoded_windows(g),
            matched == matched_count(decoded@, g, e, k as int),
            matched <= k,
    {
        let d = decoded[k];
        if patch_matches_expected(minified, d.window_row, d.window_col, expected, d.x, d.y) {
            matched = matched + 1;
        }
    }
    (decoded.len(), matched)
}

/// Whether the second alignment score `(matches, arrows)` has the greater ratio of matches to
/// arrows than the first; never when either counted no arrows.
pub fn second_alignment_better(first: (usize, usize), second: (usize, usize)) -> (b: bool)
    ensures
        b == (first.1 > 0 && second.1 > 0 && second.0 * first.1 > first.0 * second.1),
{
    if first.1 == 0 || second.1 == 0 {
        return false;
    }
    let a: u128 = second.0 as u128;
    let b: u128 = first.1 as u128;
    let c: u128 = first.0 as u128;
    let d: u128 = second.1 as u128;
    assert(a * b <= u128::MAX && c * d <= u128::MAX) by (nonlinear_arith)
        requires
            a <= u64::MAX,
            b <= u64::MAX,
            c <= u64::MAX,
            d <= u64::MAX,
    ;
    a * b > c * d
}

} // verus!
