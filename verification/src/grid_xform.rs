//! The eight symmetries of a rectangular grid (rotations, flips and transposes), on grids of
//! string cells and on grids of characters.
use vstd::prelude::*;

use crate::grid::copy_row_range;

verus! {

/// A symmetry of the square applied to a grid.
#[derive(Clone, Copy, Debug, PartialEq, Eq, Structural)]
pub enum GridXform {
    Identity,
    Rot90,
    Rot180,
    Rot270,
    FlipH,
    FlipV,
    Transpose,
    AntiTranspose,
}

/// The sequence in reverse order.
pub open spec fn reversed<A>(s: Seq<A>) -> Seq<A> {
    Seq::new(s.len(), |i: int| s[s.len() - 1 - i])
}

/// The transform moves cells between rows and columns (it needs every row to be at least as
/// long as the first).
pub open spec fn moves_across_rows(t: GridXform) -> bool {
    !(t is Identity || t is FlipH || t is FlipV)
}

/// The grid `g` under the transform `t`. Rotations turn clockwise; the transforms that move
/// cells across rows read the first `g[0].len()` cells of each row.
pub open spec fn xform_grid<A>(g: Seq<Seq<A>>, t: GridXform) -> Seq<Seq<A>> {
    let h = g.len() as int;
    let w = g[0].len() as int;
    match t {
        GridXform::Identity => g,
        GridXform::Rot90 => Seq::new(w as nat, |i: int| Seq::new(h as nat, |j: int| g[h - 1 - j][i])),
        GridXform::Rot180 => Seq::new(h as nat, |i: int| Seq::new(w as nat, |j: int| g[h - 1 - i][w - 1 - j])),
        GridXform::Rot270 => Seq::new(w as nat, |i: int| Seq::new(h as nat, |j: int| g[j][w - 1 - i])),
        GridXform::FlipH => Seq::new(h as nat, |i: int| reversed(g[i])),
        GridXform::FlipV => reversed(g),
        GridXform::Transpose => Seq::new(w as nat, |i: int| Seq::new(h as nat, |j: int| g[j][i])),
        GridXform::AntiTranspose => Seq::new(
            w as nat,
            |i: int| Seq::new(h as nat, |j: int| g[h - 1 - j][w - 1 - i]),
        ),
    }
}

/// The grid has a row and every row is at least as long as the first one (what the transform
/// `t` reads).
pub open spec fn xform_ok<A>(g: Seq<Seq<A>>, t: GridXform) -> bool {
    &&& g.len() > 0
    &&& moves_across_rows(t) ==> forall|r: int| 0 <= r < g.len() ==> (#[trigger] g[r]).len() >= g[0].len()
}

/// Every row of the grid has the length of the first, which is not zero.
pub open spec fn is_rect<A>(g: Seq<Seq<A>>) -> bool {
    &&& g.len() > 0
    &&& g[0].len() > 0
    &&& forall|r: int| 0 <= r < g.len() ==> (#[trigger] g[r]).len() == g[0].len()
}

/// The transform that undoes `t`.
pub open spec fn inverse_xform(t: GridXform) -> GridXform {
    match t {
        GridXform::Rot90 => GridXform::Rot270,
        GridXform::Rot270 => GridXform::Rot90,
        _ => t,
    }
}

/// Each of the eight transforms keeps a grid rectangular, and applying its inverse afterwards
/// gives the grid back.
pub proof fn lemma_xform_undone_by_inverse<A>(g: Seq<Seq<A>>, t: GridXform)
    requires
        is_rect(g),
    ensures
        is_rect(xform_grid(g, t)),
        xform_grid(xform_grid(g, t), inverse_xform(t)) == g,
{
    let h = g.len() as int;
    let w = g[0].len() as int;
    let x = xform_grid(g, t);
    assert(is_rect(x)) by {
        if t is FlipH {
            assert forall|r: int| 0 <= r < x.len() implies (#[trigger] x[r]).len() == x[0].len() by {
                assert(g[r].len() == g[0].len());
            }
        } else if t is FlipV {
            assert forall|r: int| 0 <= r < x.len() implies (#[trigger] x[r]).len() == x[0].len() by {
                assert(g[h - 1 - r].len() == g[0].len());
                assert(g[h - 1].len() == g[0].len());
            }
        }
    }
    let y = xform_grid(x, inverse_xform(t));
    assert forall|r: int| 0 <= r < h implies (#[trigger] y[r]) =~= g[r] by {
        assert(g[r].len() == w);
        if t is FlipV {
            assert(g[h - 1 - (h - 1 - r)] == g[r]);
            assert(g[h - 1].len() == w);
        }
        if t is FlipH {
            assert(x[0].len() == w);
        }
    }
    assert(y =~= g);
}

/// Four quarter turns give the grid back.
pub proof fn lemma_four_quarter_turns<A>(g: Seq<Seq<A>>)
    requires
        is_rect(g),
    ensures
        xform_grid(xform_grid(xform_grid(xform_grid(g, GridXform::Rot90), GridXform::Rot90), GridXform::Rot90), GridXform::Rot90)
            == g,
{
    let h = g.len() as int;
    let w = g[0].len() as int;
    let g1 = xform_grid(g, GridXform::Rot90);
    let g2 = xform_grid(g1, GridXform::Rot90);
    let g3 = xform_grid(g2, GridXform::Rot90);
    let g4 = xform_grid(g3, GridXform::Rot90);
    assert(g1.len() == w && g1[0].len() == h);
    assert(g2.len() == h && g2[0].len() == w);
    assert forall|i: int, j: int| 0 <= i < h && 0 <= j < w implies #[trigger] g2[i][j] == g[h - 1 - i][w - 1 - j] by {
        assert(g[h - 1 - i].len() == w);
    }
    assert(g3.len() == w && g3[0].len() == h);
    assert(g4.len() == h && g4[0].len() == w);
    assert forall|r: int| 0 <= r < h implies (#[trigger] g4[r]) =~= g[r] by {
        assert(g[r].len() == w);
        assert forall|c: int| 0 <= c < w implies g4[r][c] == g[r][c] by {
            assert(g3[w - 1 - c][r] == g2[h - 1 - r][w - 1 - c]);
            assert(g2[h - 1 - r][w - 1 - c] == g[r][c]);
        }
    }
    assert(g4 =~= g);
}

/// Size `(rows, cols)` of the grid that the transform `t` makes of an `h` x `w` grid.
pub open spec fn xform_dims(t: GridXform, h: int, w: int) -> (int, int) {
    if t is Rot180 {
        (h, w)
    } else {
        (w, h)
    }
}

/// The source cell `(row, col)` of cell `(i, j)` of a grid that a transform that moves cells
/// across rows makes of an `h` x `w` grid.
pub open spec fn xform_source(t: GridXform, h: int, w: int, i: int, j: int) -> (int, int) {
    match t {
        GridXform::Rot90 => (h - 1 - j, i),
        GridXform::Rot180 => (h - 1 - i, w - 1 - j),
        GridXform::Rot270 => (j, w - 1 - i),
        GridXform::Transpose => (j, i),
        _ => (h - 1 - j, w - 1 - i),
    }
}

fn source_of(t: GridXform, h: usize, w: usize, i: usize, j: usize) -> (rc: (usize, usize))
    requires
        moves_across_rows(t),
        0 <= i < xform_dims(t, h as int, w as int).0,
        0 <= j < xform_dims(t, h as int, w as int).1,
    ensures
        rc.0 == xform_source(t, h as int, w as int, i as int, j as int).0,
        rc.1 == xform_source(t, h as int, w as int, i as int, j as int).1,
        rc.0 < h,
        rc.1 < w,
{
    match t {
        GridXform::Rot90 => (h - 1 - j, i),
        GridXform::Rot180 => (h - 1 - i, w - 1 - j),
        GridXform::Rot270 => (j, w - 1 - i),
        GridXform::Transpose => (j, i),
        _ => (h - 1 - j, w - 1 - i),
    }
}

proof fn lemma_source_cell<A>(g: Seq<Seq<A>>, t: GridXform, i: int, j: int)
    requires
        xform_ok(g, t),
        moves_across_rows(t),
        0 <= i < xform_dims(t, g.len() as int, g[0].len() as int).0,
        0 <= j < xform_dims(t, g.len() as int, g[0].len() as int).1,
    ensures
        ({
            let (r, c) = xform_source(t, g.len() as int, g[0].len() as int, i, j);
            xform_grid(g, t)[i][j] == g[r][c]
        }),
{
}

proof fn lemma_xform_row_len<A>(g: Seq<Seq<A>>, t: GridXform, i: int)
    requires
        xform_ok(g, t),
        moves_across_rows(t),
        0 <= i < xform_dims(t, g.len() as int, g[0].len() as int).0,
    ensures
        xform_grid(g, t).len() == xform_dims(t, g.len() as int, g[0].len() as int).0,
        xform_grid(g, t)[i].len() == xform_dims(t, g.len() as int, g[0].len() as int).1,
{
}

/// A copy of `row` in reverse order.
fn reversed_row(row: &Vec<String>) -> (out: Vec<String>)
    ensures
        out.deep_view() == reversed(row.deep_view()),
{
    let n = row.len();
    let mut out: Vec<String> = Vec::new();
    for k in 0..n
        invariant
            n == row@.len(),
            out@.len() == k,
            forall|i: int| 0 <= i < k ==> (#[trigger] out@[i])@ == row@[n - 1 - i]@,
    {
        out.push(row[n - 1 - k].clone());
    }
    assert(out.deep_view() =~= reversed(row.deep_view()));
    out
}

/// The grid of string cells `g` under the transform `t`.
pub fn apply_xform(g: &[Vec<String>], t: GridXform) -> (out: Vec<Vec<String>>)
    requires
        xform_ok(g.deep_view(), t),
    ensures
        out.deep_view() == xform_grid(g.deep_view(), t),
{
    let ghost gv = g.deep_view();
    let h = g.len();
    let w = g[0].len();
    assert(gv[0].len() == w);
    match t {
        GridXform::Identity => {
            let mut out: Vec<Vec<String>> = Vec::new();
            for r in 0..h
                invariant
                    h == g@.len(),
                    out@.len() == r,
                    forall|i: int| 0 <= i < r ==> (#[trigger] out@[i]).deep_view() == gv[i],
                    gv == g.deep_view(),
            {
                let row = copy_row_range(&g[r], 0, g[r].len());
                assert(row.deep_view() =~= gv[r as int]);
                out.push(row);
            }
            assert(out.deep_view() =~= gv);
            out
        },
        GridXform::FlipH => {
            let mut out: Vec<Vec<String>> = Vec::new();
            for r in 0..h
                invariant
                    h == g@.len(),
                    out@.len() == r,
                    forall|i: int| 0 <= i < r ==> (#[trigger] out@[i]).deep_view() == reversed(gv[i]),
                    gv == g.deep_view(),
            {
                out.push(reversed_row(&g[r]));
            }
            assert(out.deep_view() =~= xform_grid(gv, t));
            out
        },
        GridXform::FlipV => {
            let mut out: Vec<Vec<String>> = Vec::new();
            for k in 0..h
                invariant
                    h == g@.len(),
                    out@.len() == k,
                    forall|i: int| 0 <= i < k ==> (#[trigger] out@[i]).deep_view() == gv[h - 1 - i],
                    gv == g.deep_view(),
            {
                let r = h - 1 - k;
                let row = copy_row_range(&g[r], 0, g[r].len());
                assert(row.deep_view() =~= gv[r as int]);
                out.push(row);
            }
            assert(out.deep_view() =~= xform_grid(gv, t));
            out
        },
        _ => {
            let rows = if t == GridXform::Rot180 {
                h
            } else {
                w
            };
            let cols = if t == GridXform::Rot180 {
                w
            } else {
                h
            };
            let ghost target = xform_grid(gv, t);
            let mut out: Vec<Vec<String>> = Vec::new();
            for i in 0..rows
                invariant
                    gv == g.deep_view(),
                    target == xform_grid(gv, t),
                    xform_ok(gv, t),
                    moves_across_rows(t),
                    h == gv.len(),
                    w == gv[0].len(),
                    rows == xform_dims(t, h as int, w as int).0,
                    cols == xform_dims(t, h as int, w as int).1,
                    out@.len() == i,
                    forall|k: int| 0 <= k < i ==> (#[trigger] out@[k]).deep_view() == target[k],
            {
                let mut row: Vec<String> = Vec::new();
                for j in 0..cols
                    invariant
                        gv == g.deep_view(),
                        target == xform_grid(gv, t),
                        xform_ok(gv, t),
                        moves_across_rows(t),
                        h == gv.len(),
                        w == gv[0].len(),
                        rows == xform_dims(t, h as int, w as int).0,
                        cols == xform_dims(t, h as int, w as int).1,
                        i < rows,
                        row@.len() == j,
                        forall|k: int| 0 <= k < j ==> (#[trigger] row@[k])@ == target[i as int][k],
                {
                    let (sr, sc) = source_of(t, h, w, i, j);
                    proof {
                        lemma_source_cell(gv, t, i as int, j as int);
                        assert(gv[sr as int].len() >= w);
                        assert(gv[sr as int][sc as int] == g@[sr as int]@[sc as int]@);
                    }
                    row.push(g[sr][sc].clone());
                }
                proof {
                    lemma_xform_row_len(gv, t, i as int);
                }
                assert(row.deep_view() =~= target[i as int]);
                out.push(row);
            }
            proof {
                if rows > 0 {
                    lemma_xform_row_len(gv, t, 0);
                }
            }
            assert(out.deep_view() =~= target);
            out
        },
    }
}

/// The grid of characters `g` under the transform `t`.
pub fn apply_xform_chars(g: &[Vec<char>], t: GridXform) -> (out: Vec<Vec<char>>)
    requires
        xform_ok(g.deep_view(), t),
    ensures
        out.deep_view() == xform_grid(g.deep_view(), t),
{
    let ghost gv = g.deep_view();
    let h = g.len();
    let w = g[0].len();
    assert(gv[0].len() == w);
    match t {
        GridXform::Identity => {
            let mut out: Vec<Vec<char>> = Vec::new();
            for r in 0..h
                invariant
                    h == g@.len(),
                    out@.len() == r,
                    forall|i: int| 0 <= i < r ==> (#[trigger] out@[i]).deep_view() == gv[i],
                    gv == g.deep_view(),
            {
                let row = g[r].clone();
                assert(row.deep_view() =~= gv[r as int]);
                out.push(row);
            }
            assert(out.deep_view() =~= gv);
            out
        },
        GridXform::FlipH => {
            let mut out: Vec<Vec<char>> = Vec::new();
            for r in 0..h
                invariant
                    h == g@.len(),
                    out@.len() == r,
                    forall|i: int| 0 <= i < r ==> (#[trigger] out@[i]).deep_view() == reversed(gv[i]),
                    gv == g.deep_view(),
            {
                let n = g[r].len();
                let mut row: Vec<char> = Vec::new();
                for k in 0..n
                    invariant
                        h == g@.len(),
                        r < h,
                        n == g@[r as int]@.len(),
                        row@.len() == k,
                        forall|i: int| 0 <= i < k ==> (#[trigger] row@[i]) == g@[r as int]@[n - 1 - i],
                {
                    row.push(g[r][n - 1 - k]);
                }
                assert(row.deep_view() =~= reversed(gv[r as int]));
                out.push(row);
            }
            assert(out.deep_view() =~= xform_grid(gv, t));
            out
        },
        GridXform::FlipV => {
            let mut out: Vec<Vec<char>> = Vec::new();
            for k in 0..h
                invariant
                    h == g@.len(),
                    out@.len() == k,
                    forall|i: int| 0 <= i < k ==> (#[trigger] out@[i]).deep_view() == gv[h - 1 - i],
                    gv == g.deep_view(),
            {
                let r = h - 1 - k;
                let row = g[r].clone();
                assert(row.deep_view() =~= gv[r as int]);
                out.push(row);
            }
            assert(out.deep_view() =~= xform_grid(gv, t));
            out
        },
        _ => {
            let rows = if t == GridXform::Rot180 {
                h
            } else {
                w
            };
            let cols = if t == GridXform::Rot180 {
                w
            } else {
                h
            };
            let ghost target = xform_grid(gv, t);
            let mut out: Vec<Vec<char>> = Vec::new();
            for i in 0..rows
                invariant
                    gv == g.deep_view(),
                    target == xform_grid(gv, t),
                    xform_ok(gv, t),
                    moves_across_rows(t),
                    h == gv.len(),
                    w == gv[0].len(),
                    rows == xform_dims(t, h as int, w as int).0,
                    cols == xform_dims(t, h as int, w as int).1,
                    out@.len() == i,
                    forall|k: int| 0 <= k < i ==> (#[trigger] out@[k]).deep_view() == target[k],
            {
                let mut row: Vec<char> = Vec::new();
                for j in 0..cols
                    invariant
                        gv == g.deep_view(),
                        target == xform_grid(gv, t),
                        xform_ok(gv, t),
                        moves_across_rows(t),
                        h == gv.len(),
                        w == gv[0].len(),
                        rows == xform_dims(t, h as int, w as int).0,
                        cols == xform_dims(t, h as int, w as int).1,
                        i < rows,
                        row@.len() == j,
                        forall|k: int| 0 <= k < j ==> (#[trigger] row@[k]) == target[i as int][k],
                {
                    let (sr, sc) = source_of(t, h, w, i, j);
                    proof {
                        lemma_source_cell(gv, t, i as int, j as int);
                        assert(gv[sr as int].len() >= w);
                        assert(gv[sr as int][sc as int] == g@[sr as int]@[sc as int]);
                    }
                    row.push(g[sr][sc]);
                }
                proof {
                    lemma_xform_row_len(gv, t, i as int);
                }
                assert(row.deep_view() =~= target[i as int]);
                out.push(row);
            }
            proof {
                if rows > 0 {
                    lemma_xform_row_len(gv, t, 0);
                }
            }
            assert(out.deep_view() =~= target);
            out
        },
    }
}

} // verus!
