//! The full intersection grid of detected dots: the lines through the dot centers, with
//! synthetic empty lines where a whole row or column of the pattern was not detected, and the
//! arrow of each dot at its intersection.
use vstd::prelude::*;
use vstd::relations::{sorted_by, total_ordering};

use crate::cells::char_to_string;

verus! {

/// An RGBA color.
#[derive(Clone, Copy, Debug, PartialEq, Eq, Structural)]
pub struct Color {
    pub r: u8,
    pub g: u8,
    pub b: u8,
    pub a: u8,
}

/// The four type colors of the dots.
#[derive(Clone, Copy, Debug, PartialEq, Eq, Structural)]
pub struct TypePalette {
    pub green: Color,
    pub orange: Color,
    pub blue: Color,
    pub magenta: Color,
}

/// A detected dot as the grid builder reads it: its center rounded to whole pixels and the type
/// color it was classified as.
#[derive(Clone, Copy, Debug, PartialEq, Eq, Structural)]
pub struct DotCell {
    pub x: i32,
    pub y: i32,
    pub type_color: Color,
}

// ---------------------------------------------------------------------------
// Colors and arrows
// ---------------------------------------------------------------------------
/// Squared distance of two colors over red, green and blue.
pub open spec fn color_distance(a: Color, b: Color) -> int {
    (a.r - b.r) * (a.r - b.r) + (a.g - b.g) * (a.g - b.g) + (a.b - b.b) * (a.b - b.b)
}

/// The palette color nearest to `c` (the first of green, orange, blue, magenta on ties).
pub open spec fn nearest_type(c: Color, pal: TypePalette) -> Color {
    let d0 = color_distance(c, pal.green);
    let d1 = color_distance(c, pal.orange);
    let d2 = color_distance(c, pal.blue);
    let d3 = color_distance(c, pal.magenta);
    let (b1, e1) = if d1 < d0 {
        (pal.orange, d1)
    } else {
        (pal.green, d0)
    };
    let (b2, e2) = if d2 < e1 {
        (pal.blue, d2)
    } else {
        (b1, e1)
    };
    if d3 < e2 {
        pal.magenta
    } else {
        b2
    }
}

/// The arrow of a type color: green up, orange down, blue left, magenta right.
pub open spec fn arrow_of_type(t: Color, pal: TypePalette) -> Option<char> {
    if t == pal.green {
        Some('↑')
    } else if t == pal.orange {
        Some('↓')
    } else if t == pal.blue {
        Some('←')
    } else if t == pal.magenta {
        Some('→')
    } else {
        None
    }
}

/// The arrow of a dot, by the palette color nearest to its type color.
pub open spec fn dot_arrow(d: DotCell, pal: TypePalette) -> Option<char> {
    arrow_of_type(nearest_type(d.type_color, pal), pal)
}

fn channel_distance(a: u8, b: u8) -> (d: u32)
    ensures
        d == (a - b) * (a - b),
        d <= 255 * 255,
{
    let x: i32 = a as i32 - b as i32;
    assert(x * x <= 255 * 255) by (nonlinear_arith)
        requires
            -255 <= x <= 255,
    ;
    assert(x * x >= 0) by (nonlinear_arith);
    (x * x) as u32
}

fn distance(a: Color, b: Color) -> (d: u32)
    ensures
        d == color_distance(a, b),
{
    channel_distance(a.r, b.r) + channel_distance(a.g, b.g) + channel_distance(a.b, b.b)
}

/// The palette color nearest to `c` (the first of green, orange, blue, magenta on ties).
pub fn nearest_type_color(c: Color, pal: &TypePalette) -> (t: Color)
    ensures
        t == nearest_type(c, *pal),
{
    let palette = [pal.green, pal.orange, pal.blue, pal.magenta];
    let mut best = palette[0];
    let mut best_d = distance(c, palette[0]);
    if distance(c, palette[1]) < best_d {
        best = palette[1];
        best_d = distance(c, palette[1]);
    }
    if distance(c, palette[2]) < best_d {
        best = palette[2];
        best_d = distance(c, palette[2]);
    }
    if distance(c, palette[3]) < best_d {
        best = palette[3];
    }
    best
}

/// The arrow of a dot: the palette color nearest to its type color, green up, orange down, blue
/// left, magenta right.
pub fn arrow_for_dot(dot: &DotCell, pal: &TypePalette) -> (a: Option<char>)
    ensures
        a == dot_arrow(*dot, *pal),
{
    let t = nearest_type_color(dot.type_color, pal);
    if t == pal.green {
        Some('↑')
    } else if t == pal.orange {
        Some('↓')
    } else if t == pal.blue {
        Some('←')
    } else if t == pal.magenta {
        Some('→')
    } else {
        None
    }
}

// ---------------------------------------------------------------------------
// Kinds of rows and columns
// ---------------------------------------------------------------------------
/// Kind of a row of dots by its dominant type: green, mid (blue or magenta), orange.
#[derive(Clone, Copy, Debug, PartialEq, Eq, Structural)]
pub enum RowKind {
    Green,
    Mid,
    Orange,
    Unknown,
}

/// Kind of a column of dots by its dominant type: blue, vertical (green or orange), magenta.
#[derive(Clone, Copy, Debug, PartialEq, Eq, Structural)]
pub enum ColKind {
    Blue,
    Vertical,
    Magenta,
    Unknown,
}

/// Counts `(first, middle, last)` of the first `n` dots on the line `at` (rows when `rows`,
/// else columns): for rows green, blue or magenta, orange; for columns blue, green or orange,
/// magenta.
pub open spec fn line_counts(dots: Seq<DotCell>, pal: TypePalette, rows: bool, at: int, n: int) -> (int, int, int)
    decreases n,
{
    if n <= 0 {
        (0, 0, 0)
    } else {
        let (a, m, b) = line_counts(dots, pal, rows, at, n - 1);
        let d = dots[n - 1];
        let t = nearest_type(d.type_color, pal);
        if (if rows {
            d.y as int
        } else {
            d.x as int
        }) != at {
            (a, m, b)
        } else if rows {
            if t == pal.green {
                (a + 1, m, b)
            } else if t == pal.orange {
                (a, m, b + 1)
            } else if t == pal.blue || t == pal.magenta {
                (a, m + 1, b)
            } else {
                (a, m, b)
            }
        } else {
            if t == pal.blue {
                (a + 1, m, b)
            } else if t == pal.magenta {
                (a, m, b + 1)
            } else if t == pal.green || t == pal.orange {
                (a, m + 1, b)
            } else {
                (a, m, b)
            }
        }
    }
}

/// Phase of a line by its counts: none when it has no dot, else 0 when the first count is the
/// largest, then 1 for the middle one, else 2.
pub open spec fn phase_of_counts(c: (int, int, int)) -> Option<int> {
    let mx = if c.0 >= c.1 && c.0 >= c.2 {
        c.0
    } else if c.1 >= c.2 {
        c.1
    } else {
        c.2
    };
    if mx == 0 {
        None
    } else if c.0 == mx {
        Some(0)
    } else if c.1 == mx {
        Some(1)
    } else {
        Some(2)
    }
}

/// Phase of the row of dots at `y` (green 0, mid 1, orange 2).
pub open spec fn row_phase(dots: Seq<DotCell>, pal: TypePalette, y: int) -> Option<int> {
    phase_of_counts(line_counts(dots, pal, true, y, dots.len() as int))
}

/// Phase of the column of dots at `x` (blue 0, vertical 1, magenta 2).
pub open spec fn col_phase(dots: Seq<DotCell>, pal: TypePalette, x: int) -> Option<int> {
    phase_of_counts(line_counts(dots, pal, false, x, dots.len() as int))
}

proof fn lemma_line_counts_bound(dots: Seq<DotCell>, pal: TypePalette, rows: bool, at: int, n: int)
    requires
        0 <= n <= dots.len(),
    ensures
        ({
            let c = line_counts(dots, pal, rows, at, n);
            0 <= c.0 && 0 <= c.1 && 0 <= c.2 && c.0 + c.1 + c.2 <= n
        }),
    decreases n,
{
    if n > 0 {
        lemma_line_counts_bound(dots, pal, rows, at, n - 1);
    }
}

/// Counts of the types on a line of dots.
fn count_line(dots: &Vec<DotCell>, pal: &TypePalette, rows: bool, at: i64) -> (c: (usize, usize, usize))
    ensures
        (c.0 as int, c.1 as int, c.2 as int) == line_counts(dots@, *pal, rows, at as int, dots@.len() as int),
{
    let mut a: usize = 0;
    let mut m: usize = 0;
    let mut b: usize = 0;
    for i in 0..dots.len()
        invariant
            (a as int, m as int, b as int) == line_counts(dots@, *pal, rows, at as int, i as int),
            a + m + b <= i,
    {
        proof {
            lemma_line_counts_bound(dots@, *pal, rows, at as int, i as int);
        }
        let d = dots[i];
        let on = if rows {
            d.y as i64 == at
        } else {
            d.x as i64 == at
        };
        if on {
            let t = nearest_type_color(d.type_color, pal);
            if rows {
                if t == pal.green {
                    a += 1;
                } else if t == pal.orange {
                    b += 1;
                } else if t == pal.blue || t == pal.magenta {
                    m += 1;
                }
            } else {
                if t == pal.blue {
                    a += 1;
                } else if t == pal.magenta {
                    b += 1;
                } else if t == pal.green || t == pal.orange {
                    m += 1;
                }
            }
        }
    }
    (a, m, b)
}

/// Kind of the row of dots at `y`: the most frequent of green, mid (blue or magenta) and orange
/// (earlier ones first on ties), unknown when the row has no dot of these types.
pub fn row_kind_for_y(dots: &Vec<DotCell>, y: i64, pal: &TypePalette) -> (k: RowKind)
    ensures
        phase_for_kind(k) == row_phase(dots@, *pal, y as int),
{
    let (green, mid, orange) = count_line(dots, pal, true, y);
    let max = if green >= mid && green >= orange {
        green
    } else if mid >= orange {
        mid
    } else {
        orange
    };
    if max == 0 {
        return RowKind::Unknown;
    }
    if green == max {
        RowKind::Green
    } else if mid == max {
        RowKind::Mid
    } else {
        RowKind::Orange
    }
}

/// Kind of the column of dots at `x`: the most frequent of blue, vertical (green or orange) and
/// magenta (earlier ones first on ties), unknown when the column has no dot of these types.
pub fn col_kind_for_x(dots: &Vec<DotCell>, x: i64, pal: &TypePalette) -> (k: ColKind)
    ensures
        phase_for_col_kind(k) == col_phase(dots@, *pal, x as int),
{
    let (blue, vertical, magenta) = count_line(dots, pal, false, x);
    let max = if blue >= vertical && blue >= magenta {
        blue
    } else if vertical >= magenta {
        vertical
    } else {
        magenta
    };
    if max == 0 {
        return ColKind::Unknown;
    }
    if blue == max {
        ColKind::Blue
    } else if vertical == max {
        ColKind::Vertical
    } else {
        ColKind::Magenta
    }
}

/// Phase of a row kind: green 0, mid 1, orange 2.
pub open spec fn phase_for_kind(kind: RowKind) -> Option<int> {
    match kind {
        RowKind::Green => Some(0),
        RowKind::Mid => Some(1),
        RowKind::Orange => Some(2),
        RowKind::Unknown => None,
    }
}

/// Phase of a column kind: blue 0, vertical 1, magenta 2.
pub open spec fn phase_for_col_kind(kind: ColKind) -> Option<int> {
    match kind {
        ColKind::Blue => Some(0),
        ColKind::Vertical => Some(1),
        ColKind::Magenta => Some(2),
        ColKind::Unknown => None,
    }
}

// ---------------------------------------------------------------------------
// Sorting
// ---------------------------------------------------------------------------
/// The order of integers.
pub open spec fn int_le(a: i64, b: i64) -> bool {
    a <= b
}

proof fn lemma_int_le_total()
    ensures
        total_ordering(|a: i64, b: i64| int_le(a, b)),
{
}

/// The positive values of a sequence.
pub open spec fn positives(s: Seq<i64>) -> Seq<i64> {
    s.filter(|d: i64| d > 0)
}

/// The median step of some differences: the middle one (the upper of the two middle ones for
/// an even count) of the positive differences in increasing order; none when no difference is
/// positive.
pub open spec fn median_of(diffs: Seq<i64>) -> Option<i64> {
    let pos = positives(diffs);
    if pos.len() == 0 {
        None
    } else {
        Some(pos.sort_by(|a: i64, b: i64| int_le(a, b))[(pos.len() / 2) as int])
    }
}

/// Every value kept by a filter is a value of the sequence.
proof fn lemma_filter_subset(s: Seq<i64>, pred: spec_fn(i64) -> bool, x: i64)
    requires
        s.filter(pred).contains(x),
    ensures
        s.contains(x),
    decreases s.len(),
{
    reveal_with_fuel(Seq::filter, 1);
    if s.len() > 0 {
        let sub = s.drop_last().filter(pred);
        if sub.contains(x) {
            lemma_filter_subset(s.drop_last(), pred, x);
            let k = choose|k: int| 0 <= k < s.drop_last().len() && s.drop_last()[k] == x;
            assert(s[k] == x);
        } else {
            assert(x == s.last());
            assert(s[s.len() - 1] == x);
        }
    }
}

/// The values of `v` in increasing order.
fn sorted_copy(v: &Vec<i64>) -> (out: Vec<i64>)
    ensures
        out@ == v@.sort_by(|a: i64, b: i64| int_le(a, b)),
{
    let ghost leq = |a: i64, b: i64| int_le(a, b);
    let mut out: Vec<i64> = Vec::new();
    proof {
        broadcast use vstd::seq_lib::group_to_multiset_ensures;

        assert(v@.take(0) =~= Seq::<i64>::empty());
        assert(out@ =~= Seq::<i64>::empty());
    }
    for i in 0..v.len()
        invariant
            leq == (|a: i64, b: i64| int_le(a, b)),
            sorted_by(out@, leq),
            out@.to_multiset() == v@.take(i as int).to_multiset(),
    {
        let x = v[i];
        let mut k: usize = 0;
        while k < out.len() && out[k] <= x
            invariant
                0 <= k <= out@.len(),
                forall|j: int| 0 <= j < k ==> out@[j] <= x,
            decreases out@.len() - k,
        {
            k += 1;
        }
        let ghost before = out@;
        out.insert(k, x);
        proof {
            broadcast use vstd::seq_lib::group_to_multiset_ensures;

            assert(out@ == before.insert(k as int, x));
            assert forall|a: int, b: int| 0 <= a < b < out@.len() implies #[trigger] leq(out@[a], out@[b]) by {
                if a < k && b == k {
                } else if a == k && b > k {
                    assert(out@[b] == before[b - 1]);
                    assert(!(before[k as int] <= x));
                    assert(leq(before[k as int], before[b - 1]) || k == b - 1);
                } else if a < k && b > k {
                    assert(leq(before[a], before[b - 1]));
                } else if b < k {
                    assert(leq(before[a], before[b]));
                } else {
                    assert(leq(before[a - 1], before[b - 1]));
                }
            }
            assert(v@.take(i + 1) == v@.take(i as int).push(x));
        }
    }
    proof {
        assert(v@.take(v@.len() as int) =~= v@);
        lemma_int_le_total();
        v@.lemma_sort_by_ensures(leq);
        vstd::seq_lib::lemma_sorted_unique(out@, v@.sort_by(leq), leq);
    }
    out
}

/// The median step of some differences: the middle one (the upper of the two middle ones for
/// an even count) of the positive differences in increasing order; `None` when no difference is
/// positive.
pub fn median_step(diffs: Vec<i64>) -> (m: Option<i64>)
    ensures
        m == median_of(diffs@),
        m matches Some(v) ==> diffs@.contains(v),
{
    let ghost pred = |d: i64| d > 0;
    let mut pos: Vec<i64> = Vec::new();
    for i in 0..diffs.len()
        invariant
            pred == (|d: i64| d > 0),
            pos@ == diffs@.take(i as int).filter(pred),
    {
        proof {
            let t = diffs@.take(i + 1);
            assert(t.drop_last() =~= diffs@.take(i as int));
            assert(t.last() == diffs@[i as int]);
            reveal_with_fuel(Seq::filter, 1);
            assert(t.filter(pred) == (if pred(t.last()) {
                t.drop_last().filter(pred).push(t.last())
            } else {
                t.drop_last().filter(pred)
            }));
        }
        if diffs[i] > 0 {
            pos.push(diffs[i]);
        }
    }
    assert(diffs@.take(diffs@.len() as int) =~= diffs@);
    if pos.len() == 0 {
        return None;
    }
    let sorted = sorted_copy(&pos);
    proof {
        lemma_int_le_total();
        pos@.lemma_sort_by_ensures(|a: i64, b: i64| int_le(a, b));
        assert(sorted@.len() == pos@.len()) by {
            broadcast use vstd::seq_lib::group_to_multiset_ensures;

            assert(sorted@.to_multiset().len() == sorted@.len());
            assert(pos@.to_multiset().len() == pos@.len());
        }
        let v = sorted@[(sorted@.len() / 2) as int];
        assert(pos@.contains(v)) by {
            broadcast use vstd::seq_lib::group_to_multiset_ensures;

            assert(sorted@.contains(v));
            assert(sorted@.to_multiset().contains(v));
        }
        lemma_filter_subset(diffs@, pred, v);
    }
    Some(sorted[sorted.len() / 2])
}

/// `xs` lists the values of `vals` once each, in increasing order.
pub open spec fn lists_values(xs: Seq<i64>, vals: Set<i64>) -> bool {
    &&& forall|i: int, j: int| 0 <= i < j < xs.len() ==> #[trigger] xs[i] < #[trigger] xs[j]
    &&& forall|v: i64| vals.contains(v) <==> xs.contains(v)
}

/// `x` is above `after` (any value is when `after` is `None`).
pub open spec fn above(after: Option<i64>, x: i64) -> bool {
    match after {
        Some(a) => x > a,
        None => true,
    }
}

/// The least value of `vals` above `after` (any when `None`).
fn next_value(vals: &Vec<i64>, after: Option<i64>) -> (r: Option<i64>)
    ensures
        r matches Some(v) ==> vals@.contains(v) && above(after, v),
        r matches Some(v) ==> forall|k: int| 0 <= k < vals@.len() && above(after, #[trigger] vals@[k]) ==> v <= vals@[k],
        r is None ==> forall|k: int| 0 <= k < vals@.len() ==> !above(after, #[trigger] vals@[k]),
{
    let mut best: Option<i64> = None;
    for k in 0..vals.len()
        invariant
            best matches Some(v) ==> vals@.contains(v) && above(after, v),
            best matches Some(v) ==> forall|j: int| 0 <= j < k && above(after, #[trigger] vals@[j]) ==> v <= vals@[j],
            best is None ==> forall|j: int| 0 <= j < k ==> !above(after, #[trigger] vals@[j]),
    {
        let x = vals[k];
        let is_above = match after {
            Some(a) => x > a,
            None => true,
        };
        if is_above {
            let smaller = match best {
                Some(b) => x < b,
                None => true,
            };
            if smaller {
                best = Some(x);
                assert(vals@[k as int] == x);
            }
        }
    }
    best
}

/// Measure of the loop below: the values of an `i64` above `after`.
spec fn values_above(after: Option<i64>) -> int {
    match after {
        Some(a) => i64::MAX - a,
        None => i64::MAX - i64::MIN + 1,
    }
}

/// The values of `vals` once each, in increasing order.
fn distinct_sorted(vals: &Vec<i64>) -> (xs: Vec<i64>)
    ensures
        lists_values(xs@, vals@.to_set()),
{
    let mut xs: Vec<i64> = Vec::new();
    let mut last: Option<i64> = None;
    loop
        invariant
            forall|i: int, j: int| 0 <= i < j < xs@.len() ==> #[trigger] xs@[i] < #[trigger] xs@[j],
            forall|v: i64| xs@.contains(v) ==> vals@.contains(v),
            last is None <==> xs@.len() == 0,
            last matches Some(l) ==> xs@.last() == l,
            forall|k: int| 0 <= k < vals@.len() && !above(last, #[trigger] vals@[k]) ==> xs@.contains(vals@[k]),
        decreases values_above(last),
    {
        match next_value(vals, last) {
            None => {
                proof {
                    assert forall|v: i64| vals@.to_set().contains(v) <==> xs@.contains(v) by {
                        if vals@.contains(v) {
                            let k = choose|k: int| 0 <= k < vals@.len() && vals@[k] == v;
                            assert(!above(last, vals@[k]));
                        }
                    }
                }
                return xs;
            },
            Some(v) => {
                let ghost before = xs@;
                xs.push(v);
                proof {
                    assert(xs@ == before.push(v));
                    assert forall|i: int, j: int| 0 <= i < j < xs@.len() implies #[trigger] xs@[i] < #[trigger] xs@[j] by {
                        if j == before.len() {
                            if i < before.len() - 1 {
                                assert(before[i] < before[before.len() - 1]);
                            }
                        }
                    }
                    assert forall|w: i64| xs@.contains(w) implies vals@.contains(w) by {
                        if w != v {
                            let i = choose|i: int| 0 <= i < xs@.len() && xs@[i] == w;
                            assert(before[i] == w);
                        }
                    }
                    assert forall|k: int| 0 <= k < vals@.len() && !above(Some(v), #[trigger] vals@[k]) implies xs@.contains(
                        vals@[k],
                    ) by {
                        if !above(last, vals@[k]) {
                            let i = choose|i: int| 0 <= i < before.len() && before[i] == vals@[k];
                            assert(xs@[i] == vals@[k]);
                        } else {
                            assert(vals@[k] == v);
                            assert(xs@[before.len() as int] == v);
                        }
                    }
                }
                last = Some(v);
            },
        }
    }
}

// ---------------------------------------------------------------------------
// Lines through the dots, with synthetic lines in the gaps
// ---------------------------------------------------------------------------
/// The rows (`y`) or columns (`x`) of the dots.
pub open spec fn dot_positions(dots: Seq<DotCell>, rows: bool) -> Seq<i64> {
    Seq::new(dots.len(), |i: int| if rows { dots[i].y as i64 } else { dots[i].x as i64 })
}

/// Phase of the row or column of dots at `at`.
pub open spec fn line_phase(dots: Seq<DotCell>, pal: TypePalette, rows: bool, at: int) -> Option<int> {
    if rows {
        row_phase(dots, pal, at)
    } else {
        col_phase(dots, pal, at)
    }
}

/// Number of lines missing between two observed lines `diff` apart: by their phases when both
/// are known (none for consecutive phases, one when a phase is skipped, two for the same
/// phase), else by the spacing (the gap in steps, rounded, minus one, at most two).
pub open spec fn missing_lines(ph0: Option<int>, ph1: Option<int>, diff: int, step: int) -> int {
    match (ph0, ph1) {
        (Some(p0), Some(p1)) => {
            let steps = (p1 + 3 - p0) % 3;
            if steps == 1 {
                0
            } else if steps == 2 {
                1
            } else {
                2
            }
        },
        _ => {
            let q = (diff + step / 2) / step;
            let steps = if q >= 1 {
                q
            } else {
                1
            };
            if steps - 1 >= 2 {
                2
            } else {
                steps - 1
            }
        },
    }
}

/// `x` is a synthetic line between the observed lines `x0 < x1`: the gap must hold the
/// missing lines (`step * (missing + 1) - step / 2` at least), which split it in halves or
/// thirds.
pub open spec fn in_gap(x: int, x0: int, x1: int, ph0: Option<int>, ph1: Option<int>, step: int) -> bool {
    let diff = x1 - x0;
    let missing = missing_lines(ph0, ph1, diff, step);
    &&& diff > 0
    &&& diff >= step * (missing + 1) - step / 2
    &&& ((missing == 1 && x == x0 + diff / 2) || (missing == 2 && (x == x0 + diff / 3 || x == x0 + (2 * diff) / 3)))
}

/// `x` is a synthetic line before the first observed line `first`, one step apart, as many as
/// the phase of the first line shows missing.
pub open spec fn in_lead(x: int, first: int, ph: Option<int>, step: int, pad: bool) -> bool {
    pad && (ph matches Some(p) && ((p >= 1 && x == first - step) || (p >= 2 && x == first - 2 * step)))
}

/// `x` lies within the bounds (inclusive), if any.
pub open spec fn in_bounds(x: int, bounds: Option<(i64, i64)>) -> bool {
    match bounds {
        Some(b) => b.0 <= x <= b.1,
        None => true,
    }
}

/// The differences of consecutive lines.
pub open spec fn line_steps(xs: Seq<i64>) -> Seq<i64> {
    Seq::new((xs.len() - 1) as nat, |i: int| (xs[i + 1] - xs[i]) as i64)
}

/// The synthetic lines for the observed lines `xs` (in increasing order) and the step `step`.
pub open spec fn synthetic_lines(
    xs: Seq<i64>,
    dots: Seq<DotCell>,
    pal: TypePalette,
    rows: bool,
    step: int,
    bounds: Option<(i64, i64)>,
    pad: bool,
) -> Set<i64> {
    Set::new(
        |x: i64|
            in_bounds(x as int, bounds) && (in_lead(x as int, xs[0] as int, line_phase(dots, pal, rows, xs[0] as int), step, pad)
                || exists|i: int| 0 <= i < xs.len() - 1 && #[trigger] gap_at(xs, dots, pal, rows, step, i, x as int)),
    )
}

/// `all` and `synth` are the lines through the dots (rows when `rows`, else columns) with the
/// synthetic lines, and the synthetic lines alone, each in increasing order: with fewer than two
/// observed lines (or no positive step between them) the observed lines and no synthetic one;
/// otherwise the step is the median step between observed lines.
pub open spec fn lines_result(
    dots: Seq<DotCell>,
    pal: TypePalette,
    rows: bool,
    bounds: Option<(i64, i64)>,
    pad: bool,
    all: Seq<i64>,
    synth: Seq<i64>,
) -> bool {
    let vals = dot_positions(dots, rows).to_set();
    exists|xs: Seq<i64>|
        #[trigger] lists_values(xs, vals) && if xs.len() < 2 || median_of(line_steps(xs)) is None || median_of(
            line_steps(xs),
        )->0 <= 0 {
            all == xs && synth.len() == 0
        } else {
            let syn = synthetic_lines(xs, dots, pal, rows, median_of(line_steps(xs))->0 as int, bounds, pad);
            lists_values(all, vals + syn) && lists_values(synth, syn)
        }
}

/// `x` is a synthetic line in the gap after observed line `j`.
pub open spec fn gap_at(xs: Seq<i64>, dots: Seq<DotCell>, pal: TypePalette, rows: bool, step: int, j: int, x: int) -> bool {
    in_gap(
        x,
        xs[j] as int,
        xs[j + 1] as int,
        line_phase(dots, pal, rows, xs[j] as int),
        line_phase(dots, pal, rows, xs[j + 1] as int),
        step,
    )
}

/// The phase as an integer option.
pub open spec fn phase_int(ph: Option<i64>) -> Option<int> {
    match ph {
        Some(p) => Some(p as int),
        None => None,
    }
}

/// Number of lines missing between two observed lines `diff` apart.
fn missing_between(ph0: Option<i64>, ph1: Option<i64>, diff: i64, dx: i64) -> (m: i64)
    requires
        0 < dx < 0x1_0000_0000,
        0 < diff < 0x1_0000_0000,
        ph0 matches Some(p) ==> 0 <= p <= 2,
        ph1 matches Some(p) ==> 0 <= p <= 2,
    ensures
        m == missing_lines(phase_int(ph0), phase_int(ph1), diff as int, dx as int),
        0 <= m <= 2,
{
    match (ph0, ph1) {
        (Some(p0), Some(p1)) => {
            let steps = (p1 + 3 - p0) % 3;
            if steps == 1 {
                0
            } else if steps == 2 {
                1
            } else {
                2
            }
        },
        _ => {
            let q = (diff + dx / 2) / dx;
            let steps = if q >= 1 {
                q
            } else {
                1
            };
            if steps - 1 >= 2 {
                2
            } else {
                steps - 1
            }
        },
    }
}

/// The synthetic lines within `bounds` in the gap between the observed lines `x0 < x1`, given
/// the number of missing lines.
fn gap_candidates(x0: i64, x1: i64, missing: i64, dx: i64, bounds: Option<(i64, i64)>) -> (out: Vec<i64>)
    requires
        0 < dx < 0x1_0000_0000,
        0 <= missing <= 2,
        -0x8000_0000 <= x0 < x1 < 0x8000_0000,
    ensures
        forall|x: i64| #[trigger] out@.contains(x) <==> in_bounds(x as int, bounds) && {
            let diff = x1 - x0;
            &&& diff >= dx * (missing + 1) - dx / 2
            &&& ((missing == 1 && x == x0 + diff / 2) || (missing == 2 && (x == x0 + diff / 3 || x == x0 + (2 * diff)
                / 3)))
        },
{
    let diff = x1 - x0;
    let min_required = dx * (missing + 1) - dx / 2;
    let mut out: Vec<i64> = Vec::new();
    if diff >= min_required {
        if missing == 1 {
            let xa = x0 + diff / 2;
            let inb = match bounds {
                Some((lo, hi)) => lo <= xa && xa <= hi,
                None => true,
            };
            if inb {
                out.push(xa);
            }
        } else if missing == 2 {
            let xa = x0 + diff / 3;
            let xb = x0 + (2 * diff) / 3;
            let inb_a = match bounds {
                Some((lo, hi)) => lo <= xa && xa <= hi,
                None => true,
            };
            if inb_a {
                out.push(xa);
            }
            let inb_b = match bounds {
                Some((lo, hi)) => lo <= xb && xb <= hi,
                None => true,
            };
            if inb_b {
                out.push(xb);
            }
        }
    }
    proof {
        assert forall|x: i64| #[trigger] out@.contains(x) <==> in_bounds(x as int, bounds) && {
            let diff = x1 - x0;
            &&& diff >= dx * (missing + 1) - dx / 2
            &&& ((missing == 1 && x == x0 + diff / 2) || (missing == 2 && (x == x0 + diff / 3 || x == x0 + (2 * diff)
                / 3)))
        } by {
            if out@.len() == 2 {
                assert(out@[0] == x0 + diff / 3 && out@[1] == x0 + (2 * diff) / 3);
            } else if out@.len() == 1 {
                assert(out@[0] == x0 + diff / 2 || out@[0] == x0 + diff / 3 || out@[0] == x0 + (2 * diff) / 3);
            }
        }
    }
    out
}

/// One gap of the scan: the candidates after it are those before and those of gap `i`.
proof fn lemma_gap_step(
    xs: Seq<i64>,
    dots: Seq<DotCell>,
    pal: TypePalette,
    rows: bool,
    step: int,
    bounds: Option<(i64, i64)>,
    pad: bool,
    i: int,
    before: Seq<i64>,
    gap: Seq<i64>,
    after: Seq<i64>,
)
    requires
        0 <= i < xs.len() - 1,
        after == before + gap,
        forall|x: i64| #[trigger] gap.contains(x) <==> in_bounds(x as int, bounds) && gap_at(xs, dots, pal, rows, step, i, x as int),
        forall|x: i64| #[trigger] before.contains(x) ==> synthetic_lines(xs, dots, pal, rows, step, bounds, pad).contains(x),
        forall|x: i64|
            synthetic_lines(xs, dots, pal, rows, step, bounds, pad).contains(x) && (in_lead(x as int, xs[0] as int, line_phase(dots, pal, rows, xs[0] as int), step, pad)
                || exists|j: int| 0 <= j < i && #[trigger] gap_at(xs, dots, pal, rows, step, j, x as int))
                ==> #[trigger] before.contains(x),
    ensures
        forall|x: i64| #[trigger] after.contains(x) ==> synthetic_lines(xs, dots, pal, rows, step, bounds, pad).contains(x),
        forall|x: i64|
            synthetic_lines(xs, dots, pal, rows, step, bounds, pad).contains(x) && (in_lead(x as int, xs[0] as int, line_phase(dots, pal, rows, xs[0] as int), step, pad)
                || exists|j: int| 0 <= j < i + 1 && #[trigger] gap_at(xs, dots, pal, rows, step, j, x as int))
                ==> #[trigger] after.contains(x),
{
    let syn = synthetic_lines(xs, dots, pal, rows, step, bounds, pad);
    assert forall|x: i64| #[trigger] after.contains(x) implies syn.contains(x) by {
        let k = choose|k: int| 0 <= k < after.len() && after[k] == x;
        if k < before.len() {
            assert(before[k] == x);
            assert(before.contains(x));
        } else {
            assert(gap[k - before.len()] == x);
            assert(gap.contains(x));
            assert(gap_at(xs, dots, pal, rows, step, i, x as int));
            assert(in_bounds(x as int, bounds));
        }
    }
    assert forall|x: i64|
        syn.contains(x) && (in_lead(x as int, xs[0] as int, line_phase(dots, pal, rows, xs[0] as int), step, pad)
            || exists|j: int| 0 <= j < i + 1 && #[trigger] gap_at(xs, dots, pal, rows, step, j, x as int)) implies #[trigger] after.contains(x) by {
        if !in_lead(x as int, xs[0] as int, line_phase(dots, pal, rows, xs[0] as int), step, pad) {
            let j = choose|j: int| 0 <= j < i + 1 && #[trigger] gap_at(xs, dots, pal, rows, step, j, x as int);
            if j == i {
                assert(gap.contains(x));
                let k = choose|k: int| 0 <= k < gap.len() && gap[k] == x;
                assert(after[before.len() + k] == x);
            } else {
                assert(before.contains(x));
                let k = choose|k: int| 0 <= k < before.len() && before[k] == x;
                assert(after[k] == x);
            }
        } else {
            assert(before.contains(x));
            let k = choose|k: int| 0 <= k < before.len() && before[k] == x;
            assert(after[k] == x);
        }
    }
}

/// Phase of the row or column of dots at `at`.
fn line_phase_of(dots: &Vec<DotCell>, pal: &TypePalette, rows: bool, at: i64) -> (ph: Option<i64>)
    ensures
        phase_int(ph) == line_phase(dots@, *pal, rows, at as int),
        ph matches Some(p) ==> 0 <= p <= 2,
{
    if rows {
        match row_kind_for_y(dots, at, pal) {
            RowKind::Green => Some(0),
            RowKind::Mid => Some(1),
            RowKind::Orange => Some(2),
            RowKind::Unknown => None,
        }
    } else {
        match col_kind_for_x(dots, at, pal) {
            ColKind::Blue => Some(0),
            ColKind::Vertical => Some(1),
            ColKind::Magenta => Some(2),
            ColKind::Unknown => None,
        }
    }
}

/// The positions of the lines through the dots (rows when `rows`, else columns) with synthetic
/// lines where the phases or the spacing show lines missing, both in increasing order, and the
/// synthetic lines alone: leading ones before the first line when `pad_leading`, and only those
/// within `bounds`.
pub fn lines_with_synthetic(
    dots: &Vec<DotCell>,
    pal: &TypePalette,
    rows: bool,
    bounds: Option<(i64, i64)>,
    pad_leading: bool,
) -> (res: (Vec<i64>, Vec<i64>))
    ensures
        lines_result(dots@, *pal, rows, bounds, pad_leading, res.0@, res.1@),
        forall|i: int, j: int| 0 <= i < j < res.0@.len() ==> #[trigger] res.0@[i] < #[trigger] res.0@[j],
        forall|i: int, j: int| 0 <= i < j < res.1@.len() ==> #[trigger] res.1@[i] < #[trigger] res.1@[j],
{
    let ghost dv = dots@;
    let mut vals: Vec<i64> = Vec::new();
    for i in 0..dots.len()
        invariant
            dv == dots@,
            vals@ == dot_positions(dv, rows).take(i as int),
    {
        let d = dots[i];
        vals.push(if rows {
            d.y as i64
        } else {
            d.x as i64
        });
        assert(vals@ =~= dot_positions(dv, rows).take(i + 1));
    }
    assert(vals@ =~= dot_positions(dv, rows));
    let ghost vset = dot_positions(dv, rows).to_set();
    let xs = distinct_sorted(&vals);
    assert(lists_values(xs@, vset));
    let n = xs.len();
    if n < 2 {
        return (xs, Vec::new());
    }
    proof {
        assert forall|i: int| 0 <= i < n implies -0x8000_0000 <= #[trigger] xs@[i] < 0x8000_0000 by {
            assert(xs@.contains(xs@[i]));
            assert(vals@.contains(xs@[i]));
            let k = choose|k: int| 0 <= k < vals@.len() && vals@[k] == xs@[i];
        }
    }
    let mut diffs: Vec<i64> = Vec::new();
    for i in 0..n - 1
        invariant
            n == xs@.len(),
            n >= 2,
            forall|i: int| 0 <= i < n ==> -0x8000_0000 <= #[trigger] xs@[i] < 0x8000_0000,
            diffs@ == line_steps(xs@).take(i as int),
    {
        assert(-0x8000_0000 <= xs@[i + 1] < 0x8000_0000 && -0x8000_0000 <= xs@[i as int] < 0x8000_0000);
        diffs.push(xs[i + 1] - xs[i]);
        assert(diffs@ =~= line_steps(xs@).take(i + 1));
    }
    assert(diffs@ =~= line_steps(xs@));
    let dx = match median_step(diffs) {
        Some(d) => d,
        None => {
            return (xs, Vec::new());
        },
    };
    if dx <= 0 {
        return (xs, Vec::new());
    }
    proof {
        let k = choose|k: int| 0 <= k < line_steps(xs@).len() && line_steps(xs@)[k] == dx;
        assert(dx == xs@[k + 1] - xs@[k]);
        assert(-0x8000_0000 <= xs@[k + 1] < 0x8000_0000 && -0x8000_0000 <= xs@[k] < 0x8000_0000);
    }
    let ghost step = dx as int;
    let ghost syn = synthetic_lines(xs@, dv, *pal, rows, step, bounds, pad_leading);
    let mut cand: Vec<i64> = Vec::new();
    let first = xs[0];
    if pad_leading {
        if let Some(p) = line_phase_of(dots, pal, rows, first) {
            if p >= 2 {
                let x = first - dx * 2;
                let inb = match bounds {
                    Some((lo, hi)) => lo <= x && x <= hi,
                    None => true,
                };
                if inb {
                    cand.push(x);
                }
            }
            if p >= 1 {
                let x = first - dx;
                let inb = match bounds {
                    Some((lo, hi)) => lo <= x && x <= hi,
                    None => true,
                };
                if inb {
                    cand.push(x);
                }
            }
        }
    }
    proof {
        assert forall|x: i64| #[trigger] cand@.contains(x) implies syn.contains(x) by {}
        assert forall|x: i64| syn.contains(x) && in_lead(x as int, first as int, line_phase(dv, *pal, rows, first as int), step, pad_leading)
            implies #[trigger] cand@.contains(x) by {
            if x == first - step {
                assert(cand@[cand@.len() - 1] == x);
            } else {
                assert(cand@[0] == x);
            }
        }
    }
    for i in 0..n - 1
        invariant
            dv == dots@,
            n == xs@.len(),
            n >= 2,
            forall|i: int| 0 <= i < n ==> -0x8000_0000 <= #[trigger] xs@[i] < 0x8000_0000,
            forall|i: int, j: int| 0 <= i < j < n ==> #[trigger] xs@[i] < #[trigger] xs@[j],
            first == xs@[0],
            step == dx,
            0 < dx < 0x1_0000_0000,
            syn == synthetic_lines(xs@, dv, *pal, rows, step, bounds, pad_leading),
            forall|x: i64| #[trigger] cand@.contains(x) ==> syn.contains(x),
            forall|x: i64|
                syn.contains(x) && (in_lead(x as int, first as int, line_phase(dv, *pal, rows, first as int), step, pad_leading)
                    || exists|j: int| 0 <= j < i && #[trigger] gap_at(xs@, dv, *pal, rows, step, j, x as int))
                    ==> #[trigger] cand@.contains(x),
    {
        let x0 = xs[i];
        let x1 = xs[i + 1];
        assert(-0x8000_0000 <= x0 < 0x8000_0000 && -0x8000_0000 <= x1 < 0x8000_0000 && x0 < x1);
        let ph0 = line_phase_of(dots, pal, rows, x0);
        let ph1 = line_phase_of(dots, pal, rows, x1);
        let missing = missing_between(ph0, ph1, x1 - x0, dx);
        let gap = gap_candidates(x0, x1, missing, dx, bounds);
        let ghost before = cand@;
        let mut k: usize = 0;
        while k < gap.len()
            invariant
                cand@ == before + gap@.take(k as int),
                k <= gap@.len(),
            decreases gap@.len() - k,
        {
            cand.push(gap[k]);
            k += 1;
            assert(cand@ =~= before + gap@.take(k as int));
        }
        proof {
            assert(gap@.take(gap@.len() as int) =~= gap@);
            lemma_gap_step(xs@, dv, *pal, rows, step, bounds, pad_leading, i as int, before, gap@, cand@);
        }
    }
    let synth = distinct_sorted(&cand);
    let mut all_vals = xs.clone();
    let mut k: usize = 0;
    while k < cand.len()
        invariant
            all_vals@ == xs@ + cand@.take(k as int),
            k <= cand@.len(),
        decreases cand@.len() - k,
    {
        all_vals.push(cand[k]);
        k += 1;
        assert(all_vals@ =~= xs@ + cand@.take(k as int));
    }
    assert(cand@.take(cand@.len() as int) =~= cand@);
    let all = distinct_sorted(&all_vals);
    proof {
        assert forall|x: i64| syn.contains(x) <==> cand@.to_set().contains(x) by {
            if syn.contains(x) {
                if !in_lead(x as int, first as int, line_phase(dv, *pal, rows, first as int), step, pad_leading) {
                    let j = choose|j: int| 0 <= j < xs@.len() - 1 && #[trigger] gap_at(xs@, dv, *pal, rows, step, j, x as int);
                }
            }
        }
        assert(cand@.to_set() =~= syn);
        assert forall|x: i64| (vset + syn).contains(x) <==> all_vals@.to_set().contains(x) by {
            if xs@.contains(x) {
                let k = choose|k: int| 0 <= k < xs@.len() && xs@[k] == x;
                assert(all_vals@[k] == x);
            }
            if cand@.contains(x) {
                let k = choose|k: int| 0 <= k < cand@.len() && cand@[k] == x;
                assert(all_vals@[xs@.len() + k] == x);
            }
            if all_vals@.contains(x) {
                let k = choose|k: int| 0 <= k < all_vals@.len() && all_vals@[k] == x;
                if k < xs@.len() {
                    assert(xs@[k] == x);
                } else {
                    assert(cand@[k - xs@.len()] == x);
                }
            }
        }
        assert(all_vals@.to_set() =~= vset + syn);
        assert(lists_values(xs@, vset));
    }
    (all, synth)
}

// ---------------------------------------------------------------------------
// The grid of arrows at the intersections
// ---------------------------------------------------------------------------
/// The arrow of the first dot (in the order given) at `(x, y)` that shows one, if any.
pub open spec fn arrow_at(dots: Seq<DotCell>, pal: TypePalette, x: int, y: int) -> Option<char>
    decreases dots.len(),
{
    if dots.len() == 0 {
        None
    } else {
        let prev = arrow_at(dots.drop_last(), pal, x, y);
        if prev is Some {
            prev
        } else if dots.last().x == x && dots.last().y == y {
            dot_arrow(dots.last(), pal)
        } else {
            None
        }
    }
}

/// The character shown for an intersection: its arrow, or a space.
pub open spec fn cell_char(a: Option<char>) -> char {
    match a {
        Some(c) => c,
        None => ' ',
    }
}

/// `g` has a row per line `ys` and a column per line `xs`, and each cell holds the arrow at
/// its intersection (or a space).
pub open spec fn intersection_cells(
    dots: Seq<DotCell>,
    pal: TypePalette,
    xs: Seq<i64>,
    ys: Seq<i64>,
    g: Seq<Seq<Seq<char>>>,
) -> bool {
    &&& g.len() == ys.len()
    &&& forall|r: int| 0 <= r < ys.len() ==> (#[trigger] g[r]).len() == xs.len()
    &&& forall|r: int, c: int|
        0 <= r < ys.len() && 0 <= c < xs.len() ==> #[trigger] g[r][c] == seq![
            cell_char(arrow_at(dots, pal, xs[c] as int, ys[r] as int)),
        ]
}

/// An arrow is never a space.
proof fn lemma_arrow_at_not_space(dots: Seq<DotCell>, pal: TypePalette, x: int, y: int)
    ensures
        arrow_at(dots, pal, x, y) matches Some(a) ==> a != ' ',
    decreases dots.len(),
{
    if dots.len() > 0 {
        lemma_arrow_at_not_space(dots.drop_last(), pal, x, y);
    }
}

/// Index of `v` among the increasing `lines`, if it is one of them.
fn line_index(lines: &Vec<i64>, v: i64) -> (r: Option<usize>)
    requires
        forall|i: int, j: int| 0 <= i < j < lines@.len() ==> #[trigger] lines@[i] < #[trigger] lines@[j],
    ensures
        r matches Some(i) ==> i < lines@.len() && lines@[i as int] == v,
        r is None ==> !lines@.contains(v),
{
    let mut lo: usize = 0;
    let mut hi: usize = lines.len();
    while lo < hi
        invariant
            lo <= hi <= lines@.len(),
            forall|i: int, j: int| 0 <= i < j < lines@.len() ==> #[trigger] lines@[i] < #[trigger] lines@[j],
            forall|k: int| 0 <= k < lo ==> #[trigger] lines@[k] < v,
            forall|k: int| hi <= k < lines@.len() ==> #[trigger] lines@[k] > v,
        decreases hi - lo,
    {
        let mid = lo + (hi - lo) / 2;
        if lines[mid] == v {
            return Some(mid);
        } else if lines[mid] < v {
            lo = mid + 1;
        } else {
            hi = mid;
        }
    }
    proof {
        if lines@.contains(v) {
            let k = choose|k: int| 0 <= k < lines@.len() && lines@[k] == v;
            assert(lines@[k] == v);
        }
    }
    None
}

/// The intersection grid: a row per line through the dot centers (`y`) and a column per
/// line (`x`), with the synthetic lines where the phases show a whole row or column missing
/// (leading ones too); each intersection holds the arrow of the first dot there that shows one,
/// else a space.
pub fn build_intersection_grid(dots: &Vec<DotCell>, pal: &TypePalette) -> (grid: Vec<Vec<String>>)
    ensures
        exists|xs: Seq<i64>, sx: Seq<i64>, ys: Seq<i64>, sy: Seq<i64>|
            #![trigger lines_result(dots@, *pal, false, None, true, xs, sx), lines_result(dots@, *pal, true, None, true, ys, sy)]
            lines_result(dots@, *pal, false, None, true, xs, sx) && lines_result(dots@, *pal, true, None, true, ys, sy)
                && intersection_cells(dots@, *pal, xs, ys, grid.deep_view()),
{
    let ghost dv = dots@;
    let (xs, sx) = lines_with_synthetic(dots, pal, false, None, true);
    let (ys, sy) = lines_with_synthetic(dots, pal, true, None, true);
    let w = xs.len();
    let h = ys.len();
    let mut cells: Vec<Vec<char>> = Vec::new();
    for r in 0..h
        invariant
            cells@.len() == r,
            forall|k: int| 0 <= k < r ==> (#[trigger] cells@[k])@ == Seq::new(w as nat, |c: int| ' '),
    {
        let mut row: Vec<char> = Vec::new();
        for c in 0..w
            invariant
                row@ == Seq::new(c as nat, |c: int| ' '),
        {
            row.push(' ');
            assert(row@ =~= Seq::new((c + 1) as nat, |c: int| ' '));
        }
        cells.push(row);
    }
    proof {
        assert forall|r: int, c: int| 0 <= r < h && 0 <= c < w implies #[trigger] cells@[r]@[c] == cell_char(
            arrow_at(dv.take(0), *pal, xs@[c] as int, ys@[r] as int),
        ) by {
            assert(cells@[r]@ == Seq::new(w as nat, |c: int| ' '));
        }
    }
    for i in 0..dots.len()
        invariant
            dv == dots@,
            xs@.len() == w,
            ys@.len() == h,
            forall|i: int, j: int| 0 <= i < j < xs@.len() ==> #[trigger] xs@[i] < #[trigger] xs@[j],
            forall|i: int, j: int| 0 <= i < j < ys@.len() ==> #[trigger] ys@[i] < #[trigger] ys@[j],
            cells@.len() == h,
            forall|r: int| 0 <= r < h ==> (#[trigger] cells@[r])@.len() == w,
            forall|r: int, c: int|
                0 <= r < h && 0 <= c < w ==> #[trigger] cells@[r]@[c] == cell_char(
                    arrow_at(dv.take(i as int), *pal, xs@[c] as int, ys@[r] as int),
                ),
    {
        let d = dots[i];
        let ghost prev = cells@;
        proof {
            assert(dv.take(i + 1).drop_last() =~= dv.take(i as int));
            assert(dv.take(i + 1).last() == d);
        }
        if let Some(ch) = arrow_for_dot(&d, pal) {
            if let (Some(cx), Some(ry)) = (line_index(&xs, d.x as i64), line_index(&ys, d.y as i64)) {
                if cells[ry][cx] == ' ' {
                    cells.push(Vec::new());
                    let mut row = cells.swap_remove(ry);
                    row.set(cx, ch);
                    cells.set(ry, row);
                    assert(cells@.len() == prev.len());
                    assert(forall|r: int| 0 <= r < h && r != ry ==> cells@[r] == prev[r]);
                    assert(cells@[ry as int]@ == prev[ry as int]@.update(cx as int, ch));
                }
            }
        }
        proof {
            assert forall|r: int, c: int| 0 <= r < h && 0 <= c < w implies #[trigger] cells@[r]@[c] == cell_char(
                arrow_at(dv.take(i + 1), *pal, xs@[c] as int, ys@[r] as int),
            ) by {
                lemma_arrow_at_not_space(dv.take(i as int), *pal, xs@[c] as int, ys@[r] as int);
                if d.x == xs@[c] && d.y == ys@[r] {
                    assert(xs@.contains(xs@[c]));
                    assert(ys@.contains(ys@[r]));
                }
            }
        }
    }
    assert(dv.take(dots@.len() as int) =~= dv);
    let mut grid: Vec<Vec<String>> = Vec::new();
    for r in 0..h
        invariant
            dv == dots@,
            xs@.len() == w,
            ys@.len() == h,
            cells@.len() == h,
            forall|r: int| 0 <= r < h ==> (#[trigger] cells@[r])@.len() == w,
            forall|r: int, c: int|
                0 <= r < h && 0 <= c < w ==> #[trigger] cells@[r]@[c] == cell_char(
                    arrow_at(dv, *pal, xs@[c] as int, ys@[r] as int),
                ),
            grid@.len() == r,
            forall|k: int| 0 <= k < r ==> (#[trigger] grid@[k])@.len() == w,
            forall|k: int, c: int|
                0 <= k < r && 0 <= c < w ==> #[trigger] grid@[k]@[c]@ == seq![
                    cell_char(arrow_at(dv, *pal, xs@[c] as int, ys@[k] as int)),
                ],
    {
        let mut out_row: Vec<String> = Vec::new();
        for c in 0..w
            invariant
                dv == dots@,
                xs@.len() == w,
                ys@.len() == h,
                r < h,
                cells@.len() == h,
                forall|r: int| 0 <= r < h ==> (#[trigger] cells@[r])@.len() == w,
                forall|r: int, c: int|
                    0 <= r < h && 0 <= c < w ==> #[trigger] cells@[r]@[c] == cell_char(
                        arrow_at(dv, *pal, xs@[c] as int, ys@[r] as int),
                    ),
                out_row@.len() == c,
                forall|k: int|
                    0 <= k < c ==> #[trigger] out_row@[k]@ == seq![
                        cell_char(arrow_at(dv, *pal, xs@[k] as int, ys@[r as int] as int)),
                    ],
        {
            let s = char_to_string(cells[r][c]);
            out_row.push(s);
        }
        grid.push(out_row);
    }
    proof {
        let g = grid.deep_view();
        assert forall|r: int| 0 <= r < h implies (#[trigger] g[r]).len() == w by {
            assert(g[r] == grid@[r].deep_view());
        }
        assert forall|r: int, c: int| 0 <= r < h && 0 <= c < w implies #[trigger] g[r][c] == seq![
            cell_char(arrow_at(dv, *pal, xs@[c] as int, ys@[r] as int)),
        ] by {
            assert(g[r] == grid@[r].deep_view());
            assert(g[r][c] == grid@[r]@[c]@);
        }
        assert(intersection_cells(dv, *pal, xs@, ys@, g));
    }
    grid
}

proof fn lemma_arrow_at_some(dots: Seq<DotCell>, pal: TypePalette, i: int)
    requires
        0 <= i < dots.len(),
        dot_arrow(dots[i], pal) is Some,
    ensures
        arrow_at(dots, pal, dots[i].x as int, dots[i].y as int) is Some,
    decreases dots.len(),
{
    if i < dots.len() - 1 {
        lemma_arrow_at_some(dots.drop_last(), pal, i);
    }
}

proof fn lemma_line_listed(dots: Seq<DotCell>, pal: TypePalette, rows: bool, all: Seq<i64>, synth: Seq<i64>, i: int) -> (k: int)
    requires
        lines_result(dots, pal, rows, None, true, all, synth),
        0 <= i < dots.len(),
    ensures
        0 <= k < all.len(),
        all[k] == (if rows { dots[i].y as i64 } else { dots[i].x as i64 }),
{
    let vals = dot_positions(dots, rows).to_set();
    let v = dot_positions(dots, rows)[i];
    assert(vals.contains(v));
    let xs = choose|xs: Seq<i64>|
        #[trigger] lists_values(xs, vals) && if xs.len() < 2 || median_of(line_steps(xs)) is None || median_of(
            line_steps(xs),
        )->0 <= 0 {
            all == xs && synth.len() == 0
        } else {
            let syn = synthetic_lines(xs, dots, pal, rows, median_of(line_steps(xs))->0 as int, None, true);
            lists_values(all, vals + syn) && lists_values(synth, syn)
        };
    assert(all.contains(v));
    choose|k: int| 0 <= k < all.len() && all[k] == v
}

/// Every dot whose type shows an arrow is placed in the intersection grid: at the row of its
/// `y` and the column of its `x` stands an arrow (that of the first such dot there).
pub proof fn lemma_every_arrow_dot_is_placed(
    dots: Seq<DotCell>,
    pal: TypePalette,
    xs: Seq<i64>,
    sx: Seq<i64>,
    ys: Seq<i64>,
    sy: Seq<i64>,
    g: Seq<Seq<Seq<char>>>,
    i: int,
)
    requires
        lines_result(dots, pal, false, None, true, xs, sx),
        lines_result(dots, pal, true, None, true, ys, sy),
        intersection_cells(dots, pal, xs, ys, g),
        0 <= i < dots.len(),
        dot_arrow(dots[i], pal) is Some,
    ensures
        exists|r: int, c: int|
            0 <= r < ys.len() && 0 <= c < xs.len() && xs[c] == dots[i].x && ys[r] == dots[i].y && #[trigger] g[r][c]
                == seq![arrow_at(dots, pal, dots[i].x as int, dots[i].y as int)->0],
{
    let c = lemma_line_listed(dots, pal, false, xs, sx, i);
    let r = lemma_line_listed(dots, pal, true, ys, sy, i);
    lemma_arrow_at_some(dots, pal, i);
    assert(g[r][c] == seq![cell_char(arrow_at(dots, pal, xs[c] as int, ys[r] as int))]);
}

} // verus!
