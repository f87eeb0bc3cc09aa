//! Groups of foreground pixels in a binary image stored row by row (`width` values per row):
//! the edge map of the groups, connected groups with their pixel statistics, an anchor pixel
//! inside each group, and the RGB pictures drawn from them.
use vstd::prelude::*;
use vstd::arithmetic::div_mod::{lemma_fundamental_div_mod, lemma_fundamental_div_mod_converse};

use std::collections::VecDeque;

use crate::foreground::{foreground_count, inverted};

verus! {

// ---------------------------------------------------------------------------
// Pixels and their neighbours
// ---------------------------------------------------------------------------
/// Pixels `p` and `q` of a `w` x `h` image are 4-neighbours: same row and adjacent columns, or
/// same column and adjacent rows.
pub open spec fn adjacent(w: int, h: int, p: int, q: int) -> bool {
    &&& 0 <= p < w * h
    &&& 0 <= q < w * h
    &&& ((q / w == p / w && (q % w == p % w + 1 || p % w == q % w + 1)) || (q % w == p % w && (q / w == p / w + 1
        || p / w == q / w + 1)))
}

pub(crate) proof fn lemma_row_bound(w: int, h: int, p: int)
    requires
        0 < w,
        0 < h,
        0 <= p < w * h,
    ensures
        0 <= p / w < h,
        0 <= p % w < w,
        p == (p / w) * w + p % w,
        p % w <= p,
        p / w > 0 ==> p >= w,
{
    lemma_fundamental_div_mod(p, w);
    let y = p / w;
    let x = p % w;
    assert(p == y * w + x) by (nonlinear_arith)
        requires
            p == w * y + x,
    ;
    assert(0 <= y < h) by (nonlinear_arith)
        requires
            p == y * w + x,
            0 <= x < w,
            0 <= p < w * h,
            0 < w,
    ;
    assert(y * w >= 0 && (y > 0 ==> y * w >= w)) by (nonlinear_arith)
        requires
            0 <= y,
            0 < w,
    ;
}

pub(crate) proof fn lemma_positive_dims(w: int, h: int, p: int)
    requires
        0 <= w,
        0 <= h,
        0 <= p < w * h,
    ensures
        0 < w,
        0 < h,
{
    assert(0 < w && 0 < h) by (nonlinear_arith)
        requires
            0 <= w,
            0 <= h,
            0 <= p < w * h,
    ;
}

/// The 4-neighbours of pixel `p` are the pixels before and after it in its row, and above and
/// below it, where these exist.
pub(crate) proof fn lemma_neighbors(w: int, h: int, p: int)
    requires
        0 < w,
        0 < h,
        0 <= p < w * h,
    ensures
        p % w > 0 ==> adjacent(w, h, p, p - 1) && (p - 1) % w == p % w - 1 && (p - 1) / w == p / w,
        p % w + 1 < w ==> adjacent(w, h, p, p + 1) && (p + 1) % w == p % w + 1 && (p + 1) / w == p / w,
        p / w > 0 ==> adjacent(w, h, p, p - w) && (p - w) % w == p % w && (p - w) / w == p / w - 1,
        p / w + 1 < h ==> adjacent(w, h, p, p + w) && (p + w) % w == p % w && (p + w) / w == p / w + 1,
        forall|q: int|
            #[trigger] adjacent(w, h, p, q) ==> (q == p - 1 && p % w > 0) || (q == p + 1 && p % w + 1 < w) || (q == p - w
                && p / w > 0) || (q == p + w && p / w + 1 < h),
{
    lemma_row_bound(w, h, p);
    let x = p % w;
    let y = p / w;
    if x > 0 {
        lemma_fundamental_div_mod_converse(p - 1, w, y, x - 1);
    }
    if x + 1 < w {
        lemma_fundamental_div_mod_converse(p + 1, w, y, x + 1);
        assert((y + 1) * w <= w * h) by (nonlinear_arith)
            requires
                0 <= y < h,
                0 < w,
        ;
        assert(p + 1 < (y + 1) * w) by (nonlinear_arith)
            requires
                p == y * w + x,
                x + 1 < w,
        ;
    }
    if y > 0 {
        assert(p - w == (y - 1) * w + x) by (nonlinear_arith)
            requires
                p == y * w + x,
        ;
        lemma_fundamental_div_mod_converse(p - w, w, y - 1, x);
    }
    if y + 1 < h {
        assert(p + w == (y + 1) * w + x) by (nonlinear_arith)
            requires
                p == y * w + x,
        ;
        lemma_fundamental_div_mod_converse(p + w, w, y + 1, x);
        assert(p + w < w * h) by (nonlinear_arith)
            requires
                p + w == (y + 1) * w + x,
                0 <= x < w,
                y + 1 < h,
                0 < w,
        ;
    }
    assert forall|q: int| #[trigger] adjacent(w, h, p, q) implies (q == p - 1 && p % w > 0) || (q == p + 1 && p % w + 1
        < w) || (q == p - w && p / w > 0) || (q == p + w && p / w + 1 < h) by {
        lemma_row_bound(w, h, q);
        let qx = q % w;
        let qy = q / w;
        if qy == y {
            assert(q == y * w + qx);
        } else if qy == y + 1 {
            assert(q == (y + 1) * w + x);
            assert((y + 1) * w == y * w + w) by (nonlinear_arith);
        } else {
            assert(q == (y - 1) * w + x);
            assert((y - 1) * w == y * w - w) by (nonlinear_arith);
        }
    }
}

// ---------------------------------------------------------------------------
// Edges
// ---------------------------------------------------------------------------
/// Pixel `p` is on the edge of a group: it is foreground and one of its 4-neighbours is
/// background.
pub open spec fn is_edge(bin: Seq<u8>, w: int, h: int, p: int) -> bool {
    bin[p] != 0 && exists|q: int| #[trigger] adjacent(w, h, p, q) && bin[q] == 0
}

/// The edge map: 255 on the edge pixels of the groups, 0 elsewhere.
pub open spec fn edge_map_of(bin: Seq<u8>, w: int, h: int) -> Seq<u8> {
    Seq::new((w * h) as nat, |p: int| if is_edge(bin, w, h, p) { 255u8 } else { 0u8 })
}

/// The edge map of a `width` x `height` binary image: 255 on each foreground pixel that has a
/// background 4-neighbour, 0 elsewhere.
pub fn edge_map(bin: &Vec<u8>, width: usize, height: usize) -> (edges: Vec<u8>)
    requires
        bin@.len() == width * height,
    ensures
        edges@ == edge_map_of(bin@, width as int, height as int),
{
    let ghost w = width as int;
    let ghost h = height as int;
    let n = bin.len();
    let mut edges: Vec<u8> = Vec::new();
    let mut p: usize = 0;
    while p < n
        invariant
            w == width as int,
            h == height as int,
            n == w * h,
            bin@.len() == n,
            p <= n,
            edges@.len() == p,
            forall|k: int| 0 <= k < p ==> edges@[k] == (if is_edge(bin@, w, h, k) { 255u8 } else { 0u8 }),
        decreases n - p,
    {
        proof {
            lemma_positive_dims(w, h, p as int);
            lemma_neighbors(w, h, p as int);
            lemma_row_bound(w, h, p as int);
        }
        let x = p % width;
        let y = p / width;
        let mut edge = false;
        if bin[p] != 0 {
            if x > 0 && bin[p - 1] == 0 {
                edge = true;
            }
            if x + 1 < width && bin[p + 1] == 0 {
                edge = true;
            }
            if y > 0 && bin[p - width] == 0 {
                edge = true;
            }
            if y + 1 < height && bin[p + width] == 0 {
                edge = true;
            }
        }
        proof {
            let pi = p as int;
            if edge {
                if x > 0 && bin@[pi - 1] == 0 {
                    assert(adjacent(w, h, pi, pi - 1));
                } else if x + 1 < width && bin@[pi + 1] == 0 {
                    assert(adjacent(w, h, pi, pi + 1));
                } else if y > 0 && bin@[pi - w] == 0 {
                    assert(adjacent(w, h, pi, pi - w));
                } else {
                    assert(adjacent(w, h, pi, pi + w));
                }
            }
        }
        edges.push(if edge {
            255u8
        } else {
            0u8
        });
        p += 1;
    }
    assert(edges@ =~= edge_map_of(bin@, w, h));
    edges
}

// ---------------------------------------------------------------------------
// Majority foreground
// ---------------------------------------------------------------------------
/// Inverts the binary image when more than half of it is foreground (zeros become 255, all
/// other values 0), and tells whether it did.
pub fn invert_if_majority(bin: &mut Vec<u8>) -> (did: bool)
    ensures
        did == (2 * foreground_count(old(bin)@, old(bin)@.len() as int) > old(bin)@.len()),
        final(bin)@ == (if did { inverted(old(bin)@) } else { old(bin)@ }),
{
    let ghost b0 = bin@;
    let n = bin.len();
    let mut fg: usize = 0;
    for i in 0..n
        invariant
            bin@ == b0,
            n == b0.len(),
            fg == foreground_count(b0, i as int),
            fg <= i,
    {
        if bin[i] != 0 {
            fg += 1;
        }
    }
    if fg <= n - fg {
        return false;
    }
    for i in 0..n
        invariant
            n == b0.len(),
            bin@.len() == n,
            forall|k: int| 0 <= k < i ==> bin@[k] == inverted(b0)[k],
            forall|k: int| i <= k < n ==> bin@[k] == b0[k],
    {
        let v = if bin[i] == 0 {
            255u8
        } else {
            0u8
        };
        bin.set(i, v);
    }
    assert(bin@ =~= inverted(b0));
    true
}

// ---------------------------------------------------------------------------
// RGB pictures
// ---------------------------------------------------------------------------
/// RGB picture of the edges over the grayscale image: red on edge pixels, gray elsewhere.
pub open spec fn edge_overlay_of(gray: Seq<u8>, edges: Seq<u8>) -> Seq<u8> {
    Seq::new(
        3 * gray.len(),
        |i: int|
            {
                let p = i / 3;
                if edges[p] != 0 {
                    if i % 3 == 0 {
                        255u8
                    } else {
                        0u8
                    }
                } else {
                    gray[p]
                }
            },
    )
}

/// RGB picture of the edges over the grayscale image: red where the edge map is non-zero, the
/// gray value in all three channels elsewhere.
pub fn edge_overlay(gray: &Vec<u8>, edges: &Vec<u8>) -> (rgb: Vec<u8>)
    requires
        edges@.len() == gray@.len(),
        3 * gray@.len() <= usize::MAX,
    ensures
        rgb@ == edge_overlay_of(gray@, edges@),
{
    let n = gray.len();
    let mut rgb: Vec<u8> = Vec::new();
    for p in 0..n
        invariant
            n == gray@.len(),
            edges@.len() == n,
            rgb@.len() == 3 * p,
            forall|i: int| 0 <= i < 3 * p ==> rgb@[i] == edge_overlay_of(gray@, edges@)[i],
    {
        let g = gray[p];
        if edges[p] != 0 {
            rgb.push(255u8);
            rgb.push(0u8);
            rgb.push(0u8);
        } else {
            rgb.push(g);
            rgb.push(g);
            rgb.push(g);
        }
        proof {
            assert forall|i: int| 3 * p <= i < 3 * p + 3 implies rgb@[i] == edge_overlay_of(gray@, edges@)[i] by {
                assert(i / 3 == p as int);
                assert(i % 3 == i - 3 * p);
            }
        }
    }
    assert(rgb@ =~= edge_overlay_of(gray@, edges@));
    rgb
}

/// RGB picture of a binary image: white foreground, black background.
pub open spec fn binary_rgb_of(bin: Seq<u8>) -> Seq<u8> {
    Seq::new(3 * bin.len(), |i: int| if bin[i / 3] != 0 { 255u8 } else { 0u8 })
}

/// RGB picture of a binary image: white where the value is non-zero, black elsewhere.
pub fn binary_rgb(bin: &Vec<u8>) -> (rgb: Vec<u8>)
    requires
        3 * bin@.len() <= usize::MAX,
    ensures
        rgb@ == binary_rgb_of(bin@),
{
    let n = bin.len();
    let mut rgb: Vec<u8> = Vec::new();
    for p in 0..n
        invariant
            n == bin@.len(),
            rgb@.len() == 3 * p,
            forall|i: int| 0 <= i < 3 * p ==> rgb@[i] == binary_rgb_of(bin@)[i],
    {
        let v = if bin[p] != 0 {
            255u8
        } else {
            0u8
        };
        rgb.push(v);
        rgb.push(v);
        rgb.push(v);
        proof {
            assert forall|i: int| 3 * p <= i < 3 * p + 3 implies rgb@[i] == binary_rgb_of(bin@)[i] by {
                assert(i / 3 == p as int);
            }
        }
    }
    assert(rgb@ =~= binary_rgb_of(bin@));
    rgb
}

// ---------------------------------------------------------------------------
// Connected groups
// ---------------------------------------------------------------------------
/// Steps `k` and `k + 1` of a path are 4-neighbours.
pub open spec fn path_step(w: int, h: int, path: Seq<int>, k: int) -> bool {
    adjacent(w, h, path[k], path[k + 1])
}

/// `path` is a non-empty walk through foreground pixels, from 4-neighbour to 4-neighbour.
pub open spec fn fg_path(bin: Seq<u8>, w: int, h: int, path: Seq<int>) -> bool {
    &&& path.len() >= 1
    &&& forall|k: int| 0 <= k < path.len() ==> 0 <= #[trigger] path[k] < w * h && bin[path[k]] != 0
    &&& forall|k: int| 0 <= k < path.len() - 1 ==> #[trigger] path_step(w, h, path, k)
}

/// Foreground pixels `a` and `b` are joined by a walk through foreground 4-neighbours.
pub open spec fn connected(bin: Seq<u8>, w: int, h: int, a: int, b: int) -> bool {
    exists|path: Seq<int>| #[trigger] fg_path(bin, w, h, path) && path[0] == a && path.last() == b
}

proof fn lemma_connected_self(bin: Seq<u8>, w: int, h: int, a: int)
    requires
        0 <= a < w * h,
        bin[a] != 0,
    ensures
        connected(bin, w, h, a, a),
{
    let path = seq![a];
    assert(fg_path(bin, w, h, path));
}

proof fn lemma_connected_step(bin: Seq<u8>, w: int, h: int, a: int, b: int, c: int)
    requires
        connected(bin, w, h, a, b),
        adjacent(w, h, b, c),
        bin[c] != 0,
    ensures
        connected(bin, w, h, a, c),
{
    let path = choose|path: Seq<int>| #[trigger] fg_path(bin, w, h, path) && path[0] == a && path.last() == b;
    let next = path.push(c);
    assert forall|k: int| 0 <= k < next.len() - 1 implies #[trigger] path_step(w, h, next, k) by {
        if k < path.len() - 1 {
            assert(path_step(w, h, path, k));
        }
    }
    assert(fg_path(bin, w, h, next));
}

/// Number, sum of columns and sum of rows of the pixels among the first `n` labelled `l`.
pub open spec fn group_totals(labels: Seq<usize>, w: int, l: int, n: int) -> (int, int, int)
    decreases n,
{
    if n <= 0 {
        (0, 0, 0)
    } else {
        let t = group_totals(labels, w, l, n - 1);
        if labels[n - 1] == l {
            (t.0 + 1, t.1 + (n - 1) % w, t.2 + (n - 1) / w)
        } else {
            t
        }
    }
}

/// Sums of the columns and of the rows of the foreground pixels among the first `n` that are
/// connected to pixel `p`: the sums of the group of `p`.
pub open spec fn connected_sums(bin: Seq<u8>, w: int, h: int, p: int, n: int) -> (int, int)
    decreases n,
{
    if n <= 0 {
        (0, 0)
    } else {
        let t = connected_sums(bin, w, h, p, n - 1);
        if bin[n - 1] != 0 && connected(bin, w, h, p, n - 1) {
            (t.0 + (n - 1) % w, t.1 + (n - 1) / w)
        } else {
            t
        }
    }
}

/// The column and row sums of every group of foreground pixels fit in a `usize`.
pub open spec fn group_sums_fit(bin: Seq<u8>, w: int, h: int) -> bool {
    forall|p: int|
        0 <= p < w * h && bin[p] != 0 ==> #[trigger] connected_sums(bin, w, h, p, w * h).0 <= usize::MAX
            && connected_sums(bin, w, h, p, w * h).1 <= usize::MAX
}

/// The sums of the pixels labelled `l`, all of them foreground and connected to `p`, are at
/// most the sums of the group of `p`.
proof fn lemma_totals_within_group(labels: Seq<usize>, bin: Seq<u8>, w: int, h: int, l: int, p: int, n: int)
    requires
        0 < w,
        0 <= n <= labels.len(),
        forall|i: int| 0 <= i < n && #[trigger] labels[i] == l ==> bin[i] != 0 && connected(bin, w, h, p, i),
    ensures
        0 <= group_totals(labels, w, l, n).1 <= connected_sums(bin, w, h, p, n).0,
        0 <= group_totals(labels, w, l, n).2 <= connected_sums(bin, w, h, p, n).1,
        connected_sums(bin, w, h, p, n).0 >= 0,
        connected_sums(bin, w, h, p, n).1 >= 0,
    decreases n,
{
    if n > 0 {
        lemma_totals_within_group(labels, bin, w, h, l, p, n - 1);
        vstd::arithmetic::div_mod::lemma_mod_pos_bound(n - 1, w);
        vstd::arithmetic::div_mod::lemma_div_pos_is_pos(n - 1, w);
    }
}

/// The sums of the group of `p` are at most those of the pixels labelled `l`, when every
/// foreground pixel connected to `p` is labelled `l`.
proof fn lemma_sums_within_totals(labels: Seq<usize>, bin: Seq<u8>, w: int, h: int, l: int, p: int, n: int)
    requires
        0 < w,
        0 <= n <= labels.len(),
        forall|i: int| 0 <= i < n && #[trigger] labels[i] == l ==> bin[i] != 0 && connected(bin, w, h, p, i),
        forall|i: int, j: int|
            #[trigger] adjacent(w, h, i, j) && bin[j] != 0 && labels[i] == l ==> labels[j] == l,
        0 <= p < n,
        labels[p] == l,
        n <= bin.len(),
        n == w * h,
    ensures
        connected_sums(bin, w, h, p, n).0 <= group_totals(labels, w, l, n).1,
        connected_sums(bin, w, h, p, n).1 <= group_totals(labels, w, l, n).2,
{
    assert forall|i: int| 0 <= i < n && bin[i] != 0 && connected(bin, w, h, p, i) implies labels[i] == l by {
        let path = choose|path: Seq<int>| #[trigger] fg_path(bin, w, h, path) && path[0] == p && path.last() == i;
        lemma_labelled_along_path(labels, bin, w, h, l, path, path.len() - 1);
    }
    lemma_sums_upto(labels, bin, w, h, l, p, n);
}

/// Counting prefix by prefix: the sums of the connected pixels are at most those of the
/// labelled ones when the first are among the second.
proof fn lemma_sums_upto(labels: Seq<usize>, bin: Seq<u8>, w: int, h: int, l: int, p: int, n: int)
    requires
        0 < w,
        0 <= n <= labels.len(),
        n <= bin.len(),
        forall|i: int| 0 <= i < n && bin[i] != 0 && connected(bin, w, h, p, i) ==> labels[i] == l,
    ensures
        connected_sums(bin, w, h, p, n).0 <= group_totals(labels, w, l, n).1,
        connected_sums(bin, w, h, p, n).1 <= group_totals(labels, w, l, n).2,
    decreases n,
{
    if n > 0 {
        lemma_sums_upto(labels, bin, w, h, l, p, n - 1);
        vstd::arithmetic::div_mod::lemma_mod_pos_bound(n - 1, w);
        vstd::arithmetic::div_mod::lemma_div_pos_is_pos(n - 1, w);
    }
}

/// Along a path of foreground pixels from a pixel labelled `l`, where labels spread to
/// foreground neighbours, every pixel is labelled `l`.
proof fn lemma_labelled_along_path(labels: Seq<usize>, bin: Seq<u8>, w: int, h: int, l: int, path: Seq<int>, k: int)
    requires
        fg_path(bin, w, h, path),
        labels[path[0]] == l,
        forall|i: int, j: int|
            #[trigger] adjacent(w, h, i, j) && bin[j] != 0 && labels[i] == l ==> labels[j] == l,
        0 <= k < path.len(),
    ensures
        labels[path[k]] == l,
    decreases k,
{
    if k > 0 {
        lemma_labelled_along_path(labels, bin, w, h, l, path, k - 1);
        assert(path_step(w, h, path, k - 1));
    }
}

proof fn lemma_totals_update(labels: Seq<usize>, w: int, l: int, n: int, i: int, c: usize)
    requires
        0 <= i < labels.len(),
        0 <= n <= labels.len(),
        labels[i] != c,
    ensures
        group_totals(labels.update(i, c), w, l, n) == (if i >= n {
            group_totals(labels, w, l, n)
        } else if l == c {
            (
                group_totals(labels, w, l, n).0 + 1,
                group_totals(labels, w, l, n).1 + i % w,
                group_totals(labels, w, l, n).2 + i / w,
            )
        } else if l == labels[i] {
            (
                group_totals(labels, w, l, n).0 - 1,
                group_totals(labels, w, l, n).1 - i % w,
                group_totals(labels, w, l, n).2 - i / w,
            )
        } else {
            group_totals(labels, w, l, n)
        }),
    decreases n,
{
    if n > 0 {
        lemma_totals_update(labels, w, l, n - 1, i, c);
    }
}

proof fn lemma_totals_same(a: Seq<usize>, b: Seq<usize>, w: int, l: int, n: int)
    requires
        0 <= n <= a.len(),
        n <= b.len(),
        forall|i: int| 0 <= i < n ==> (a[i] == l) == (b[i] == l),
    ensures
        group_totals(a, w, l, n) == group_totals(b, w, l, n),
    decreases n,
{
    if n > 0 {
        lemma_totals_same(a, b, w, l, n - 1);
    }
}

proof fn lemma_totals_bounds(labels: Seq<usize>, w: int, h: int, l: int, n: int)
    requires
        0 < w,
        0 <= h,
        0 <= n <= w * h,
        n <= labels.len(),
    ensures
        0 <= group_totals(labels, w, l, n).0 <= n,
        0 <= group_totals(labels, w, l, n).1 <= group_totals(labels, w, l, n).0 * (w - 1),
        0 <= group_totals(labels, w, l, n).2 <= group_totals(labels, w, l, n).0 * (h - 1),
    decreases n,
{
    if n > 0 {
        lemma_totals_bounds(labels, w, h, l, n - 1);
        let t = group_totals(labels, w, l, n - 1);
        if labels[n - 1] == l {
            lemma_positive_dims(w, h, n - 1);
            lemma_row_bound(w, h, n - 1);
            let x = (n - 1) % w;
            let y = (n - 1) / w;
            assert(t.1 + x <= (t.0 + 1) * (w - 1)) by (nonlinear_arith)
                requires
                    t.1 <= t.0 * (w - 1),
                    x <= w - 1,
            ;
            assert(t.2 + y <= (t.0 + 1) * (h - 1)) by (nonlinear_arith)
                requires
                    t.2 <= t.0 * (h - 1),
                    y <= h - 1,
            ;
        }
    }
}

/// One group of foreground pixels: its first pixel in row order, its number of pixels and the
/// sums of their columns and of their rows.
#[derive(Clone, Copy, Debug, PartialEq, Eq, Structural)]
pub struct PixelGroup {
    pub first: usize,
    pub count: usize,
    pub sum_x: usize,
    pub sum_y: usize,
}

/// `g` describes the pixels labelled `l`: `first` is the first of them, and the number and sums
/// are theirs.
pub open spec fn group_matches(labels: Seq<usize>, w: int, l: int, g: PixelGroup) -> bool {
    let t = group_totals(labels, w, l, labels.len() as int);
    &&& g.count == t.0
    &&& g.sum_x == t.1
    &&& g.sum_y == t.2
    &&& g.count >= 1
    &&& 0 <= g.first < labels.len()
    &&& labels[g.first as int] == l
    &&& forall|q: int| 0 <= q < g.first ==> labels[q] != l
}

/// `labels` numbers the 4-connected groups of foreground pixels of the `w` x `h` image `bin`
/// from 1, in the order of their first pixels, with 0 on background, and `groups` describes
/// them in that order.
pub open spec fn labeling(bin: Seq<u8>, w: int, h: int, labels: Seq<usize>, groups: Seq<PixelGroup>) -> bool {
    &&& labels.len() == w * h
    &&& bin.len() == w * h
    &&& forall|p: int| 0 <= p < w * h ==> (#[trigger] labels[p] == 0 <==> bin[p] == 0) && labels[p] <= groups.len()
    &&& forall|p: int, q: int| #[trigger] adjacent(w, h, p, q) && bin[q] != 0 && labels[p] != 0 ==> labels[q] == labels[p]
    &&& forall|l: int| 0 <= l < groups.len() ==> #[trigger] group_matches(labels, w, l + 1, groups[l])
    &&& forall|l: int, m: int| 0 <= l < m < groups.len() ==> (#[trigger] groups[l]).first < (#[trigger] groups[m]).first
    &&& forall|p: int|
        0 <= p < w * h && #[trigger] labels[p] != 0 ==> connected(bin, w, h, groups[labels[p] - 1].first as int, p)
}

/// Every foreground 4-neighbour of pixel `i` is labelled `c`.
pub open spec fn expanded(bin: Seq<u8>, w: int, h: int, labels: Seq<usize>, c: int, i: int) -> bool {
    forall|j: int| #[trigger] adjacent(w, h, i, j) && bin[j] != 0 ==> labels[j] == c
}

/// The running totals of a group while it is flooded: its first pixel, its number of pixels and
/// the sums of their columns and rows (wide enough never to overflow).
struct GroupTally {
    first: usize,
    count: usize,
    sum_x: u128,
    sum_y: u128,
}

/// State of the flood that labels group `c` from `seed`: the labels before it (`l0`) are kept,
/// new labels are `c`, each pixel labelled `c` is connected to the seed and is on the stack,
/// pending, or has all its foreground neighbours labelled `c`; `g` holds the totals of `c`.
spec fn flood_state(
    bin: Seq<u8>,
    w: int,
    h: int,
    l0: Seq<usize>,
    labels: Seq<usize>,
    stack: Seq<usize>,
    g: GroupTally,
    c: int,
    seed: int,
    pending: int,
) -> bool {
    let n = w * h;
    &&& labels.len() == n
    &&& l0.len() == n
    &&& 0 <= seed < n
    &&& labels[seed] == c
    &&& g.first == seed
    &&& forall|i: int| 0 <= i < n ==> (#[trigger] labels[i] != 0 ==> bin[i] != 0)
    &&& forall|i: int| 0 <= i < n && l0[i] != 0 ==> #[trigger] labels[i] == l0[i]
    &&& forall|i: int| 0 <= i < n && l0[i] == 0 && #[trigger] labels[i] != 0 ==> labels[i] == c
    &&& forall|k: int| 0 <= k < stack.len() ==> 0 <= #[trigger] stack[k] < n && labels[stack[k] as int] == c
    &&& forall|i: int|
        0 <= i < n && #[trigger] labels[i] == c ==> i == pending || stack.contains(i as usize) || expanded(
            bin,
            w,
            h,
            labels,
            c,
            i,
        )
    &&& forall|i: int| 0 <= i < n && #[trigger] labels[i] == c ==> connected(bin, w, h, seed, i)
    &&& group_totals(labels, w, c, n) == (g.count as int, g.sum_x as int, g.sum_y as int)
    &&& g.count >= 1
}

/// Labels pixel `r`, a 4-neighbour of the pending pixel `q`, with `c` when it is foreground
/// and unlabelled, and pushes it on the stack.
fn visit(
    bin: &Vec<u8>,
    labels: &mut Vec<usize>,
    stack: &mut Vec<usize>,
    g: &mut GroupTally,
    width: usize,
    height: usize,
    q: usize,
    r: usize,
    c: usize,
    l0: Ghost<Seq<usize>>,
)
    requires
        bin@.len() == width * height,
        width * height <= usize::MAX,
        1 <= c,
        forall|i: int| 0 <= i < width * height ==> #[trigger] l0@[i] < c,
        flood_state(bin@, width as int, height as int, l0@, old(labels)@, old(stack)@, *old(g), c as int, old(g).first as int, q as int),
        0 <= q < width * height,
        old(labels)@[q as int] == c,
        adjacent(width as int, height as int, q as int, r as int),
    ensures
        flood_state(bin@, width as int, height as int, l0@, final(labels)@, final(stack)@, *final(g), c as int, old(g).first as int, q as int),
        bin@[r as int] != 0 ==> final(labels)@[r as int] != 0,
        forall|i: int| 0 <= i < width * height && old(labels)@[i] != 0 ==> #[trigger] final(labels)@[i] == old(labels)@[i],
        group_totals(final(labels)@, width as int, 0, (width * height) as int).0 * 5 + final(stack)@.len()
            <= group_totals(old(labels)@, width as int, 0, (width * height) as int).0 * 5 + old(stack)@.len(),
{
    let ghost w = width as int;
    let ghost h = height as int;
    let ghost n = w * h;
    let ghost lab0 = labels@;
    let ghost st0 = stack@;
    if bin[r] != 0 && labels[r] == 0 {
        proof {
            let lab1 = lab0.update(r as int, c);
            lemma_totals_update(lab0, w, c as int, n, r as int, c);
            lemma_totals_update(lab0, w, 0, n, r as int, c);
            lemma_totals_bounds(lab1, w, h, c as int, n);
            lemma_positive_dims(w, h, r as int);
            lemma_connected_step(bin@, w, h, g.first as int, q as int, r as int);
            assert forall|i: int| 0 <= i < n && #[trigger] lab1[i] == c implies bin@[i] != 0 && connected(
                bin@,
                w,
                h,
                g.first as int,
                i,
            ) by {
                if i != r {
                    assert(lab0[i] == c);
                }
            }
            let t = group_totals(lab1, w, c as int, n);
            assert(w <= n) by (nonlinear_arith)
                requires
                    n == w * h,
                    h >= 1,
                    w >= 0,
            ;
            assert(t.1 <= n * w && t.2 <= n * h) by (nonlinear_arith)
                requires
                    0 <= t.0 <= n,
                    0 <= t.1 <= t.0 * (w - 1),
                    0 <= t.2 <= t.0 * (h - 1),
                    w >= 1,
                    h >= 1,
            ;
            assert(n * w <= 0xffff_ffff_ffff_ffff * 0xffff_ffff_ffff_ffffu128 && n * h <= 0xffff_ffff_ffff_ffff
                * 0xffff_ffff_ffff_ffffu128) by (nonlinear_arith)
                requires
                    0 <= n <= 0xffff_ffff_ffff_ffff,
                    0 <= w <= 0xffff_ffff_ffff_ffff,
                    0 <= h <= 0xffff_ffff_ffff_ffff,
            ;
            lemma_totals_bounds(lab0, w, h, 0, n);
        }
        labels.set(r, c);
        stack.push(r);
        g.count = g.count + 1;
        g.sum_x = g.sum_x + (r % width) as u128;
        g.sum_y = g.sum_y + (r / width) as u128;
        proof {
            let lab1 = labels@;
            let st1 = stack@;
            assert(lab1 == lab0.update(r as int, c));
            lemma_connected_step(bin@, w, h, g.first as int, q as int, r as int);
            assert forall|k: int| 0 <= k < st1.len() implies 0 <= #[trigger] st1[k] < n && lab1[st1[k] as int] == c by {
                if k < st0.len() {
                    assert(st1[k] == st0[k]);
                }
            }
            assert forall|i: int| 0 <= i < n && #[trigger] lab1[i] == c implies i == q || st1.contains(i as usize) || expanded(
                bin@,
                w,
                h,
                lab1,
                c as int,
                i,
            ) by {
                if i == r {
                    assert(st1[st1.len() - 1] == r);
                } else {
                    assert(lab0[i] == c);
                    if st0.contains(i as usize) {
                        let k = choose|k: int| 0 <= k < st0.len() && st0[k] == i as usize;
                        assert(st1[k] == i as usize);
                    } else if i != q {
                        assert(expanded(bin@, w, h, lab0, c as int, i));
                        assert forall|j: int| #[trigger] adjacent(w, h, i, j) && bin@[j] != 0 implies lab1[j] == c by {
                            assert(lab0[j] == c);
                        }
                    }
                }
            }
            assert forall|i: int| 0 <= i < n && #[trigger] lab1[i] == c implies connected(bin@, w, h, g.first as int, i) by {
                if i != r {
                    assert(lab0[i] == c);
                }
            }
        }
    }
}

/// Labels with `c` the group of foreground pixels 4-connected to `seed`, which is foreground
/// and unlabelled; returns the group's first pixel (`seed`), number of pixels and sums.
fn flood_group(bin: &Vec<u8>, labels: &mut Vec<usize>, width: usize, height: usize, seed: usize, c: usize) -> (r: Option<
    PixelGroup,
>)
    requires
        bin@.len() == width * height,
        old(labels)@.len() == width * height,
        width * height <= usize::MAX,
        0 <= seed < width * height,
        bin@[seed as int] != 0,
        old(labels)@[seed as int] == 0,
        1 <= c,
        forall|i: int| 0 <= i < width * height ==> #[trigger] old(labels)@[i] < c,
        forall|i: int| 0 <= i < width * height && #[trigger] old(labels)@[i] != 0 ==> bin@[i] != 0,
        forall|i: int, j: int|
            #[trigger] adjacent(width as int, height as int, i, j) && bin@[j] != 0 && old(labels)@[i] != 0 ==> old(labels)@[j] == old(labels)@[i],
    ensures
        final(labels)@.len() == width * height,
        forall|i: int| 0 <= i < width * height && old(labels)@[i] != 0 ==> #[trigger] final(labels)@[i] == old(labels)@[i],
        forall|i: int|
            0 <= i < width * height && old(labels)@[i] == 0 && #[trigger] final(labels)@[i] != 0 ==> final(labels)@[i] == c,
        forall|i: int| 0 <= i < width * height ==> (#[trigger] final(labels)@[i] != 0 ==> bin@[i] != 0),
        final(labels)@[seed as int] == c,
        forall|i: int|
            0 <= i < width * height && #[trigger] final(labels)@[i] == c ==> connected(bin@, width as int, height as int, seed as int, i),
        forall|i: int, j: int|
            #[trigger] adjacent(width as int, height as int, i, j) && bin@[j] != 0 && final(labels)@[i] == c ==> final(labels)@[j] == c,
        r is Some <==> connected_sums(bin@, width as int, height as int, seed as int, width * height).0 <= usize::MAX
            && connected_sums(bin@, width as int, height as int, seed as int, width * height).1 <= usize::MAX,
        r matches Some(g) ==> g.first == seed && group_totals(final(labels)@, width as int, c as int, (width * height) as int)
            == (g.count as int, g.sum_x as int, g.sum_y as int) && g.count >= 1,
{
    let ghost w = width as int;
    let ghost h = height as int;
    let ghost n = w * h;
    let ghost l0 = labels@;
    proof {
        lemma_positive_dims(w, h, seed as int);
        lemma_row_bound(w, h, seed as int);
        lemma_totals_update(l0, w, c as int, n, seed as int, c);
        lemma_totals_same(l0, l0, w, c as int, n);
        assert forall|i: int| 0 <= i < n implies l0[i] != c by {}
        lemma_totals_zero(l0, w, c as int, n);
        lemma_connected_self(bin@, w, h, seed as int);
        assert(seed as int % w <= seed as int);
        assert((seed as int / w) * w <= seed as int);
        assert(seed as int / w <= seed as int) by (nonlinear_arith)
            requires
                (seed as int / w) * w <= seed as int,
                0 <= seed as int / w,
                0 < w,
        ;
    }
    labels.set(seed, c);
    let mut g = GroupTally { first: seed, count: 1, sum_x: (seed % width) as u128, sum_y: (seed / width) as u128 };
    let mut stack: Vec<usize> = Vec::new();
    stack.push(seed);
    proof {
        let lab = labels@;
        assert(lab == l0.update(seed as int, c));
        assert forall|i: int| 0 <= i < n && #[trigger] lab[i] == c implies connected(bin@, w, h, seed as int, i) by {
            assert(i == seed);
        }
        assert forall|i: int| 0 <= i < n && #[trigger] lab[i] == c implies i == -1 || stack@.contains(i as usize) || expanded(
            bin@,
            w,
            h,
            lab,
            c as int,
            i,
        ) by {
            assert(i == seed);
            assert(stack@[0] == seed);
        }
        lemma_totals_bounds(lab, w, h, 0, n);
    }
    while stack.len() > 0
        invariant
            bin@.len() == n,
            n == width * height,
            n <= usize::MAX,
            w == width,
            h == height,
            1 <= c,
            forall|i: int| 0 <= i < n ==> #[trigger] l0[i] < c,
            forall|i: int, j: int| #[trigger] adjacent(w, h, i, j) && bin@[j] != 0 && l0[i] != 0 ==> l0[j] == l0[i],
            flood_state(bin@, w, h, l0, labels@, stack@, g, c as int, seed as int, -1),
            group_totals(labels@, w, 0, n).0 >= 0,
        decreases group_totals(labels@, w, 0, n).0 * 5 + stack@.len(),
    {
        let ghost m0 = group_totals(labels@, w, 0, n).0 * 5 + stack@.len();
        let ghost before_pop = stack@;
        let q = stack.pop().unwrap();
        proof {
            assert(before_pop.last() == q);
            assert(stack@ == before_pop.drop_last());
            assert forall|i: int| 0 <= i < n && #[trigger] labels@[i] == c implies i == q || stack@.contains(i as usize) || expanded(
                bin@,
                w,
                h,
                labels@,
                c as int,
                i,
            ) by {
                if before_pop.contains(i as usize) && i != q {
                    let k = choose|k: int| 0 <= k < before_pop.len() && before_pop[k] == i as usize;
                    assert(k < before_pop.len() - 1);
                    assert(stack@[k] == i as usize);
                }
            }
            assert forall|k: int| 0 <= k < stack@.len() implies 0 <= #[trigger] stack@[k] < n && labels@[stack@[k] as int] == c by {
                assert(stack@[k] == before_pop[k]);
            }
            assert(labels@[q as int] == c) by {
                assert(before_pop[before_pop.len() - 1] == q);
            }
            lemma_row_bound(w, h, q as int);
            lemma_neighbors(w, h, q as int);
        }
        let x = q % width;
        let y = q / width;
        if x > 0 {
            visit(bin, labels, &mut stack, &mut g, width, height, q, q - 1, c, Ghost(l0));
        }
        if x + 1 < width {
            visit(bin, labels, &mut stack, &mut g, width, height, q, q + 1, c, Ghost(l0));
        }
        if y > 0 {
            visit(bin, labels, &mut stack, &mut g, width, height, q, q - width, c, Ghost(l0));
        }
        if y + 1 < height {
            visit(bin, labels, &mut stack, &mut g, width, height, q, q + width, c, Ghost(l0));
        }
        proof {
            let lab = labels@;
            assert(lab[q as int] == c);
            assert forall|j: int| #[trigger] adjacent(w, h, q as int, j) && bin@[j] != 0 implies lab[j] == c by {
                assert(lab[j] != 0);
                if lab[j] != c {
                    assert(l0[j] != 0);
                    lemma_adjacent_symmetric(w, h, q as int, j);
                    assert(l0[q as int] == l0[j]);
                }
            }
            assert(expanded(bin@, w, h, lab, c as int, q as int));
            assert(flood_state(bin@, w, h, l0, lab, stack@, g, c as int, seed as int, -1));
            lemma_totals_bounds(lab, w, h, 0, n);
        }
    }
    proof {
        let lab = labels@;
        assert forall|i: int, j: int| #[trigger] adjacent(w, h, i, j) && bin@[j] != 0 && lab[i] == c implies lab[j] == c by {
            assert(expanded(bin@, w, h, lab, c as int, i));
        }
        lemma_totals_within_group(lab, bin@, w, h, c as int, seed as int, n);
        lemma_sums_within_totals(lab, bin@, w, h, c as int, seed as int, n);
    }
    if g.sum_x <= usize::MAX as u128 && g.sum_y <= usize::MAX as u128 {
        Some(PixelGroup { first: g.first, count: g.count, sum_x: g.sum_x as usize, sum_y: g.sum_y as usize })
    } else {
        None
    }
}

pub(crate) proof fn lemma_adjacent_symmetric(w: int, h: int, p: int, q: int)
    requires
        adjacent(w, h, p, q),
    ensures
        adjacent(w, h, q, p),
{
}

proof fn lemma_totals_zero(labels: Seq<usize>, w: int, l: int, n: int)
    requires
        0 <= n <= labels.len(),
        forall|i: int| 0 <= i < n ==> labels[i] != l,
    ensures
        group_totals(labels, w, l, n) == (0int, 0int, 0int),
    decreases n,
{
    if n > 0 {
        lemma_totals_zero(labels, w, l, n - 1);
    }
}

/// The labelling of `label_groups`, or `None` when the sums of a group do not fit in a `usize`.
fn label_groups_checked(bin: &Vec<u8>, width: usize, height: usize) -> (res: Option<(Vec<usize>, Vec<PixelGroup>)>)
    requires
        bin@.len() == width * height,
        width * height <= usize::MAX,
    ensures
        res is Some <==> group_sums_fit(bin@, width as int, height as int),
        res matches Some(r) ==> labeling(bin@, width as int, height as int, r.0@, r.1@),
{
    let ghost w = width as int;
    let ghost h = height as int;
    let n = bin.len();
    let mut labels: Vec<usize> = Vec::new();
    for i in 0..n
        invariant
            labels@ == Seq::new(i as nat, |k: int| 0usize),
    {
        labels.push(0);
        assert(labels@ =~= Seq::new((i + 1) as nat, |k: int| 0usize));
    }
    let mut groups: Vec<PixelGroup> = Vec::new();
    let mut p: usize = 0;
    while p < n
        invariant
            w == width,
            h == height,
            n == w * h,
            width * height <= usize::MAX,
            bin@.len() == n,
            p <= n,
            labels@.len() == n,
            groups@.len() <= p,
            forall|i: int| 0 <= i < n ==> (#[trigger] labels@[i] != 0 ==> bin@[i] != 0) && labels@[i] <= groups@.len(),
            forall|i: int| 0 <= i < p && bin@[i] != 0 ==> #[trigger] labels@[i] != 0,
            forall|i: int, j: int| #[trigger] adjacent(w, h, i, j) && bin@[j] != 0 && labels@[i] != 0 ==> labels@[j] == labels@[i],
            forall|l: int| 0 <= l < groups@.len() ==> #[trigger] group_matches(labels@, w, l + 1, groups@[l]),
            forall|l: int| 0 <= l < groups@.len() ==> (#[trigger] groups@[l]).first < p,
            forall|l: int, m: int| 0 <= l < m < groups@.len() ==> (#[trigger] groups@[l]).first < (#[trigger] groups@[m]).first,
            forall|i: int|
                0 <= i < n && #[trigger] labels@[i] != 0 ==> connected(bin@, w, h, groups@[labels@[i] - 1].first as int, i),
        decreases n - p,
    {
        if bin[p] != 0 && labels[p] == 0 {
            let c = groups.len() + 1;
            let ghost l0 = labels@;
            let ghost g0 = groups@;
            let g = match flood_group(bin, &mut labels, width, height, p, c) {
                Some(g) => g,
                None => {
                    assert(!group_sums_fit(bin@, w, h)) by {
                        assert(bin@[p as int] != 0);
                    }
                    return None;
                },
            };
            groups.push(g);
            proof {
                let lab = labels@;
                let gs = groups@;
                assert(gs[c - 1] == g);
                assert forall|i: int| 0 <= i < n implies (#[trigger] lab[i] != 0 ==> bin@[i] != 0) && lab[i] <= gs.len() by {
                    if l0[i] != 0 {
                        assert(lab[i] == l0[i]);
                    }
                }
                assert forall|i: int| 0 <= i < p + 1 && bin@[i] != 0 implies #[trigger] lab[i] != 0 by {
                    if i < p {
                        assert(l0[i] != 0);
                    }
                }
                assert forall|i: int, j: int| #[trigger] adjacent(w, h, i, j) && bin@[j] != 0 && lab[i] != 0 implies lab[j] == lab[i] by {
                    if l0[i] != 0 {
                        assert(lab[i] == l0[i]);
                        assert(l0[j] == l0[i]);
                        assert(lab[j] == l0[j]);
                    } else {
                        assert(lab[i] == c);
                    }
                }
                assert forall|l: int| 0 <= l < gs.len() implies #[trigger] group_matches(lab, w, l + 1, gs[l]) by {
                    if l < g0.len() {
                        assert(group_matches(l0, w, l + 1, g0[l]));
                        assert(gs[l] == g0[l]);
                        assert forall|i: int| 0 <= i < n implies (l0[i] == l + 1) == (lab[i] == l + 1) by {
                            if l0[i] != 0 {
                                assert(lab[i] == l0[i]);
                            }
                        }
                        lemma_totals_same(l0, lab, w, l + 1, n as int);
                        assert(lab[g0[l].first as int] == l0[g0[l].first as int]);
                        assert forall|q: int| 0 <= q < gs[l].first implies lab[q] != l + 1 by {
                            if l0[q] != 0 {
                                assert(lab[q] == l0[q]);
                            }
                        }
                    } else {
                        assert(l == c - 1);
                        assert forall|q: int| 0 <= q < gs[l].first implies lab[q] != l + 1 by {
                            if bin@[q] != 0 {
                                assert(l0[q] != 0);
                                assert(lab[q] == l0[q]);
                            } else {
                                assert(lab[q] == 0);
                            }
                        }
                    }
                }
                assert forall|l: int, m: int| 0 <= l < m < gs.len() implies (#[trigger] gs[l]).first < (#[trigger] gs[m]).first by {
                    if m < g0.len() {
                        assert(gs[l] == g0[l] && gs[m] == g0[m]);
                    } else {
                        assert(gs[l] == g0[l]);
                    }
                }
                assert forall|i: int| 0 <= i < n && #[trigger] lab[i] != 0 implies connected(
                    bin@,
                    w,
                    h,
                    gs[lab[i] - 1].first as int,
                    i,
                ) by {
                    if l0[i] != 0 {
                        assert(lab[i] == l0[i]);
                        assert(gs[l0[i] - 1] == g0[l0[i] - 1]);
                    } else {
                        assert(lab[i] == c);
                    }
                }
            }
        }
        p += 1;
    }
    proof {
        lemma_labeling_sums_fit(bin@, w, h, labels@, groups@);
    }
    Some((labels, groups))
}

/// The 4-connected groups of foreground (non-zero) pixels of the `width` x `height` binary
/// image `bin`: a label per pixel (0 on background, the groups numbered from 1 in the row order
/// of their first pixels) and, for each group in that order, its first pixel, its number of
/// pixels and the sums of their columns and rows.
pub fn label_groups(bin: &Vec<u8>, width: usize, height: usize) -> (res: (Vec<usize>, Vec<PixelGroup>))
    requires
        bin@.len() == width * height,
        width * height <= usize::MAX,
        group_sums_fit(bin@, width as int, height as int),
    ensures
        labeling(bin@, width as int, height as int, res.0@, res.1@),
{
    match label_groups_checked(bin, width, height) {
        Some(r) => r,
        None => (Vec::new(), Vec::new()),
    }
}

/// Whether the column and row sums of every group of foreground pixels of the `width` x
/// `height` binary image fit in a `usize` (what `label_groups` requires).
pub fn group_sums_fit_exec(bin: &Vec<u8>, width: usize, height: usize) -> (b: bool)
    requires
        bin@.len() == width * height,
        width * height <= usize::MAX,
    ensures
        b == group_sums_fit(bin@, width as int, height as int),
{
    label_groups_checked(bin, width, height).is_some()
}

/// The sums of the group of `p` are those of the pixels labelled like `p`.
proof fn lemma_sums_equal_totals(labels: Seq<usize>, bin: Seq<u8>, w: int, h: int, l: int, p: int, n: int)
    requires
        0 < w,
        0 <= n <= labels.len(),
        n <= bin.len(),
        forall|i: int| 0 <= i < n ==> (labels[i] == l) == (bin[i] != 0 && connected(bin, w, h, p, i)),
    ensures
        connected_sums(bin, w, h, p, n).0 == group_totals(labels, w, l, n).1,
        connected_sums(bin, w, h, p, n).1 == group_totals(labels, w, l, n).2,
    decreases n,
{
    if n > 0 {
        lemma_sums_equal_totals(labels, bin, w, h, l, p, n - 1);
    }
}

/// A labelling with its group totals in `usize` shows that the sums of every group fit.
proof fn lemma_labeling_sums_fit(bin: Seq<u8>, w: int, h: int, labels: Seq<usize>, groups: Seq<PixelGroup>)
    requires
        labeling(bin, w, h, labels, groups),
        w >= 0,
        h >= 0,
    ensures
        group_sums_fit(bin, w, h),
{
    assert forall|p: int| 0 <= p < w * h && bin[p] != 0 implies #[trigger] connected_sums(bin, w, h, p, w * h).0
        <= usize::MAX && connected_sums(bin, w, h, p, w * h).1 <= usize::MAX by {
        lemma_positive_dims(w, h, p);
        let l = labels[p] as int;
        assert(labels[p] != 0);
        let k = l - 1;
        assert(0 <= k < groups.len());
        assert(group_matches(labels, w, k + 1, groups[k]));
        assert forall|i: int| 0 <= i < w * h implies (labels[i] == l) == (bin[i] != 0 && connected(bin, w, h, p, i)) by {
            if bin[i] != 0 {
                lemma_same_label_iff_connected(bin, w, h, labels, groups, p, i);
            } else {
                assert(labels[i] == 0);
            }
        }
        lemma_sums_equal_totals(labels, bin, w, h, l, p, w * h);
    }
}

proof fn lemma_connected_reverse(bin: Seq<u8>, w: int, h: int, a: int, b: int)
    requires
        connected(bin, w, h, a, b),
    ensures
        connected(bin, w, h, b, a),
{
    let path = choose|path: Seq<int>| #[trigger] fg_path(bin, w, h, path) && path[0] == a && path.last() == b;
    let rev = path.reverse();
    let m = path.len();
    assert forall|k: int| 0 <= k < rev.len() implies 0 <= #[trigger] rev[k] < w * h && bin[rev[k]] != 0 by {
        assert(rev[k] == path[m - 1 - k]);
    }
    assert forall|k: int| 0 <= k < rev.len() - 1 implies #[trigger] path_step(w, h, rev, k) by {
        assert(path_step(w, h, path, m - 2 - k));
        lemma_adjacent_symmetric(w, h, path[m - 2 - k], path[m - 1 - k]);
    }
    assert(fg_path(bin, w, h, rev));
}

proof fn lemma_connected_trans(bin: Seq<u8>, w: int, h: int, a: int, b: int, c: int)
    requires
        connected(bin, w, h, a, b),
        connected(bin, w, h, b, c),
    ensures
        connected(bin, w, h, a, c),
{
    let p1 = choose|path: Seq<int>| #[trigger] fg_path(bin, w, h, path) && path[0] == a && path.last() == b;
    let p2 = choose|path: Seq<int>| #[trigger] fg_path(bin, w, h, path) && path[0] == b && path.last() == c;
    let joined = p1 + p2.skip(1);
    let m = p1.len();
    assert forall|k: int| 0 <= k < joined.len() implies 0 <= #[trigger] joined[k] < w * h && bin[joined[k]] != 0 by {
        if k >= m {
            assert(joined[k] == p2[k - m + 1]);
        }
    }
    assert forall|k: int| 0 <= k < joined.len() - 1 implies #[trigger] path_step(w, h, joined, k) by {
        if k < m - 1 {
            assert(path_step(w, h, p1, k));
        } else {
            assert(path_step(w, h, p2, k - m + 1));
        }
    }
    assert(fg_path(bin, w, h, joined));
    if p2.len() == 1 {
        assert(joined.last() == p1.last());
    } else {
        assert(joined.last() == p2.last());
    }
}

proof fn lemma_label_along_path(
    bin: Seq<u8>,
    w: int,
    h: int,
    labels: Seq<usize>,
    groups: Seq<PixelGroup>,
    path: Seq<int>,
    k: int,
)
    requires
        labeling(bin, w, h, labels, groups),
        fg_path(bin, w, h, path),
        0 <= k < path.len(),
    ensures
        labels[path[k]] == labels[path[0]],
    decreases k,
{
    if k > 0 {
        lemma_label_along_path(bin, w, h, labels, groups, path, k - 1);
        assert(path_step(w, h, path, k - 1));
        assert(labels[path[k - 1]] != 0);
    }
}

/// Two foreground pixels get the same label exactly when a walk through foreground
/// 4-neighbours joins them.
pub proof fn lemma_same_label_iff_connected(
    bin: Seq<u8>,
    w: int,
    h: int,
    labels: Seq<usize>,
    groups: Seq<PixelGroup>,
    p: int,
    q: int,
)
    requires
        labeling(bin, w, h, labels, groups),
        0 <= p < w * h,
        0 <= q < w * h,
        bin[p] != 0,
        bin[q] != 0,
    ensures
        labels[p] == labels[q] <==> connected(bin, w, h, p, q),
{
    if connected(bin, w, h, p, q) {
        let path = choose|path: Seq<int>| #[trigger] fg_path(bin, w, h, path) && path[0] == p && path.last() == q;
        lemma_label_along_path(bin, w, h, labels, groups, path, path.len() - 1);
    }
    if labels[p] == labels[q] {
        assert(labels[p] != 0);
        let f = groups[labels[p] - 1].first as int;
        assert(connected(bin, w, h, f, p));
        assert(connected(bin, w, h, f, q));
        lemma_connected_reverse(bin, w, h, f, p);
        lemma_connected_trans(bin, w, h, p, f, q);
    }
}

// ---------------------------------------------------------------------------
// Centroids and anchors
// ---------------------------------------------------------------------------
/// `sum / count` rounded to the nearest integer, halves rounded up.
pub open spec fn rounded_mean_of(sum: int, count: int) -> int {
    (2 * sum + count) / (2 * count)
}

/// `sum / count` rounded to the nearest integer, halves rounded up.
pub fn rounded_mean(sum: usize, count: usize) -> (m: usize)
    requires
        count > 0,
    ensures
        m == rounded_mean_of(sum as int, count as int),
{
    let num: u128 = 2 * (sum as u128) + (count as u128);
    let den: u128 = 2 * (count as u128);
    let q = num / den;
    assert(q <= sum + 1) by (nonlinear_arith)
        requires
            q == num / den,
            num == 2 * sum + count,
            den == 2 * count,
            count > 0,
    ;
    assert(q <= usize::MAX) by {
        if count == 1 {
            assert(q == (2 * sum + 1) / 2);
        } else {
            assert(q <= sum) by (nonlinear_arith)
                requires
                    q == num / den,
                    num == 2 * sum + count,
                    den == 2 * count,
                    count >= 2,
            ;
        }
    }
    q as usize
}

/// The centroid of a group, each coordinate the mean rounded to the nearest pixel.
pub fn group_centroid(g: &PixelGroup) -> (c: (usize, usize))
    requires
        g.count > 0,
    ensures
        c.0 == rounded_mean_of(g.sum_x as int, g.count as int),
        c.1 == rounded_mean_of(g.sum_y as int, g.count as int),
{
    (rounded_mean(g.sum_x, g.count), rounded_mean(g.sum_y, g.count))
}

/// `|a - b|`.
pub open spec fn abs_diff(a: int, b: int) -> int {
    if a >= b {
        a - b
    } else {
        b - a
    }
}

/// Manhattan distance of pixels `p` and `q` of an image `w` pixels wide.
pub open spec fn manhattan(w: int, p: int, q: int) -> int {
    abs_diff(p % w, q % w) + abs_diff(p / w, q / w)
}

/// Number of `true` among the first `n` values.
spec fn count_true(v: Seq<bool>, n: int) -> int
    decreases n,
{
    if n <= 0 {
        0
    } else {
        count_true(v, n - 1) + (if v[n - 1] {
            1int
        } else {
            0int
        })
    }
}

proof fn lemma_count_true_update(v: Seq<bool>, n: int, i: int)
    requires
        0 <= i < n <= v.len(),
        !v[i],
    ensures
        count_true(v.update(i, true), n) == count_true(v, n) + 1,
    decreases n,
{
    if n - 1 > i {
        lemma_count_true_update(v, n - 1, i);
    } else {
        lemma_count_true_same(v, v.update(i, true), n - 1);
    }
}

proof fn lemma_count_true_same(a: Seq<bool>, b: Seq<bool>, n: int)
    requires
        0 <= n <= a.len(),
        n <= b.len(),
        forall|i: int| 0 <= i < n ==> a[i] == b[i],
    ensures
        count_true(a, n) == count_true(b, n),
    decreases n,
{
    if n > 0 {
        lemma_count_true_same(a, b, n - 1);
    }
}

proof fn lemma_count_true_bound(v: Seq<bool>, n: int)
    requires
        0 <= n <= v.len(),
    ensures
        0 <= count_true(v, n) <= n,
    decreases n,
{
    if n > 0 {
        lemma_count_true_bound(v, n - 1);
    }
}

/// A pixel other than `s` has a 4-neighbour one step nearer to `s`.
pub(crate) proof fn lemma_step_toward(w: int, h: int, s: int, i: int) -> (j: int)
    requires
        0 <= w,
        0 <= h,
        0 <= s < w * h,
        0 <= i < w * h,
        i != s,
    ensures
        adjacent(w, h, i, j),
        manhattan(w, s, j) == manhattan(w, s, i) - 1,
{
    lemma_positive_dims(w, h, i);
    lemma_row_bound(w, h, i);
    lemma_row_bound(w, h, s);
    lemma_neighbors(w, h, i);
    if i % w > s % w {
        i - 1
    } else if i % w < s % w {
        i + 1
    } else if i / w > s / w {
        i - w
    } else {
        if i / w == s / w {
            assert(i == (i / w) * w + i % w);
            assert(s == (s / w) * w + s % w);
        }
        i + w
    }
}

/// Neighbouring pixels are one step apart in Manhattan distance from any pixel.
pub(crate) proof fn lemma_adjacent_distance(w: int, h: int, s: int, i: int, j: int)
    requires
        adjacent(w, h, i, j),
    ensures
        manhattan(w, s, j) == manhattan(w, s, i) + 1 || manhattan(w, s, j) == manhattan(w, s, i) - 1,
{
}

/// A set of pixels that holds `s` and every 4-neighbour of its members holds every pixel.
pub(crate) proof fn lemma_closed_covers(w: int, h: int, s: int, vis: Seq<bool>, i: int)
    requires
        0 <= w,
        0 <= h,
        vis.len() == w * h,
        0 <= s < w * h,
        vis[s],
        forall|a: int, b: int| #[trigger] adjacent(w, h, a, b) && vis[a] ==> vis[b],
        0 <= i < w * h,
    ensures
        vis[i],
    decreases manhattan(w, s, i),
{
    if i != s {
        let j = lemma_step_toward(w, h, s, i);
        lemma_closed_covers(w, h, s, vis, j);
        lemma_adjacent_symmetric(w, h, i, j);
    }
}

/// State of the breadth-first search from `s`: `queue` holds the visited pixels in order of
/// visit, in non-decreasing distance from `s` (spanning at most one step from `head` on); the
/// pixels before `head` were taken, are not labelled `label`, and have all their neighbours
/// visited; every pixel nearer than the one at `head` is visited.
spec fn bfs_state(
    w: int,
    h: int,
    s: int,
    labels: Seq<usize>,
    label: usize,
    visited: Seq<bool>,
    queue: Seq<usize>,
    head: int,
) -> bool {
    let n = w * h;
    &&& 0 < w
    &&& 0 < h
    &&& 0 <= s < n
    &&& n <= usize::MAX
    &&& labels.len() == n
    &&& visited.len() == n
    &&& queue.len() >= 1
    &&& queue[0] == s
    &&& 0 <= head <= queue.len()
    &&& queue.len() == count_true(visited, n)
    &&& forall|k: int| 0 <= k < queue.len() ==> (#[trigger] queue[k]) < n && visited[queue[k] as int]
    &&& forall|i: int| 0 <= i < n && #[trigger] visited[i] ==> queue.contains(i as usize)
    &&& forall|k1: int, k2: int|
        0 <= k1 <= k2 < queue.len() ==> manhattan(w, s, #[trigger] queue[k1] as int) <= manhattan(
            w,
            s,
            #[trigger] queue[k2] as int,
        )
    &&& head < queue.len() ==> manhattan(w, s, queue[queue.len() - 1] as int) <= manhattan(w, s, queue[head] as int) + 1
    &&& forall|k: int, j: int| 0 <= k < head && #[trigger] adjacent(w, h, queue[k] as int, j) ==> #[trigger] visited[j]
    &&& head < queue.len() ==> forall|i: int|
        0 <= i < n && manhattan(w, s, i) < manhattan(w, s, queue[head] as int) ==> #[trigger] visited[i]
    &&& forall|k: int| 0 <= k < head ==> labels[#[trigger] queue[k] as int] != label
}

/// `visited` and `queue` extend `v0` and `q0` by unvisited 4-neighbours of `p`, each queued
/// once.
spec fn expansion(w: int, h: int, p: int, v0: Seq<bool>, q0: Seq<usize>, v: Seq<bool>, q: Seq<usize>) -> bool {
    let n = w * h;
    &&& v.len() == n
    &&& v0.len() == n
    &&& q.len() >= q0.len()
    &&& forall|k: int| 0 <= k < q0.len() ==> #[trigger] q[k] == q0[k]
    &&& forall|k: int|
        q0.len() <= k < q.len() ==> adjacent(w, h, p, #[trigger] q[k] as int) && !v0[q[k] as int] && v[q[k] as int]
    &&& forall|i: int| 0 <= i < n && #[trigger] v[i] && !v0[i] ==> q.subrange(q0.len() as int, q.len() as int).contains(i as usize)
    &&& forall|i: int| 0 <= i < n && #[trigger] v0[i] ==> v[i]
    &&& q.len() - q0.len() == count_true(v, n) - count_true(v0, n)
}

/// Visits `r`, a 4-neighbour of `p`, when it was not visited yet.
fn push_unvisited(
    visited: &mut Vec<bool>,
    queue: &mut VecDeque<usize>,
    width: usize,
    height: usize,
    p: usize,
    r: usize,
    v0: Ghost<Seq<bool>>,
    q0: Ghost<Seq<usize>>,
)
    requires
        width * height <= usize::MAX,
        adjacent(width as int, height as int, p as int, r as int),
        expansion(width as int, height as int, p as int, v0@, q0@, old(visited)@, old(queue)@),
    ensures
        expansion(width as int, height as int, p as int, v0@, q0@, final(visited)@, final(queue)@),
        (final(visited)@, final(queue)@) == visit_step(old(visited)@, old(queue)@, r as int),
        final(visited)@[r as int],
        forall|i: int| 0 <= i < width * height && #[trigger] old(visited)@[i] ==> final(visited)@[i],
{
    if !visited[r] {
        proof {
            lemma_count_true_update(visited@, width * height, r as int);
        }
        let ghost vb = visited@;
        let ghost qb = queue@;
        visited.set(r, true);
        queue.push_back(r);
        proof {
            let v = visited@;
            let q = queue@;
            let lo = q0@.len() as int;
            assert forall|k: int| q0@.len() <= k < q.len() implies adjacent(width as int, height as int, p as int, #[trigger] q[k] as int)
                && !v0@[q[k] as int] && v[q[k] as int] by {
                if k < qb.len() {
                    assert(q[k] == qb[k]);
                } else {
                    assert(q[k] == r);
                    if v0@[r as int] {
                        assert(vb[r as int]);
                    }
                }
            }
            assert forall|i: int| 0 <= i < width * height && #[trigger] v[i] && !v0@[i] implies q.subrange(lo, q.len() as int).contains(
                i as usize,
            ) by {
                if i == r {
                    assert(q.subrange(lo, q.len() as int)[q.len() - 1 - lo] == r);
                } else {
                    assert(vb[i]);
                    let k = choose|k: int| 0 <= k < qb.subrange(lo, qb.len() as int).len() && qb.subrange(lo, qb.len() as int)[k]
                        == i as usize;
                    assert(q.subrange(lo, q.len() as int)[k] == i as usize);
                }
            }
        }
    }
}

/// Visiting pixel `r`: unless visited already, it is marked and put at the end of the queue.
pub open spec fn visit_step(v: Seq<bool>, q: Seq<usize>, r: int) -> (Seq<bool>, Seq<usize>) {
    if v[r] {
        (v, q)
    } else {
        (v.update(r, true), q.push(r as usize))
    }
}

/// Expanding pixel `p`: visiting its 4-neighbours in the order left, right, up, down.
pub open spec fn expand_step(w: int, h: int, v: Seq<bool>, q: Seq<usize>, p: int) -> (Seq<bool>, Seq<usize>) {
    let x = p % w;
    let y = p / w;
    let s1 = if x > 0 {
        visit_step(v, q, p - 1)
    } else {
        (v, q)
    };
    let s2 = if x + 1 < w {
        visit_step(s1.0, s1.1, p + 1)
    } else {
        s1
    };
    let s3 = if y > 0 {
        visit_step(s2.0, s2.1, p - w)
    } else {
        s2
    };
    if y + 1 < h {
        visit_step(s3.0, s3.1, p + w)
    } else {
        s3
    }
}

/// The visited pixels and the queue of a breadth-first search from `s` over a `w` x `h` image
/// after the first `k` pixels of the queue were expanded.
pub open spec fn bfs_after(w: int, h: int, s: int, k: nat) -> (Seq<bool>, Seq<usize>)
    decreases k,
{
    if k == 0 {
        (Seq::new((w * h) as nat, |i: int| i == s), seq![s as usize])
    } else {
        let st = bfs_after(w, h, s, (k - 1) as nat);
        if k - 1 < st.1.len() {
            expand_step(w, h, st.0, st.1, st.1[k - 1] as int)
        } else {
            st
        }
    }
}

/// The `k`-th pixel taken from the queue of the breadth-first search from `s` is the first one
/// labelled `label`.
pub open spec fn bfs_first(labels: Seq<usize>, w: int, h: int, s: int, label: usize, k: nat) -> bool {
    &&& k < bfs_after(w, h, s, k).1.len()
    &&& labels[bfs_after(w, h, s, k).1[k as int] as int] == label
    &&& forall|j: nat|
        j < k ==> j < (#[trigger] bfs_after(w, h, s, j)).1.len() && labels[bfs_after(w, h, s, j).1[j as int] as int]
            != label
}

/// Visiting with a longer queue in front pushes onto the same end.
proof fn lemma_visit_concat(v: Seq<bool>, pre: Seq<usize>, q: Seq<usize>, r: int)
    ensures
        visit_step(v, pre + q, r) == (visit_step(v, q, r).0, pre + visit_step(v, q, r).1),
{
    if !v[r] {
        assert((pre + q).push(r as usize) =~= pre + q.push(r as usize));
    }
}

/// Expanding with a longer queue in front pushes onto the same end.
proof fn lemma_expand_concat(w: int, h: int, v: Seq<bool>, pre: Seq<usize>, q: Seq<usize>, p: int)
    ensures
        expand_step(w, h, v, pre + q, p) == (expand_step(w, h, v, q, p).0, pre + expand_step(w, h, v, q, p).1),
{
    let x = p % w;
    let y = p / w;
    lemma_visit_concat(v, pre, q, p - 1);
    let a1 = if x > 0 { visit_step(v, q, p - 1) } else { (v, q) };
    lemma_visit_concat(a1.0, pre, a1.1, p + 1);
    let a2 = if x + 1 < w { visit_step(a1.0, a1.1, p + 1) } else { a1 };
    lemma_visit_concat(a2.0, pre, a2.1, p - w);
    let a3 = if y > 0 { visit_step(a2.0, a2.1, p - w) } else { a2 };
    lemma_visit_concat(a3.0, pre, a3.1, p + w);
}

/// An expansion of the pending part of the queue is one of the whole queue.
proof fn lemma_expansion_after(w: int, h: int, p: int, v0: Seq<bool>, a0: Seq<usize>, v: Seq<bool>, a: Seq<usize>, pre: Seq<usize>)
    requires
        expansion(w, h, p, v0, a0, v, a),
    ensures
        expansion(w, h, p, v0, pre + a0, v, pre + a),
{
    let q0 = pre + a0;
    let q = pre + a;
    assert forall|k: int| 0 <= k < q0.len() implies #[trigger] q[k] == q0[k] by {
        if k >= pre.len() {
            assert(a[k - pre.len()] == a0[k - pre.len()]);
        }
    }
    assert forall|k: int| q0.len() <= k < q.len() implies adjacent(w, h, p, #[trigger] q[k] as int) && !v0[q[k] as int]
        && v[q[k] as int] by {
        assert(q[k] == a[k - pre.len()]);
    }
    assert(q.subrange(q0.len() as int, q.len() as int) =~= a.subrange(a0.len() as int, a.len() as int));
}

/// One step of the search: after taking the pixel at `head` (not labelled `label`) and
/// visiting its neighbours, the state holds at `head + 1`.
proof fn lemma_bfs_advance(
    w: int,
    h: int,
    s: int,
    labels: Seq<usize>,
    label: usize,
    v0: Seq<bool>,
    q0: Seq<usize>,
    head: int,
    v: Seq<bool>,
    q: Seq<usize>,
)
    requires
        bfs_state(w, h, s, labels, label, v0, q0, head),
        head < q0.len(),
        labels[q0[head] as int] != label,
        expansion(w, h, q0[head] as int, v0, q0, v, q),
        forall|j: int| #[trigger] adjacent(w, h, q0[head] as int, j) ==> v[j],
    ensures
        bfs_state(w, h, s, labels, label, v, q, head + 1),
{
    let n = w * h;
    let p = q0[head] as int;
    let d = manhattan(w, s, p);
    let lo = q0.len() as int;
    assert forall|k: int| lo <= k < q.len() implies manhattan(w, s, #[trigger] q[k] as int) == d + 1 by {
        lemma_adjacent_distance(w, h, s, p, q[k] as int);
        if manhattan(w, s, q[k] as int) == d - 1 {
            assert(v0[q[k] as int]);
        }
    }
    assert(manhattan(w, s, q0[lo - 1] as int) <= d + 1);
    assert forall|k1: int, k2: int| 0 <= k1 <= k2 < q.len() implies manhattan(w, s, #[trigger] q[k1] as int) <= manhattan(
        w,
        s,
        #[trigger] q[k2] as int,
    ) by {
        if k2 < lo {
            assert(q[k1] == q0[k1] && q[k2] == q0[k2]);
        } else if k1 < lo {
            assert(q[k1] == q0[k1]);
            assert(manhattan(w, s, q0[k1] as int) <= manhattan(w, s, q0[lo - 1] as int));
        }
    }
    assert forall|k: int| 0 <= k < q.len() implies (#[trigger] q[k]) < n && v[q[k] as int] by {
        if k < lo {
            assert(q[k] == q0[k]);
        }
    }
    assert forall|i: int| 0 <= i < n && #[trigger] v[i] implies q.contains(i as usize) by {
        if v0[i] {
            let k = choose|k: int| 0 <= k < q0.len() && q0[k] == i as usize;
            assert(q[k] == i as usize);
        } else {
            let k = choose|k: int| 0 <= k < q.subrange(lo, q.len() as int).len() && q.subrange(lo, q.len() as int)[k] == i as usize;
            assert(q[lo + k] == i as usize);
        }
    }
    assert forall|k: int, j: int| 0 <= k < head + 1 && #[trigger] adjacent(w, h, q[k] as int, j) implies #[trigger] v[j] by {
        assert(q[k] == q0[k]);
        if k < head {
            assert(v0[j]);
        }
    }
    assert forall|k: int| 0 <= k < head + 1 implies labels[#[trigger] q[k] as int] != label by {
        assert(q[k] == q0[k]);
    }
    if head + 1 < q.len() {
        let e = q[head + 1] as int;
        assert(manhattan(w, s, p) <= manhattan(w, s, e)) by {
            assert(q[head] == q0[head]);
        }
        assert(manhattan(w, s, e) <= d + 1) by {
            if head + 1 < lo {
                assert(q[head + 1] == q0[head + 1]);
            }
        }
        assert(manhattan(w, s, q[q.len() - 1] as int) <= manhattan(w, s, e) + 1) by {
            if q.len() - 1 < lo {
                assert(q[q.len() - 1] == q0[lo - 1]);
            }
        }
        assert forall|i: int| 0 <= i < n && manhattan(w, s, i) < manhattan(w, s, e) implies #[trigger] v[i] by {
            if manhattan(w, s, i) < d {
                assert(v0[i]);
            } else if i == s {
                assert(q0[0] == s);
                assert(v0[s]);
            } else {
                let j = lemma_step_toward(w, h, s, i);
                assert(v0[j]);
                let k = choose|k: int| 0 <= k < q0.len() && q0[k] == j as usize;
                if k >= head {
                    assert(manhattan(w, s, q0[head] as int) <= manhattan(w, s, q0[k] as int));
                }
                lemma_adjacent_symmetric(w, h, i, j);
                assert(adjacent(w, h, q0[k] as int, i));
                assert(v0[i]);
            }
        }
    }
}

/// Visits the 4-neighbours of `p` in the order left, right, up, down.
fn expand_pixel(visited: &mut Vec<bool>, queue: &mut VecDeque<usize>, width: usize, height: usize, p: usize)
    requires
        width * height <= usize::MAX,
        p < width * height,
        old(visited)@.len() == width * height,
    ensures
        expansion(width as int, height as int, p as int, old(visited)@, old(queue)@, final(visited)@, final(queue)@),
        (final(visited)@, final(queue)@) == expand_step(width as int, height as int, old(visited)@, old(queue)@, p as int),
        forall|j: int| #[trigger] adjacent(width as int, height as int, p as int, j) ==> final(visited)@[j],
{
    let ghost w = width as int;
    let ghost h = height as int;
    let ghost n = w * h;
    let ghost v0 = visited@;
    let ghost a0 = queue@;
    proof {
        lemma_row_bound(w, h, p as int);
        lemma_neighbors(w, h, p as int);
        assert(expansion(w, h, p as int, v0, a0, v0, a0)) by {
            assert forall|i: int| 0 <= i < n && #[trigger] v0[i] && !v0[i] implies a0.subrange(
                a0.len() as int,
                a0.len() as int,
            ).contains(i as usize) by {}
        }
    }
    let x = p % width;
    let y = p / width;
    if x > 0 {
        push_unvisited(visited, queue, width, height, p, p - 1, Ghost(v0), Ghost(a0));
    }
    let ghost s1 = (visited@, queue@);
    if x + 1 < width {
        push_unvisited(visited, queue, width, height, p, p + 1, Ghost(v0), Ghost(a0));
    }
    let ghost s2 = (visited@, queue@);
    if y > 0 {
        push_unvisited(visited, queue, width, height, p, p - width, Ghost(v0), Ghost(a0));
    }
    let ghost s3 = (visited@, queue@);
    if y + 1 < height {
        push_unvisited(visited, queue, width, height, p, p + width, Ghost(v0), Ghost(a0));
    }
    proof {
        assert(s1 == (if x > 0 { visit_step(v0, a0, p - 1) } else { (v0, a0) }));
        assert forall|j: int| #[trigger] adjacent(w, h, p as int, j) implies visited@[j] by {}
    }
}

/// Breadth-first search over the whole image from `start`, 4-neighbours in the order left,
/// right, up, down, for a pixel labelled `label`: the first one it meets, which is one of the
/// nearest to `start`.
#[verifier::spinoff_prover]
#[verifier::rlimit(50)]
fn nearest_labelled(labels: &Vec<usize>, width: usize, height: usize, label: usize, start: usize) -> (a: Option<usize>)
    requires
        labels@.len() == width * height,
        width * height <= usize::MAX,
        start < width * height,
    ensures
        a is None <==> forall|p: int| 0 <= p < width * height ==> labels@[p] != label,
        a matches Some(p) ==> p < width * height && labels@[p as int] == label && forall|q: int|
            0 <= q < width * height && labels@[q] == label ==> manhattan(width as int, start as int, q) >= manhattan(
                width as int,
                start as int,
                p as int,
            ),
        a matches Some(p) ==> exists|k: nat|
            #[trigger] bfs_first(labels@, width as int, height as int, start as int, label, k) && p == bfs_after(
                width as int,
                height as int,
                start as int,
                k,
            ).1[k as int],
{
    let ghost w = width as int;
    let ghost h = height as int;
    let n = labels.len();
    let ghost s = start as int;
    proof {
        lemma_positive_dims(w, h, s);
    }
    let mut visited: Vec<bool> = Vec::new();
    for i in 0..n
        invariant
            visited@ == Seq::new(i as nat, |k: int| false),
    {
        visited.push(false);
        assert(visited@ =~= Seq::new((i + 1) as nat, |k: int| false));
    }
    proof {
        lemma_count_true_zero(visited@, n as int);
        lemma_count_true_update(visited@, n as int, s);
    }
    visited.set(start, true);
    let mut queue: VecDeque<usize> = VecDeque::new();
    queue.push_back(start);
    let ghost mut seen: Seq<usize> = queue@;
    let ghost mut head: int = 0;
    proof {
        assert forall|i: int| 0 <= i < n && #[trigger] visited@[i] implies seen.contains(i as usize) by {
            assert(i == s);
            assert(seen[0] == start);
        }
        assert(bfs_state(w, h, s, labels@, label, visited@, seen, 0));
        assert(queue@ =~= seen.subrange(head, seen.len() as int));
        assert(visited@ =~= bfs_after(w, h, s, 0).0);
    }
    while queue.len() > 0
        invariant
            w == width,
            h == height,
            n == w * h,
            s == start,
            bfs_state(w, h, s, labels@, label, visited@, seen, head),
            queue@ == seen.subrange(head, seen.len() as int),
            head >= 0,
            (visited@, seen) == bfs_after(w, h, s, head as nat),
            forall|j: nat|
                j < head ==> j < (#[trigger] bfs_after(w, h, s, j)).1.len() && labels@[bfs_after(w, h, s, j).1[j as int] as int]
                    != label,
        decreases n - head,
    {
        proof {
            lemma_count_true_bound(visited@, n as int);
        }
        let p = match queue.pop_front() {
            Some(p) => p,
            None => {
                return None;
            },
        };
        assert(p == seen[head]);
        if labels[p] == label {
            proof {
                assert forall|q: int|
                    0 <= q < n && labels@[q] == label implies manhattan(w, s, q) >= manhattan(w, s, p as int) by {
                    if manhattan(w, s, q) < manhattan(w, s, p as int) {
                        assert(visited@[q]);
                        let k = choose|k: int| 0 <= k < seen.len() && seen[k] == q as usize;
                        if k >= head {
                            assert(manhattan(w, s, seen[head] as int) <= manhattan(w, s, seen[k] as int));
                        }
                    }
                }
            }
            assert(bfs_first(labels@, w, h, s, label, head as nat));
            return Some(p);
        }
        let ghost v0 = visited@;
        let ghost a0 = queue@;
        expand_pixel(&mut visited, &mut queue, width, height, p);
        proof {
            let pre = seen.subrange(0, head + 1);
            lemma_expansion_after(w, h, p as int, v0, a0, visited@, queue@, pre);
            assert(pre + a0 =~= seen);
            let seen1 = pre + queue@;
            lemma_bfs_advance(w, h, s, labels@, label, v0, seen, head, visited@, seen1);
            assert(queue@ =~= seen1.subrange(head + 1, seen1.len() as int));
            lemma_expand_concat(w, h, v0, pre, a0, p as int);
            assert(bfs_after(w, h, s, (head + 1) as nat) == expand_step(w, h, v0, seen, p as int));
            assert forall|j: nat| j < head + 1 implies j < (#[trigger] bfs_after(w, h, s, j)).1.len() && labels@[bfs_after(
                w,
                h,
                s,
                j,
            ).1[j as int] as int] != label by {
                if j == head {
                    assert(bfs_after(w, h, s, j).1 == seen);
                }
            }
            seen = seen1;
            head = head + 1;
        }
    }
    proof {
        assert forall|a: int, b: int| #[trigger] adjacent(w, h, a, b) && visited@[a] implies visited@[b] by {
            let k = choose|k: int| 0 <= k < seen.len() && seen[k] == a as usize;
            assert(adjacent(w, h, seen[k] as int, b));
        }
        assert forall|p: int| 0 <= p < n implies labels@[p] != label by {
            lemma_closed_covers(w, h, s, visited@, p);
            let k = choose|k: int| 0 <= k < seen.len() && seen[k] == p as usize;
            assert(labels@[seen[k] as int] != label);
        }
    }
    None
}

proof fn lemma_count_true_zero(v: Seq<bool>, n: int)
    requires
        0 <= n <= v.len(),
        forall|i: int| 0 <= i < n ==> !v[i],
    ensures
        count_true(v, n) == 0,
    decreases n,
{
    if n > 0 {
        lemma_count_true_zero(v, n - 1);
    }
}

/// `v` limited to `0..=hi`.
pub open spec fn clamp_to(v: int, hi: int) -> int {
    if v > hi {
        hi
    } else {
        v
    }
}

/// A pixel labelled `label` near `(cx, cy)` (clamped into the image): the first taken from the
/// queue of a breadth-first search from there over 4-neighbours (left, right, up, down), hence at
/// the least Manhattan distance from it; `None` when no pixel has that label.
pub fn group_anchor(labels: &Vec<usize>, width: usize, height: usize, label: usize, cx: usize, cy: usize) -> (a: Option<(usize, usize)>)
    requires
        labels@.len() == width * height,
        width * height <= usize::MAX,
    ensures
        a is None <==> forall|p: int| 0 <= p < width * height ==> labels@[p] != label,
        a matches Some((x, y)) ==> {
            let start = clamp_to(cy as int, height - 1) * width + clamp_to(cx as int, width - 1);
            let p = y * width + x;
            &&& x < width
            &&& y < height
            &&& labels@[p] == label
            &&& forall|q: int|
                0 <= q < width * height && labels@[q] == label ==> manhattan(width as int, start, q) >= manhattan(
                    width as int,
                    start,
                    p,
                )
            &&& exists|k: nat|
                #[trigger] bfs_first(labels@, width as int, height as int, start, label, k) && p == bfs_after(
                    width as int,
                    height as int,
                    start,
                    k,
                ).1[k as int]
        },
{
    if width == 0 || height == 0 {
        assert(width * height == 0);
        return None;
    }
    let x0 = if cx > width - 1 {
        width - 1
    } else {
        cx
    };
    let y0 = if cy > height - 1 {
        height - 1
    } else {
        cy
    };
    proof {
        assert(y0 * width + x0 < width * height) by (nonlinear_arith)
            requires
                x0 < width,
                y0 < height,
        ;
    }
    let start = y0 * width + x0;
    match nearest_labelled(labels, width, height, label, start) {
        Some(p) => {
            proof {
                lemma_row_bound(width as int, height as int, p as int);
                lemma_fundamental_div_mod(p as int, width as int);
                assert(p == (p / width) * width + p % width) by (nonlinear_arith)
                    requires
                        p == width * (p / width) + p % width,
                ;
            }
            Some((p % width, p / width))
        },
        None => None,
    }
}

/// Pixel `p` of an image `w` pixels wide lies within `r` of `(cx, cy)`.
pub open spec fn in_disc(w: int, p: int, cx: int, cy: int, r: int) -> bool {
    (p % w - cx) * (p % w - cx) + (p / w - cy) * (p / w - cy) <= r * r
}

/// An RGB picture with the pixels within `r` of `(cx, cy)` painted red.
pub open spec fn painted_disc(rgb: Seq<u8>, w: int, h: int, cx: int, cy: int, r: int) -> Seq<u8> {
    Seq::new(
        rgb.len(),
        |i: int|
            if i / 3 < w * h && in_disc(w, i / 3, cx, cy, r) {
                if i % 3 == 0 {
                    255u8
                } else {
                    0u8
                }
            } else {
                rgb[i]
            },
    )
}

proof fn lemma_pixel_of_byte(w: int, h: int, i: int)
    requires
        0 <= w,
        0 <= h,
        0 <= i < 3 * w * h,
    ensures
        0 <= i / 3 < w * h,
{
    assert(0 <= i / 3 < w * h) by (nonlinear_arith)
        requires
            0 <= i < 3 * w * h,
    ;
}

proof fn lemma_square_bound(d: int, r: int)
    requires
        0 <= r,
        d * d <= r * r,
    ensures
        -r <= d <= r,
{
    if d > r {
        assert(d * d > r * r) by (nonlinear_arith)
            requires
                d > r,
                r >= 0,
        ;
    }
    if d < -r {
        assert(d * d > r * r) by (nonlinear_arith)
            requires
                d < -r,
                r >= 0,
        ;
    }
}

/// Paints red the pixels of the `width` x `height` RGB picture within `radius` of `(cx, cy)`.
pub fn paint_disc(rgb: &mut Vec<u8>, width: usize, height: usize, cx: usize, cy: usize, radius: usize)
    requires
        old(rgb)@.len() == 3 * width * height,
        3 * width * height <= usize::MAX,
        cx < width,
        cy < height,
        radius <= 0x7fff,
    ensures
        final(rgb)@ == painted_disc(old(rgb)@, width as int, height as int, cx as int, cy as int, radius as int),
{
    let ghost w = width as int;
    let ghost h = height as int;
    let ghost r = radius as int;
    let ghost rgb0 = rgb@;
    let x_lo = if cx >= radius {
        cx - radius
    } else {
        0
    };
    let x_hi = if width - 1 - cx >= radius {
        cx + radius
    } else {
        width - 1
    };
    let y_lo = if cy >= radius {
        cy - radius
    } else {
        0
    };
    let y_hi = if height - 1 - cy >= radius {
        cy + radius
    } else {
        height - 1
    };
    let mut y = y_lo;
    while y <= y_hi
        invariant
            w == width,
            h == height,
            r == radius,
            3 * width * height <= usize::MAX,
            radius <= 0x7fff,
            cx < width,
            cy < height,
            x_lo <= cx <= x_hi < width,
            y_lo <= cy <= y_hi < height,
            x_hi - cx <= radius,
            cx - x_lo <= radius,
            y_hi - cy <= radius,
            cy - y_lo <= radius,
            x_lo == cx - radius || x_lo == 0,
            y_lo == cy - radius || y_lo == 0,
            x_hi == cx + radius || x_hi == width - 1,
            y_hi == cy + radius || y_hi == height - 1,
            y_lo <= y <= y_hi + 1,
            rgb@.len() == rgb0.len(),
            rgb0.len() == 3 * w * h,
            forall|i: int|
                0 <= i < rgb0.len() ==> #[trigger] rgb@[i] == (if y_lo <= i / 3 / w < y && x_lo <= i / 3 % w <= x_hi
                    && in_disc(w, i / 3, cx as int, cy as int, r) {
                    if i % 3 == 0 {
                        255u8
                    } else {
                        0u8
                    }
                } else {
                    rgb0[i]
                }),
        decreases y_hi + 1 - y,
    {
        let mut x = x_lo;
        while x <= x_hi
            invariant
                w == width,
                h == height,
                r == radius,
                3 * width * height <= usize::MAX,
                radius <= 0x7fff,
                cx < width,
                cy < height,
                x_lo <= cx <= x_hi < width,
                y_lo <= cy <= y_hi < height,
                x_hi - cx <= radius,
                cx - x_lo <= radius,
                y_hi - cy <= radius,
                cy - y_lo <= radius,
                y_lo <= y <= y_hi,
                x_lo <= x <= x_hi + 1,
                rgb@.len() == rgb0.len(),
                rgb0.len() == 3 * w * h,
                forall|i: int|
                    0 <= i < rgb0.len() ==> #[trigger] rgb@[i] == (if ((y_lo <= i / 3 / w < y && x_lo <= i / 3 % w <= x_hi) || (i
                        / 3 / w == y && x_lo <= i / 3 % w < x)) && in_disc(w, i / 3, cx as int, cy as int, r) {
                        if i % 3 == 0 {
                            255u8
                        } else {
                            0u8
                        }
                    } else {
                        rgb0[i]
                    }),
            decreases x_hi + 1 - x,
        {
            let dx = if x >= cx {
                x - cx
            } else {
                cx - x
            };
            let dy = if y >= cy {
                y - cy
            } else {
                cy - y
            };
            assert(dx * dx <= 0x7fff * 0x7fff && dy * dy <= 0x7fff * 0x7fff) by (nonlinear_arith)
                requires
                    dx <= 0x7fff,
                    dy <= 0x7fff,
            ;
            assert(radius * radius <= 0x7fff * 0x7fff) by (nonlinear_arith)
                requires
                    radius <= 0x7fff,
            ;
            let ghost p = y * w + x;
            proof {
                assert(p < w * h) by (nonlinear_arith)
                    requires
                        p == y * w + x,
                        x < w,
                        y < h,
                ;
                lemma_fundamental_div_mod_converse(p, w, y as int, x as int);
                assert((x - cx) * (x - cx) == dx * dx && (y - cy) * (y - cy) == dy * dy) by (nonlinear_arith)
                    requires
                        dx == x - cx || dx == cx - x,
                        dy == y - cy || dy == cy - y,
                ;
                assert(3 * p + 2 < 3 * w * h) by (nonlinear_arith)
                    requires
                        p < w * h,
                ;
            }
            if dx * dx + dy * dy <= radius * radius {
                let i = 3 * (y * width + x);
                rgb.set(i, 255u8);
                rgb.set(i + 1, 0u8);
                rgb.set(i + 2, 0u8);
            }
            proof {
                assert forall|i: int| 0 <= i < rgb0.len() implies #[trigger] rgb@[i] == (if ((y_lo <= i / 3 / w < y && x_lo
                    <= i / 3 % w <= x_hi) || (i / 3 / w == y && x_lo <= i / 3 % w < x + 1)) && in_disc(
                    w,
                    i / 3,
                    cx as int,
                    cy as int,
                    r,
                ) {
                    if i % 3 == 0 {
                        255u8
                    } else {
                        0u8
                    }
                } else {
                    rgb0[i]
                }) by {
                    lemma_pixel_of_byte(w, h, i);
                    lemma_positive_dims(w, h, i / 3);
                    lemma_row_bound(w, h, i / 3);
                    if i / 3 == p {
                        assert(i == 3 * p || i == 3 * p + 1 || i == 3 * p + 2);
                    } else {
                        assert(i < 3 * p || i > 3 * p + 2);
                    }
                }
            }
            x = x + 1;
        }
        y = y + 1;
    }
    proof {
        assert forall|i: int| 0 <= i < rgb0.len() implies #[trigger] rgb@[i] == painted_disc(rgb0, w, h, cx as int, cy as int, r)[i] by {
            lemma_pixel_of_byte(w, h, i);
            lemma_positive_dims(w, h, i / 3);
            lemma_row_bound(w, h, i / 3);
            if in_disc(w, i / 3, cx as int, cy as int, r) {
                let px = i / 3 % w;
                let py = i / 3 / w;
                assert((px - cx) * (px - cx) <= r * r && (py - cy) * (py - cy) <= r * r) by (nonlinear_arith)
                    requires
                        (px - cx) * (px - cx) + (py - cy) * (py - cy) <= r * r,
                ;
                lemma_square_bound(px - cx, r);
                lemma_square_bound(py - cy, r);
            }
        }
        assert(rgb@ =~= painted_disc(rgb0, w, h, cx as int, cy as int, r));
    }
}

proof fn lemma_rounded_mean_bound(sum: int, count: int, m: int)
    requires
        count > 0,
        0 <= sum <= count * m,
    ensures
        0 <= rounded_mean_of(sum, count) <= m,
{
    let q = rounded_mean_of(sum, count);
    lemma_fundamental_div_mod(2 * sum + count, 2 * count);
    let r = (2 * sum + count) % (2 * count);
    assert(0 <= q <= m) by (nonlinear_arith)
        requires
            2 * sum + count == 2 * count * q + r,
            0 <= r < 2 * count,
            count > 0,
            0 <= sum <= count * m,
    ;
}

/// Channel `k` (0 red, 1 green, 2 blue) of a color.
pub open spec fn channel(c: (u8, u8, u8), k: int) -> u8 {
    if k == 0 {
        c.0
    } else if k == 1 {
        c.1
    } else {
        c.2
    }
}

/// The color that marks group `idx` in the centroid picture, from the index taken as a 32-bit
/// number through three linear congruential steps.
pub open spec fn marker_color(idx: int) -> (u8, u8, u8) {
    let k = idx % 0x1_0000_0000;
    (
        ((k * 1664525 + 1013904223) % 256) as u8,
        ((k * 22695477 + 1) % 256) as u8,
        ((k * 1103515245 + 12345) % 256) as u8,
    )
}

/// The color that marks group `idx` in the centroid picture.
pub fn marker_color_of(idx: usize) -> (c: (u8, u8, u8))
    ensures
        c == marker_color(idx as int),
{
    let k: u64 = (idx as u64) % 0x1_0000_0000u64;
    let r = ((k * 1664525 + 1013904223) % 256) as u8;
    let g = ((k * 22695477 + 1) % 256) as u8;
    let b = ((k * 1103515245 + 12345) % 256) as u8;
    (r, g, b)
}

/// Group `g` has pixels and its rounded centroid is pixel `p` of the `w` x `h` image.
pub open spec fn marks(g: PixelGroup, w: int, h: int, p: int) -> bool {
    let cx = rounded_mean_of(g.sum_x as int, g.count as int);
    let cy = rounded_mean_of(g.sum_y as int, g.count as int);
    g.count > 0 && cx < w && cy < h && p == cy * w + cx
}

/// The last of the first `n` groups whose centroid is pixel `p`, if any.
pub open spec fn last_marking(groups: Seq<PixelGroup>, w: int, h: int, p: int, n: int) -> Option<int>
    decreases n,
{
    if n <= 0 {
        None
    } else if marks(groups[n - 1], w, h, p) {
        Some(n - 1)
    } else {
        last_marking(groups, w, h, p, n - 1)
    }
}

/// The centroid picture: black, each group's centroid pixel in the group's marker color (the
/// later group's where two share one).
pub open spec fn centroid_marks_of(groups: Seq<PixelGroup>, w: int, h: int) -> Seq<u8> {
    Seq::new(
        (3 * w * h) as nat,
        |i: int|
            match last_marking(groups, w, h, i / 3, groups.len() as int) {
                Some(l) => channel(marker_color(l), i % 3),
                None => 0u8,
            },
    )
}

/// The `width` x `height` RGB centroid picture of the groups: black, with the rounded centroid of
/// each group in its marker color.
pub fn centroid_marks(groups: &Vec<PixelGroup>, width: usize, height: usize) -> (rgb: Vec<u8>)
    requires
        3 * width * height <= usize::MAX,
    ensures
        rgb@ == centroid_marks_of(groups@, width as int, height as int),
{
    let ghost w = width as int;
    let ghost h = height as int;
    proof {
        assert(w * h <= 3 * w * h && 3 * (w * h) == 3 * w * h) by (nonlinear_arith)
            requires
                0 <= w,
                0 <= h,
        ;
    }
    let total = 3 * (width * height);
    let mut rgb: Vec<u8> = Vec::new();
    for i in 0..total
        invariant
            rgb@ == Seq::new(i as nat, |k: int| 0u8),
    {
        rgb.push(0u8);
        assert(rgb@ =~= Seq::new((i + 1) as nat, |k: int| 0u8));
    }
    for l in 0..groups.len()
        invariant
            w == width,
            h == height,
            total == 3 * w * h,
            total <= usize::MAX,
            rgb@.len() == total,
            forall|i: int|
                0 <= i < total ==> #[trigger] rgb@[i] == match last_marking(groups@, w, h, i / 3, l as int) {
                    Some(m) => channel(marker_color(m), i % 3),
                    None => 0u8,
                },
    {
        let g = groups[l];
        let ghost prev = rgb@;
        if g.count > 0 {
            let (cx, cy) = group_centroid(&g);
            if cx < width && cy < height {
                let ghost p = cy * w + cx;
                proof {
                    assert(p < w * h) by (nonlinear_arith)
                        requires
                            p == cy * w + cx,
                            cx < w,
                            cy < h,
                    ;
                    assert(3 * p + 2 < 3 * w * h) by (nonlinear_arith)
                        requires
                            p < w * h,
                    ;
                }
                let c = marker_color_of(l);
                let i = 3 * (cy * width + cx);
                rgb.set(i, c.0);
                rgb.set(i + 1, c.1);
                rgb.set(i + 2, c.2);
                proof {
                    assert forall|j: int| 0 <= j < total implies #[trigger] rgb@[j] == match last_marking(
                        groups@,
                        w,
                        h,
                        j / 3,
                        l + 1,
                    ) {
                        Some(m) => channel(marker_color(m), j % 3),
                        None => 0u8,
                    } by {
                        if j / 3 == p {
                            assert(j == 3 * p || j == 3 * p + 1 || j == 3 * p + 2);
                            assert(marks(g, w, h, j / 3));
                        } else {
                            assert(j < 3 * p || j > 3 * p + 2);
                            assert(rgb@[j] == prev[j]);
                        }
                    }
                }
            }
        }
    }
    assert(rgb@ =~= centroid_marks_of(groups@, w, h));
    rgb
}

/// The picture with discs of radius `r` painted red around each center, in order.
pub open spec fn painted_discs(rgb: Seq<u8>, w: int, h: int, centers: Seq<(usize, usize)>, r: int) -> Seq<u8>
    decreases centers.len(),
{
    if centers.len() == 0 {
        rgb
    } else {
        painted_disc(
            painted_discs(rgb, w, h, centers.drop_last(), r),
            w,
            h,
            centers.last().0 as int,
            centers.last().1 as int,
            r,
        )
    }
}

/// The rounded centroids of the groups.
pub open spec fn centroids_of(groups: Seq<PixelGroup>) -> Seq<(usize, usize)> {
    Seq::new(
        groups.len(),
        |l: int|
            (
                rounded_mean_of(groups[l].sum_x as int, groups[l].count as int) as usize,
                rounded_mean_of(groups[l].sum_y as int, groups[l].count as int) as usize,
            ),
    )
}

/// `anchor` is the pixel labelled `l` that a breadth-first search from the rounded centroid of
/// group `g` (4-neighbours left, right, up, down) takes first from its queue; it lies at the least
/// Manhattan distance from the centroid.
pub open spec fn anchors_group(labels: Seq<usize>, w: int, h: int, l: int, g: PixelGroup, anchor: (usize, usize)) -> bool {
    let start = rounded_mean_of(g.sum_y as int, g.count as int) * w + rounded_mean_of(g.sum_x as int, g.count as int);
    let p = anchor.1 * w + anchor.0;
    &&& anchor.0 < w
    &&& anchor.1 < h
    &&& labels[p] == l
    &&& forall|q: int| 0 <= q < w * h && labels[q] == l ==> manhattan(w, start, q) >= manhattan(w, start, p)
    &&& exists|k: nat| #[trigger] bfs_first(labels, w, h, start, l as usize, k) && p == bfs_after(w, h, start, k).1[k as int]
}

/// The pictures of the groups of a binary image.
pub struct GroupPictures {
    /// Whether the binary image was inverted because most of it was foreground.
    pub inverted: bool,
    /// The binary image the groups were found in (inverted when `inverted`).
    pub binary: Vec<u8>,
    /// The edge map of the groups.
    pub edges: Vec<u8>,
    /// The group label of each pixel.
    pub labels: Vec<usize>,
    /// The groups in the order of their first pixels.
    pub groups: Vec<PixelGroup>,
    /// For each group, a pixel of it nearest to its rounded centroid.
    pub anchors: Vec<(usize, usize)>,
    /// RGB: the edges in red over the grayscale image, with a red disc at each anchor.
    pub overlay: Vec<u8>,
    /// RGB: each group's rounded centroid in its marker color, on black.
    pub centroids: Vec<u8>,
    /// RGB: the binary image in white on black, with a red disc at each rounded centroid.
    pub binary_with_dots: Vec<u8>,
}

/// Radius of the discs that mark the groups.
pub const MARK_RADIUS: usize = 5;

/// The analysis of the groups of foreground pixels of a `width` x `height` binary image, with
/// the grayscale image it came from: the binary image inverted when most of it is foreground,
/// its edge map, the labelled groups, an anchor pixel per group, and the pictures drawn from them.
pub fn analyse_groups(gray: &Vec<u8>, binary: Vec<u8>, width: usize, height: usize) -> (res: GroupPictures)
    requires
        gray@.len() == width * height,
        binary@.len() == width * height,
        group_sums_fit(
            (if 2 * foreground_count(binary@, binary@.len() as int) > binary@.len() {
                inverted(binary@)
            } else {
                binary@
            }),
            width as int,
            height as int,
        ),
        3 * width * height <= usize::MAX,
    ensures
        res.inverted == (2 * foreground_count(binary@, binary@.len() as int) > binary@.len()),
        res.binary@ == (if res.inverted { inverted(binary@) } else { binary@ }),
        res.edges@ == edge_map_of(res.binary@, width as int, height as int),
        labeling(res.binary@, width as int, height as int, res.labels@, res.groups@),
        res.anchors@.len() == res.groups@.len(),
        forall|l: int|
            0 <= l < res.groups@.len() ==> #[trigger] anchors_group(
                res.labels@,
                width as int,
                height as int,
                l + 1,
                res.groups@[l],
                res.anchors@[l],
            ),
        res.overlay@ == painted_discs(
            edge_overlay_of(gray@, res.edges@),
            width as int,
            height as int,
            res.anchors@,
            MARK_RADIUS as int,
        ),
        res.centroids@ == centroid_marks_of(res.groups@, width as int, height as int),
        res.binary_with_dots@ == painted_discs(
            binary_rgb_of(res.binary@),
            width as int,
            height as int,
            centroids_of(res.groups@),
            MARK_RADIUS as int,
        ),
{
    let ghost w = width as int;
    let ghost h = height as int;
    proof {
        assert(3 * (w * h) == 3 * w * h) by (nonlinear_arith);
        assert(w * h <= 3 * w * h) by (nonlinear_arith)
            requires
                w >= 0,
                h >= 0,
        ;
    }
    let mut bin = binary;
    let inv = invert_if_majority(&mut bin);
    let edges = edge_map(&bin, width, height);
    let mut overlay = edge_overlay(gray, &edges);
    let (labels, groups) = label_groups(&bin, width, height);
    let ghost overlay0 = overlay@;
    let mut anchors: Vec<(usize, usize)> = Vec::new();
    for l in 0..groups.len()
        invariant
            w == width,
            h == height,
            width * height <= usize::MAX,
            3 * width * height <= usize::MAX,
            labeling(bin@, w, h, labels@, groups@),
            anchors@.len() == l,
            forall|k: int| 0 <= k < l ==> #[trigger] anchors_group(labels@, w, h, k + 1, groups@[k], anchors@[k]),
            overlay@ == painted_discs(overlay0, w, h, anchors@, MARK_RADIUS as int),
            overlay0.len() == 3 * w * h,
    {
        let g = groups[l];
        proof {
            assert(group_matches(labels@, w, l + 1, groups@[l as int]));
            lemma_totals_bounds(labels@, w, h, l + 1, w * h);
            lemma_positive_dims(w, h, g.first as int);
            lemma_rounded_mean_bound(g.sum_x as int, g.count as int, w - 1);
            lemma_rounded_mean_bound(g.sum_y as int, g.count as int, h - 1);
        }
        let (cx, cy) = group_centroid(&g);
        let a = group_anchor(&labels, width, height, l + 1, cx, cy);
        let (ax, ay) = match a {
            Some(xy) => xy,
            None => {
                proof {
                    assert(labels@[g.first as int] == l + 1);
                }
                (0, 0)
            },
        };
        proof {
            assert(a is Some);
            assert(clamp_to(cy as int, h - 1) == cy && clamp_to(cx as int, w - 1) == cx);
        }
        let ghost before = anchors@;
        anchors.push((ax, ay));
        proof {
            painted_discs_len(overlay0, w, h, before, MARK_RADIUS as int);
        }
        paint_disc(&mut overlay, width, height, ax, ay, MARK_RADIUS);
        proof {
            assert(anchors@.drop_last() =~= before);
        }
    }
    let centroids = centroid_marks(&groups, width, height);
    let mut with_dots = binary_rgb(&bin);
    let ghost dots0 = with_dots@;
    let ghost cents = centroids_of(groups@);
    for l in 0..groups.len()
        invariant
            w == width,
            h == height,
            width * height <= usize::MAX,
            3 * width * height <= usize::MAX,
            labeling(bin@, w, h, labels@, groups@),
            cents == centroids_of(groups@),
            dots0.len() == 3 * w * h,
            with_dots@ == painted_discs(dots0, w, h, cents.take(l as int), MARK_RADIUS as int),
    {
        let g = groups[l];
        proof {
            assert(group_matches(labels@, w, l + 1, groups@[l as int]));
            lemma_totals_bounds(labels@, w, h, l + 1, w * h);
            lemma_positive_dims(w, h, g.first as int);
            lemma_rounded_mean_bound(g.sum_x as int, g.count as int, w - 1);
            lemma_rounded_mean_bound(g.sum_y as int, g.count as int, h - 1);
            painted_discs_len(dots0, w, h, cents.take(l as int), MARK_RADIUS as int);
        }
        let (cx, cy) = group_centroid(&g);
        paint_disc(&mut with_dots, width, height, cx, cy, MARK_RADIUS);
        proof {
            assert(cents.take(l + 1).drop_last() =~= cents.take(l as int));
            assert(cents.take(l + 1).last() == (cx, cy));
        }
    }
    assert(cents.take(groups@.len() as int) =~= cents);
    GroupPictures {
        inverted: inv,
        binary: bin,
        edges,
        labels,
        groups,
        anchors,
        overlay,
        centroids,
        binary_with_dots: with_dots,
    }
}

proof fn painted_discs_len(rgb: Seq<u8>, w: int, h: int, centers: Seq<(usize, usize)>, r: int)
    ensures
        painted_discs(rgb, w, h, centers, r).len() == rgb.len(),
    decreases centers.len(),
{
    if centers.len() > 0 {
        painted_discs_len(rgb, w, h, centers.drop_last(), r);
    }
}

/// For each of the `n` groups, the indices of its pixels (those labelled with its number), in
/// increasing order.
pub fn group_pixel_lists(labels: &Vec<usize>, n: usize) -> (lists: Vec<Vec<usize>>)
    ensures
        lists@.len() == n,
        forall|l: int|
            0 <= l < n ==> {
                let ps = (#[trigger] lists@[l])@;
                &&& forall|a: int, b: int| 0 <= a < b < ps.len() ==> ps[a] < ps[b]
                &&& forall|k: int| 0 <= k < ps.len() ==> ps[k] < labels@.len() && labels@[ps[k] as int] == l + 1
                &&& forall|p: int| 0 <= p < labels@.len() && labels@[p] == l + 1 ==> ps.contains(p as usize)
            },
{
    let mut lists: Vec<Vec<usize>> = Vec::new();
    for l in 0..n
        invariant
            lists@.len() == l,
            forall|k: int| 0 <= k < l ==> (#[trigger] lists@[k])@.len() == 0,
    {
        lists.push(Vec::new());
    }
    for p in 0..labels.len()
        invariant
            lists@.len() == n,
            forall|l: int|
                0 <= l < n ==> {
                    let ps = (#[trigger] lists@[l])@;
                    &&& forall|a: int, b: int| 0 <= a < b < ps.len() ==> ps[a] < ps[b]
                    &&& forall|k: int| 0 <= k < ps.len() ==> ps[k] < p && labels@[ps[k] as int] == l + 1
                    &&& forall|q: int| 0 <= q < p && labels@[q] == l + 1 ==> ps.contains(q as usize)
                },
    {
        let v = labels[p];
        if v >= 1 && v <= n {
            let ghost before = lists@;
            lists.push(Vec::new());
            let mut list = lists.swap_remove(v - 1);
            proof {
                assert(list@ == before[v - 1]@);
                assert(lists@.len() == before.len());
                assert(forall|k: int| 0 <= k < n && k != v - 1 ==> lists@[k] == before[k]);
            }
            list.push(p);
            lists.set(v - 1, list);
            proof {
                assert forall|l: int| 0 <= l < n implies {
                    let ps = (#[trigger] lists@[l])@;
                    &&& forall|a: int, b: int| 0 <= a < b < ps.len() ==> ps[a] < ps[b]
                    &&& forall|k: int| 0 <= k < ps.len() ==> ps[k] < p + 1 && labels@[ps[k] as int] == l + 1
                    &&& forall|q: int| 0 <= q < p + 1 && labels@[q] == l + 1 ==> ps.contains(q as usize)
                } by {
                    let ps = lists@[l]@;
                    if l == v - 1 {
                        let old_ps = before[l]@;
                        assert(ps == old_ps.push(p));
                        assert forall|q: int| 0 <= q < p + 1 && labels@[q] == l + 1 implies ps.contains(q as usize) by {
                            if q == p {
                                assert(ps[ps.len() - 1] == p);
                            } else {
                                let k = choose|k: int| 0 <= k < old_ps.len() && old_ps[k] == q as usize;
                                assert(ps[k] == q as usize);
                            }
                        }
                    } else {
                        assert(ps == before[l]@);
                    }
                }
            }
        }
    }
    lists
}

} // verus!
