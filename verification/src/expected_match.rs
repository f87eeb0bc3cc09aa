//! Matching a grid of arrow characters against the expected 8x7 snippet, under every symmetry of
//! the grid and every ordering of the arrows, over windows made only of arrows.
use vstd::prelude::*;

use crate::arrow_perm::{
    all_arrow_perms_chars, apply_arrow_perm, char_perm_ranks, char_rank, is_rank_perm, lists_all_perms,
    perm_code, remap_grid,
};
use crate::cells::{is_arrow, is_arrow_char};
use crate::grid_xform::{apply_xform_chars, is_rect, lemma_xform_undone_by_inverse, xform_grid, xform_ok, GridXform};
use crate::minify_arrow_grid::{before_in_row_major, rank_glyph};
use crate::pattern_search::{combo_before, score_window, window_score, xform_list, xform_order};

verus! {

/// The arrow characters of a tuple of ranks.
pub open spec fn glyph_chars(p: (int, int, int, int)) -> Seq<char> {
    seq![rank_glyph(p.0), rank_glyph(p.1), rank_glyph(p.2), rank_glyph(p.3)]
}

/// The character grid under transform number `i` of the search order, with its arrows reordered
/// by `p`.
pub open spec fn char_candidate(c: Seq<Seq<char>>, i: int, p: (int, int, int, int)) -> Seq<Seq<char>> {
    remap_grid(xform_grid(c, xform_order(i)), glyph_chars(p))
}

/// The window of the size of `e` at `(top, left)` lies in `g` and holds only arrows.
pub open spec fn arrow_window(g: Seq<Seq<char>>, e: Seq<Seq<char>>, top: int, left: int) -> bool {
    &&& 0 <= top
    &&& top + e.len() <= g.len()
    &&& 0 <= left
    &&& left + e[0].len() <= g[0].len()
    &&& forall|r: int, c: int| 0 <= r < e.len() && 0 <= c < e[0].len() ==> is_arrow_char(#[trigger] g[top + r][left + c])
}

/// Number of cells of `e` that the window of `g` at `(top, left)` matches.
pub open spec fn match_score(g: Seq<Seq<char>>, e: Seq<Seq<char>>, top: int, left: int) -> int {
    window_score(g, e, top, left, e.len() as int)
}

/// `res` is `(score, top, left)` for the first arrow window of `g`, in row-major order, with the
/// highest score, when that score is above `cur` (any score when `cur` is `None`); `None` when
/// no arrow window scores above `cur`.
pub open spec fn best_window_in(
    g: Seq<Seq<char>>,
    e: Seq<Seq<char>>,
    cur: Option<usize>,
    res: Option<(usize, usize, usize)>,
) -> bool {
    match res {
        Some(b) => {
            &&& arrow_window(g, e, b.1 as int, b.2 as int)
            &&& b.0 == match_score(g, e, b.1 as int, b.2 as int)
            &&& (cur matches Some(c) ==> b.0 > c)
            &&& forall|t: int, l: int| #[trigger] arrow_window(g, e, t, l) ==> match_score(g, e, t, l) <= b.0
            &&& forall|t: int, l: int|
                #[trigger] arrow_window(g, e, t, l) && before_in_row_major(t, l, b.1 as int, b.2 as int)
                    ==> match_score(g, e, t, l) < b.0
        },
        None => forall|t: int, l: int|
            #[trigger] arrow_window(g, e, t, l) ==> (cur matches Some(c) && match_score(g, e, t, l) <= c),
    }
}

/// The window of the size of `expected` at `(top, left)` holds only arrows.
fn window_has_only_arrows(g: &Vec<Vec<char>>, top: usize, left: usize, eh: usize, ew: usize) -> (b: bool)
    requires
        top + eh <= g@.len(),
        forall|r: int| 0 <= r < eh ==> left + ew <= (#[trigger] g@[top + r])@.len(),
    ensures
        b == forall|r: int, c: int| 0 <= r < eh && 0 <= c < ew ==> is_arrow_char(#[trigger] g.deep_view()[top + r][left + c]),
{
    let ghost gv = g.deep_view();
    let gl = g.len();
    for r in 0..eh
        invariant
            gv == g.deep_view(),
            gl == g@.len(),
            top + eh <= g@.len(),
            forall|r: int| 0 <= r < eh ==> left + ew <= (#[trigger] g@[top + r])@.len(),
            forall|rr: int, c: int| 0 <= rr < r && 0 <= c < ew ==> is_arrow_char(#[trigger] gv[top + rr][left + c]),
    {
        assert(left + ew <= g@[top + r]@.len());
        let rl = g[top + r].len();
        for c in 0..ew
            invariant
                gv == g.deep_view(),
                gl == g@.len(),
                top + eh <= g@.len(),
                r < eh,
                rl == g@[top + r]@.len(),
                left + ew <= rl,
                forall|rr: int, c: int| 0 <= rr < r && 0 <= c < ew ==> is_arrow_char(#[trigger] gv[top + rr][left + c]),
                forall|cc: int| 0 <= cc < c ==> is_arrow_char(#[trigger] gv[top + r][left + cc]),
        {
            assert(gv[top + r][left + c] == g@[top + r]@[left + c]);
            if !is_arrow(g[top + r][left + c]) {
                return false;
            }
        }
    }
    true
}

/// The first arrow window of `g` (in row-major order) with the highest score against
/// `expected`, as `(score, top, left)`, when that score is above `cur`.
fn best_window_in_grid(g: &Vec<Vec<char>>, expected: &Vec<Vec<char>>, cur: Option<usize>) -> (res: Option<(usize, usize, usize)>)
    requires
        is_rect(g.deep_view()),
        is_rect(expected.deep_view()),
        expected@.len() * expected@[0]@.len() <= usize::MAX,
    ensures
        best_window_in(g.deep_view(), expected.deep_view(), cur, res),
{
    let ghost gv = g.deep_view();
    let ghost ev = expected.deep_view();
    let gh = g.len();
    let gw = g[0].len();
    let eh = expected.len();
    let ew = expected[0].len();
    assert(gv[0].len() == gw && ev[0].len() == ew);
    assert forall|r: int| 0 <= r < gh implies (#[trigger] g@[r])@.len() == gw by {
        assert(gv[r].len() == g@[r]@.len());
    }
    assert forall|r: int| 0 <= r < eh implies (#[trigger] expected@[r])@.len() == ew by {
        assert(ev[r].len() == expected@[r]@.len());
    }
    if gh < eh || gw < ew {
        return None;
    }
    let mut best: Option<(usize, usize, usize)> = None;
    let mut bar = cur;
    for top in 0..gh - eh + 1
        invariant
            gv == g.deep_view(),
            ev == expected.deep_view(),
            is_rect(gv),
            is_rect(ev),
            gh == gv.len(),
            gw == gv[0].len(),
            eh == ev.len(),
            ew == ev[0].len(),
            eh * ew <= usize::MAX,
            gh >= eh,
            gw >= ew,
            forall|r: int| 0 <= r < gh ==> (#[trigger] g@[r])@.len() == gw,
            forall|r: int| 0 <= r < eh ==> (#[trigger] expected@[r])@.len() == ew,
            best is None ==> bar == cur,
            best matches Some(b) ==> bar == Some(b.0),
            best is None ==> forall|t: int, l: int|
                #[trigger] arrow_window(gv, ev, t, l) && t < top ==> (cur matches Some(c) && match_score(gv, ev, t, l)
                    <= c),
            best matches Some(b) ==> {
                &&& arrow_window(gv, ev, b.1 as int, b.2 as int)
                &&& b.1 < top
                &&& b.0 == match_score(gv, ev, b.1 as int, b.2 as int)
                &&& (cur matches Some(c) ==> b.0 > c)
                &&& forall|t: int, l: int|
                    #[trigger] arrow_window(gv, ev, t, l) && t < top ==> match_score(gv, ev, t, l) <= b.0
                &&& forall|t: int, l: int|
                    #[trigger] arrow_window(gv, ev, t, l) && before_in_row_major(t, l, b.1 as int, b.2 as int)
                        ==> match_score(gv, ev, t, l) < b.0
            },
    {
        for left in 0..gw - ew + 1
            invariant
                gv == g.deep_view(),
                ev == expected.deep_view(),
                is_rect(gv),
                is_rect(ev),
                gh == gv.len(),
                gw == gv[0].len(),
                eh == ev.len(),
                ew == ev[0].len(),
                eh * ew <= usize::MAX,
                top + eh <= gh,
                gw >= ew,
                forall|r: int| 0 <= r < gh ==> (#[trigger] g@[r])@.len() == gw,
                forall|r: int| 0 <= r < eh ==> (#[trigger] expected@[r])@.len() == ew,
                best is None ==> bar == cur,
                best matches Some(b) ==> bar == Some(b.0),
                best is None ==> forall|t: int, l: int|
                    #[trigger] arrow_window(gv, ev, t, l) && before_in_row_major(t, l, top as int, left as int) ==> (
                    cur matches Some(c) && match_score(gv, ev, t, l) <= c),
                best matches Some(b) ==> {
                    &&& arrow_window(gv, ev, b.1 as int, b.2 as int)
                    &&& before_in_row_major(b.1 as int, b.2 as int, top as int, left as int)
                    &&& b.0 == match_score(gv, ev, b.1 as int, b.2 as int)
                    &&& (cur matches Some(c) ==> b.0 > c)
                    &&& forall|t: int, l: int|
                        #[trigger] arrow_window(gv, ev, t, l) && before_in_row_major(t, l, top as int, left as int)
                            ==> match_score(gv, ev, t, l) <= b.0
                    &&& forall|t: int, l: int|
                        #[trigger] arrow_window(gv, ev, t, l) && before_in_row_major(t, l, b.1 as int, b.2 as int)
                            ==> match_score(gv, ev, t, l) < b.0
                },
        {
            if window_has_only_arrows(g, top, left, eh, ew) {
                assert(arrow_window(gv, ev, top as int, left as int));
                let score = score_window(g, top, left, expected);
                let better = match bar {
                    None => true,
                    Some(c) => score > c,
                };
                if better {
                    best = Some((score, top, left));
                    bar = Some(score);
                }
            } else {
                assert(!arrow_window(gv, ev, top as int, left as int));
            }
        }
    }
    best
}

/// Two best windows of one grid have the same score.
proof fn lemma_best_window_unique(
    g: Seq<Seq<char>>,
    e: Seq<Seq<char>>,
    b1: (usize, usize, usize),
    b2: (usize, usize, usize),
)
    requires
        best_window_in(g, e, None, Some(b1)),
        best_window_in(g, e, None, Some(b2)),
    ensures
        b1.0 == b2.0,
{
    assert(arrow_window(g, e, b1.1 as int, b1.2 as int));
    assert(arrow_window(g, e, b2.1 as int, b2.2 as int));
}

/// A best window above a bar is the grid's best window; when no window beats the bar, the
/// grid's best window is at most the bar.
proof fn lemma_best_window_bar(
    g: Seq<Seq<char>>,
    e: Seq<Seq<char>>,
    cur: Option<usize>,
    res: Option<(usize, usize, usize)>,
    b2: (usize, usize, usize),
)
    requires
        best_window_in(g, e, cur, res),
        best_window_in(g, e, None, Some(b2)),
    ensures
        res matches Some(b) ==> b.0 == b2.0,
        res is None ==> (cur matches Some(c) && b2.0 <= c),
{
    assert(arrow_window(g, e, b2.1 as int, b2.2 as int));
    if let Some(b) = res {
        assert(best_window_in(g, e, None, Some(b)));
        lemma_best_window_unique(g, e, b, b2);
    }
}

/// The candidate grids stay rectangular.
proof fn lemma_char_candidate_rect(c: Seq<Seq<char>>, i: int, p: (int, int, int, int))
    requires
        is_rect(c),
    ensures
        is_rect(char_candidate(c, i, p)),
        xform_ok(c, xform_order(i)),
{
    lemma_xform_undone_by_inverse(c, xform_order(i));
    let x = xform_grid(c, xform_order(i));
    let g = char_candidate(c, i, p);
    assert forall|r: int| 0 <= r < g.len() implies (#[trigger] g[r]).len() == g[0].len() by {
        assert(x[r].len() == x[0].len());
    }
}

/// A permutation of arrow characters whose ranks form an ordering of the four ranks is the list
/// of their glyphs.
proof fn lemma_perm_chars(pc: Seq<char>)
    requires
        pc.len() == 4,
        is_rank_perm(char_perm_ranks(pc)),
    ensures
        pc == glyph_chars(char_perm_ranks(pc)),
{
    assert forall|k: int| 0 <= k < 4 implies pc[k] == rank_glyph(char_rank(pc[k])) by {}
    assert(pc =~= glyph_chars(char_perm_ranks(pc)));
}

/// Over all combinations of a transform and an ordering of the arrows (in search order), the
/// first one whose best arrow window against `expected` has the highest score, when that score
/// is above `best_score` (any score when it is `None`): `(score, transform, ordering, top,
/// left)`; `None` when no window scores above `best_score`.
pub fn best_expected_match(chars: &Vec<Vec<char>>, expected: &Vec<Vec<char>>, best_score: Option<usize>) -> (res:
    Option<(usize, GridXform, [char; 4], usize, usize)>)
    requires
        is_rect(chars.deep_view()),
        is_rect(expected.deep_view()),
        expected@.len() * expected@[0]@.len() <= usize::MAX,
    ensures
        res matches Some(m) ==> exists|i: int, p: (int, int, int, int)|
            {
                &&& 0 <= i < 8
                &&& is_rank_perm(p)
                &&& m.1 == xform_order(i)
                &&& m.2@ == glyph_chars(p)
                &&& best_window_in(
                    #[trigger] char_candidate(chars.deep_view(), i, p),
                    expected.deep_view(),
                    None,
                    Some((m.0, m.3, m.4)),
                )
                &&& (best_score matches Some(b) ==> m.0 > b)
                &&& forall|i2: int, p2: (int, int, int, int), b2: (usize, usize, usize)|
                    0 <= i2 < 8 && is_rank_perm(p2) && #[trigger] best_window_in(
                        char_candidate(chars.deep_view(), i2, p2),
                        expected.deep_view(),
                        None,
                        Some(b2),
                    ) ==> b2.0 <= m.0 && (combo_before(i2, p2, i, p) ==> b2.0 < m.0)
            },
        res is None ==> forall|i: int, p: (int, int, int, int), b2: (usize, usize, usize)|
            0 <= i < 8 && is_rank_perm(p) && #[trigger] best_window_in(
                char_candidate(chars.deep_view(), i, p),
                expected.deep_view(),
                None,
                Some(b2),
            ) ==> (best_score matches Some(b) && b2.0 <= b),
{
    let ghost c = chars.deep_view();
    let ghost e = expected.deep_view();
    let xforms = xform_list();
    let perms = all_arrow_perms_chars();
    let ghost ranks = Seq::new(perms@.len(), |k: int| char_perm_ranks(perms@[k]@));
    assert(lists_all_perms(ranks));
    let mut best: Option<(usize, GridXform, [char; 4], usize, usize)> = None;
    let mut bar = best_score;
    let ghost mut bi: int = 0;
    let ghost mut bp: (int, int, int, int) = (0, 1, 2, 3);
    for xi in 0..8usize
        invariant
            c == chars.deep_view(),
            e == expected.deep_view(),
            is_rect(c),
            is_rect(e),
            expected@.len() * expected@[0]@.len() <= usize::MAX,
            forall|i: int| 0 <= i < 8 ==> #[trigger] xforms@[i] == xform_order(i),
            ranks == Seq::new(perms@.len(), |k: int| char_perm_ranks(perms@[k]@)),
            lists_all_perms(ranks),
            best is None ==> bar == best_score,
            best matches Some(m) ==> bar == Some(m.0),
            best is None ==> forall|i: int, p: (int, int, int, int), b2: (usize, usize, usize)|
                0 <= i < xi && is_rank_perm(p) && #[trigger] best_window_in(char_candidate(c, i, p), e, None, Some(b2))
                    ==> (best_score matches Some(b) && b2.0 <= b),
            best matches Some(m) ==> {
                &&& 0 <= bi < xi
                &&& is_rank_perm(bp)
                &&& m.1 == xform_order(bi)
                &&& m.2@ == glyph_chars(bp)
                &&& best_window_in(char_candidate(c, bi, bp), e, None, Some((m.0, m.3, m.4)))
                &&& (best_score matches Some(b) ==> m.0 > b)
                &&& forall|i2: int, p2: (int, int, int, int), b2: (usize, usize, usize)|
                    0 <= i2 < xi && is_rank_perm(p2) && #[trigger] best_window_in(char_candidate(c, i2, p2), e, None, Some(b2))
                        ==> b2.0 <= m.0 && (combo_before(i2, p2, bi, bp) ==> b2.0 < m.0)
            },
    {
        let xf = xforms[xi];
        assert(xf == xform_order(xi as int));
        proof {
            lemma_char_candidate_rect(c, xi as int, (0, 1, 2, 3));
        }
        let g1 = apply_xform_chars(chars.as_slice(), xf);
        let n = perms.len();
        for pi in 0..n
            invariant
                c == chars.deep_view(),
                e == expected.deep_view(),
                is_rect(c),
                is_rect(e),
                expected@.len() * expected@[0]@.len() <= usize::MAX,
                forall|i: int| 0 <= i < 8 ==> #[trigger] xforms@[i] == xform_order(i),
                ranks == Seq::new(perms@.len(), |k: int| char_perm_ranks(perms@[k]@)),
                lists_all_perms(ranks),
                n == perms@.len(),
                xi < 8,
                xf == xform_order(xi as int),
                g1.deep_view() == xform_grid(c, xf),
                best is None ==> bar == best_score,
                best matches Some(m) ==> bar == Some(m.0),
                best is None ==> forall|i: int, p: (int, int, int, int), b2: (usize, usize, usize)|
                    0 <= i < xi && is_rank_perm(p) && #[trigger] best_window_in(char_candidate(c, i, p), e, None, Some(b2))
                        ==> (best_score matches Some(b) && b2.0 <= b),
                best is None ==> forall|k: int, b2: (usize, usize, usize)|
                    0 <= k < pi && #[trigger] best_window_in(char_candidate(c, xi as int, ranks[k]), e, None, Some(b2))
                        ==> (best_score matches Some(b) && b2.0 <= b),
                best matches Some(m) ==> {
                    &&& 0 <= bi <= xi
                    &&& is_rank_perm(bp)
                    &&& bi == xi ==> exists|k: int| 0 <= k < pi && ranks[k] == bp
                    &&& m.1 == xform_order(bi)
                    &&& m.2@ == glyph_chars(bp)
                    &&& best_window_in(char_candidate(c, bi, bp), e, None, Some((m.0, m.3, m.4)))
                    &&& (best_score matches Some(b) ==> m.0 > b)
                    &&& forall|i2: int, p2: (int, int, int, int), b2: (usize, usize, usize)|
                        0 <= i2 < xi && is_rank_perm(p2) && #[trigger] best_window_in(char_candidate(c, i2, p2), e, None, Some(b2))
                            ==> b2.0 <= m.0 && (combo_before(i2, p2, bi, bp) ==> b2.0 < m.0)
                    &&& forall|k: int, b2: (usize, usize, usize)|
                        0 <= k < pi && #[trigger] best_window_in(char_candidate(c, xi as int, ranks[k]), e, None, Some(b2))
                            ==> b2.0 <= m.0 && (combo_before(xi as int, ranks[k], bi, bp) ==> b2.0 < m.0)
                },
        {
            let perm = &perms[pi];
            let ghost rk = ranks[pi as int];
            assert(rk == char_perm_ranks(perm@));
            assert(is_rank_perm(rk));
            proof {
                lemma_perm_chars(perm@);
                lemma_char_candidate_rect(c, xi as int, rk);
            }
            let g2 = apply_arrow_perm(g1.as_slice(), perm);
            assert(g2.deep_view() == char_candidate(c, xi as int, rk));
            let found = best_window_in_grid(&g2, expected, bar);
            let ghost gv = char_candidate(c, xi as int, rk);
            match found {
                Some((score, top, left)) => {
                    let ghost ob = best;
                    let ghost obi = bi;
                    let ghost obp = bp;
                    best = Some((score, xf, *perm, top, left));
                    bar = Some(score);
                    proof {
                        bi = xi as int;
                        bp = rk;
                        assert(best_window_in(gv, e, None, Some((score, top, left))));
                        assert forall|i2: int, p2: (int, int, int, int), b2: (usize, usize, usize)|
                            0 <= i2 < xi && is_rank_perm(p2) && #[trigger] best_window_in(char_candidate(c, i2, p2), e, None, Some(b2))
                                implies b2.0 <= score && (combo_before(i2, p2, bi, bp) ==> b2.0 < score) by {}
                        assert forall|k: int, b2: (usize, usize, usize)|
                            0 <= k < pi + 1 && #[trigger] best_window_in(char_candidate(c, xi as int, ranks[k]), e, None, Some(b2))
                                implies b2.0 <= score && (combo_before(xi as int, ranks[k], bi, bp) ==> b2.0 < score) by {
                            if k == pi {
                                lemma_best_window_unique(gv, e, b2, (score, top, left));
                            } else {
                                assert(perm_code(ranks[k]) < perm_code(ranks[pi as int]));
                            }
                        }
                        assert(exists|k: int| 0 <= k < pi + 1 && ranks[k] == bp) by {
                            assert(ranks[pi as int] == bp);
                        }
                    }
                },
                None => {
                    proof {
                        assert forall|b2: (usize, usize, usize)| #[trigger] best_window_in(gv, e, None, Some(b2)) implies (
                        bar matches Some(cb) && b2.0 <= cb) by {
                            lemma_best_window_bar(gv, e, bar, None, b2);
                        }
                        if best is Some {
                            assert forall|k: int, b2: (usize, usize, usize)|
                                0 <= k < pi + 1 && #[trigger] best_window_in(char_candidate(c, xi as int, ranks[k]), e, None, Some(b2))
                                    implies ({
                                let m = best->0;
                                b2.0 <= m.0 && (combo_before(xi as int, ranks[k], bi, bp) ==> b2.0 < m.0)
                            }) by {
                                if k == pi {
                                    if bi == xi {
                                        let kb = choose|kb: int| 0 <= kb < pi && ranks[kb] == bp;
                                        assert(perm_code(ranks[kb]) < perm_code(ranks[pi as int]));
                                    }
                                }
                            }
                        }
                    }
                },
            }
        }
        proof {
            if best is None {
                assert forall|i: int, p: (int, int, int, int), b2: (usize, usize, usize)|
                    0 <= i < xi + 1 && is_rank_perm(p) && #[trigger] best_window_in(char_candidate(c, i, p), e, None, Some(b2))
                        implies (best_score matches Some(b) && b2.0 <= b) by {
                    if i == xi {
                        let k = choose|k: int| 0 <= k < ranks.len() && #[trigger] ranks[k] == p;
                        assert(best_window_in(char_candidate(c, xi as int, ranks[k]), e, None, Some(b2)));
                    }
                }
            } else {
                let m = best->0;
                assert forall|i2: int, p2: (int, int, int, int), b2: (usize, usize, usize)|
                    0 <= i2 < xi + 1 && is_rank_perm(p2) && #[trigger] best_window_in(char_candidate(c, i2, p2), e, None, Some(b2))
                        implies b2.0 <= m.0 && (combo_before(i2, p2, bi, bp) ==> b2.0 < m.0) by {
                    if i2 == xi {
                        let k = choose|k: int| 0 <= k < ranks.len() && #[trigger] ranks[k] == p2;
                        assert(best_window_in(char_candidate(c, xi as int, ranks[k]), e, None, Some(b2)));
                    }
                }
            }
        }
    }
    best
}

} // verus!
