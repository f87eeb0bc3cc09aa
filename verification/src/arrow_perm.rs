//! Permutations of the four arrow glyphs, and their action on arrow grids.
use vstd::prelude::*;

use crate::cells::char_to_string;
use crate::minify_arrow_grid::{
    arrow_index, arrow_rank, glyph_of_rank, lemma_single_arrow_rank, rank_glyph, single_arrow,
};

verus! {

/// Rank of a cell: 0 to 3 for the single glyphs up, down, left, right, and -1 for any other
/// cell.
pub open spec fn cell_rank(cell: Seq<char>) -> int {
    if cell == seq!['↑'] {
        0
    } else if cell == seq!['↓'] {
        1
    } else if cell == seq!['←'] {
        2
    } else if cell == seq!['→'] {
        3
    } else {
        -1
    }
}

/// Rank of a character: 0 to 3 for up, down, left, right, and -1 for any other character.
pub open spec fn char_rank(c: char) -> int {
    match arrow_rank(c) {
        Some(k) => k as int,
        None => -1,
    }
}

/// `(a, b, c, d)` is an ordering of the four ranks.
pub open spec fn is_rank_perm(p: (int, int, int, int)) -> bool {
    &&& 0 <= p.0 < 4
    &&& 0 <= p.1 < 4
    &&& 0 <= p.2 < 4
    &&& 0 <= p.3 < 4
    &&& p.0 != p.1
    &&& p.0 != p.2
    &&& p.0 != p.3
    &&& p.1 != p.2
    &&& p.1 != p.3
    &&& p.2 != p.3
}

/// Position of a tuple of ranks in lexicographic order.
pub open spec fn perm_code(p: (int, int, int, int)) -> int {
    64 * p.0 + 16 * p.1 + 4 * p.2 + p.3
}

/// `rs` lists every ordering of the four ranks once, in lexicographic order.
pub open spec fn lists_all_perms(rs: Seq<(int, int, int, int)>) -> bool {
    &&& forall|i: int| 0 <= i < rs.len() ==> is_rank_perm(#[trigger] rs[i])
    &&& forall|i: int, j: int| 0 <= i < j < rs.len() ==> perm_code(#[trigger] rs[i]) < perm_code(#[trigger] rs[j])
    &&& forall|p: (int, int, int, int)| is_rank_perm(p) ==> exists|i: int| 0 <= i < rs.len() && #[trigger] rs[i] == p
}

/// Ranks of the four cells of a permutation of glyph cells.
pub open spec fn cell_perm_ranks(p: Seq<Seq<char>>) -> (int, int, int, int) {
    (cell_rank(p[0]), cell_rank(p[1]), cell_rank(p[2]), cell_rank(p[3]))
}

/// Ranks of the four characters of a permutation of glyphs.
pub open spec fn char_perm_ranks(p: Seq<char>) -> (int, int, int, int) {
    (char_rank(p[0]), char_rank(p[1]), char_rank(p[2]), char_rank(p[3]))
}

/// Digits of `n < 256` in base 4, most significant first.
pub open spec fn code_digits(n: int) -> (int, int, int, int) {
    let a = n / 64;
    let r1 = n - 64 * a;
    let b = r1 / 16;
    let r2 = r1 - 16 * b;
    let c = r2 / 4;
    (a, b, c, r2 - 4 * c)
}

proof fn lemma_code_digits(n: int)
    requires
        0 <= n < 256,
    ensures
        perm_code(code_digits(n)) == n,
        0 <= code_digits(n).0 < 4,
        0 <= code_digits(n).1 < 4,
        0 <= code_digits(n).2 < 4,
        0 <= code_digits(n).3 < 4,
{
}

proof fn lemma_code_injective(p: (int, int, int, int), q: (int, int, int, int))
    requires
        is_rank_perm(p),
        is_rank_perm(q),
        perm_code(p) == perm_code(q),
    ensures
        p == q,
{
}

/// The rank of each arrow cell is that of its glyph.
proof fn lemma_rank_of_glyph(k: int)
    requires
        0 <= k < 4,
    ensures
        cell_rank(seq![rank_glyph(k)]) == k,
        char_rank(rank_glyph(k)) == k,
{
    assert(seq![rank_glyph(k)] == seq![rank_glyph(k)]);
    if k == 0 {
        assert(seq![rank_glyph(k)] =~= seq!['↑']);
    } else if k == 1 {
        assert(seq![rank_glyph(k)] =~= seq!['↓']);
        assert(seq!['↓'] != seq!['↑']) by {
            assert(seq!['↓'][0] != seq!['↑'][0]);
        }
    } else if k == 2 {
        assert(seq![rank_glyph(k)] =~= seq!['←']);
        assert(seq!['←'] != seq!['↑']) by {
            assert(seq!['←'][0] != seq!['↑'][0]);
        }
        assert(seq!['←'] != seq!['↓']) by {
            assert(seq!['←'][0] != seq!['↓'][0]);
        }
    } else {
        assert(seq![rank_glyph(k)] =~= seq!['→']);
        assert(seq!['→'] != seq!['↑']) by {
            assert(seq!['→'][0] != seq!['↑'][0]);
        }
        assert(seq!['→'] != seq!['↓']) by {
            assert(seq!['→'][0] != seq!['↓'][0]);
        }
        assert(seq!['→'] != seq!['←']) by {
            assert(seq!['→'][0] != seq!['←'][0]);
        }
    }
}

/// The 24 orderings of the four arrow glyphs as string cells, in lexicographic order of the
/// ranks up, down, left, right.
pub fn all_arrow_perms() -> (out: Vec<[String; 4]>)
    ensures
        lists_all_perms(Seq::new(out@.len(), |i: int| cell_perm_ranks(out@[i].deep_view()))),
{
    let mut out: Vec<[String; 4]> = Vec::new();
    let ghost mut rs: Seq<(int, int, int, int)> = Seq::empty();
    let mut n: usize = 0;
    while n < 256
        invariant
            n <= 256,
            rs.len() == out@.len(),
            forall|i: int| 0 <= i < rs.len() ==> #[trigger] rs[i] == cell_perm_ranks(out@[i].deep_view()),
            forall|i: int| 0 <= i < rs.len() ==> is_rank_perm(#[trigger] rs[i]),
            forall|i: int| 0 <= i < rs.len() ==> perm_code(#[trigger] rs[i]) < n,
            forall|i: int, j: int| 0 <= i < j < rs.len() ==> perm_code(#[trigger] rs[i]) < perm_code(#[trigger] rs[j]),
            forall|p: (int, int, int, int)|
                is_rank_perm(p) && perm_code(p) < n ==> exists|i: int| 0 <= i < rs.len() && #[trigger] rs[i] == p,
        decreases 256 - n,
    {
        let a = n / 64;
        let r1 = n - 64 * a;
        let b = r1 / 16;
        let r2 = r1 - 16 * b;
        let c = r2 / 4;
        let d = r2 - 4 * c;
        proof {
            lemma_code_digits(n as int);
        }
        let ghost cur = (a as int, b as int, c as int, d as int);
        assert(cur == code_digits(n as int));
        if a != b && a != c && a != d && b != c && b != d && c != d {
            let p = [
                char_to_string(glyph_of_rank(a)),
                char_to_string(glyph_of_rank(b)),
                char_to_string(glyph_of_rank(c)),
                char_to_string(glyph_of_rank(d)),
            ];
            proof {
                lemma_rank_of_glyph(a as int);
                lemma_rank_of_glyph(b as int);
                lemma_rank_of_glyph(c as int);
                lemma_rank_of_glyph(d as int);
                assert(cell_perm_ranks(p.deep_view()) == cur);
            }
            out.push(p);
            proof {
                let old_rs = rs;
                rs = rs.push(cur);
                assert forall|q: (int, int, int, int)| is_rank_perm(q) && perm_code(q) < n + 1 implies exists|i: int|
                    0 <= i < rs.len() && #[trigger] rs[i] == q by {
                    if perm_code(q) == n {
                        lemma_code_injective(q, cur);
                        assert(rs[old_rs.len() as int] == q);
                    } else {
                        let i = choose|i: int| 0 <= i < old_rs.len() && #[trigger] old_rs[i] == q;
                        assert(rs[i] == q);
                    }
                }
            }
        } else {
            assert forall|q: (int, int, int, int)| is_rank_perm(q) && perm_code(q) < n + 1 implies exists|i: int|
                0 <= i < rs.len() && #[trigger] rs[i] == q by {
                if perm_code(q) == n {
                    assert(q == cur);
                }
            }
        }
        n += 1;
    }
    proof {
        let view = Seq::new(out@.len(), |i: int| cell_perm_ranks(out@[i].deep_view()));
        assert(view =~= rs);
    }
    out
}

/// The 24 orderings of the four arrow characters, in lexicographic order of the ranks up,
/// down, left, right.
pub fn all_arrow_perms_chars() -> (out: Vec<[char; 4]>)
    ensures
        lists_all_perms(Seq::new(out@.len(), |i: int| char_perm_ranks(out@[i]@))),
{
    let mut out: Vec<[char; 4]> = Vec::new();
    let ghost mut rs: Seq<(int, int, int, int)> = Seq::empty();
    let mut n: usize = 0;
    while n < 256
        invariant
            n <= 256,
            rs.len() == out@.len(),
            forall|i: int| 0 <= i < rs.len() ==> #[trigger] rs[i] == char_perm_ranks(out@[i]@),
            forall|i: int| 0 <= i < rs.len() ==> is_rank_perm(#[trigger] rs[i]),
            forall|i: int| 0 <= i < rs.len() ==> perm_code(#[trigger] rs[i]) < n,
            forall|i: int, j: int| 0 <= i < j < rs.len() ==> perm_code(#[trigger] rs[i]) < perm_code(#[trigger] rs[j]),
            forall|p: (int, int, int, int)|
                is_rank_perm(p) && perm_code(p) < n ==> exists|i: int| 0 <= i < rs.len() && #[trigger] rs[i] == p,
        decreases 256 - n,
    {
        let a = n / 64;
        let r1 = n - 64 * a;
        let b = r1 / 16;
        let r2 = r1 - 16 * b;
        let c = r2 / 4;
        let d = r2 - 4 * c;
        proof {
            lemma_code_digits(n as int);
        }
        let ghost cur = (a as int, b as int, c as int, d as int);
        assert(cur == code_digits(n as int));
        if a != b && a != c && a != d && b != c && b != d && c != d {
            let p = [glyph_of_rank(a), glyph_of_rank(b), glyph_of_rank(c), glyph_of_rank(d)];
            proof {
                lemma_rank_of_glyph(a as int);
                lemma_rank_of_glyph(b as int);
                lemma_rank_of_glyph(c as int);
                lemma_rank_of_glyph(d as int);
                assert(char_perm_ranks(p@) == cur);
            }
            out.push(p);
            proof {
                let old_rs = rs;
                rs = rs.push(cur);
                assert forall|q: (int, int, int, int)| is_rank_perm(q) && perm_code(q) < n + 1 implies exists|i: int|
                    0 <= i < rs.len() && #[trigger] rs[i] == q by {
                    if perm_code(q) == n {
                        lemma_code_injective(q, cur);
                        assert(rs[old_rs.len() as int] == q);
                    } else {
                        let i = choose|i: int| 0 <= i < old_rs.len() && #[trigger] old_rs[i] == q;
                        assert(rs[i] == q);
                    }
                }
            }
        } else {
            assert forall|q: (int, int, int, int)| is_rank_perm(q) && perm_code(q) < n + 1 implies exists|i: int|
                0 <= i < rs.len() && #[trigger] rs[i] == q by {
                if perm_code(q) == n {
                    assert(q == cur);
                }
            }
        }
        n += 1;
    }
    proof {
        let view = Seq::new(out@.len(), |i: int| char_perm_ranks(out@[i]@));
        assert(view =~= rs);
    }
    out
}

/// A cell under the permutation `pc` of the glyphs up, down, left, right: an arrow cell becomes
/// the entry of its rank, any other cell stays.
pub open spec fn permute_cell(cell: Seq<char>, pc: Seq<Seq<char>>) -> Seq<char> {
    if cell_rank(cell) >= 0 {
        pc[cell_rank(cell)]
    } else {
        cell
    }
}

/// The grid with every cell under the permutation `pc`.
pub open spec fn permute_grid(g: Seq<Seq<Seq<char>>>, pc: Seq<Seq<char>>) -> Seq<Seq<Seq<char>>> {
    Seq::new(g.len(), |r: int| Seq::new(g[r].len(), |c: int| permute_cell(g[r][c], pc)))
}

/// A character under the permutation `pc` of the arrows up, down, left, right.
pub open spec fn remap_char(ch: char, pc: Seq<char>) -> char {
    if char_rank(ch) >= 0 {
        pc[char_rank(ch)]
    } else {
        ch
    }
}

/// The grid of characters with every character under the permutation `pc`.
pub open spec fn remap_grid(g: Seq<Seq<char>>, pc: Seq<char>) -> Seq<Seq<char>> {
    Seq::new(g.len(), |r: int| Seq::new(g[r].len(), |c: int| remap_char(g[r][c], pc)))
}

/// The glyph cells of a tuple of ranks.
pub open spec fn glyph_cells(p: (int, int, int, int)) -> Seq<Seq<char>> {
    seq![seq![rank_glyph(p.0)], seq![rank_glyph(p.1)], seq![rank_glyph(p.2)], seq![rank_glyph(p.3)]]
}

/// `q` undoes the ordering `p`: the glyph that `p` puts at rank `k` is sent back to `k`.
pub open spec fn undoes(q: (int, int, int, int), p: (int, int, int, int)) -> bool {
    &&& rank_at(q, p.0) == 0
    &&& rank_at(q, p.1) == 1
    &&& rank_at(q, p.2) == 2
    &&& rank_at(q, p.3) == 3
}

/// Entry `k` of a tuple of ranks.
pub open spec fn rank_at(p: (int, int, int, int), k: int) -> int {
    if k == 0 {
        p.0
    } else if k == 1 {
        p.1
    } else if k == 2 {
        p.2
    } else {
        p.3
    }
}

/// Applying a permutation of the arrow glyphs to a grid and then the permutation that undoes
/// it gives the grid back.
pub proof fn lemma_permute_then_undo(g: Seq<Seq<Seq<char>>>, p: (int, int, int, int), q: (int, int, int, int))
    requires
        is_rank_perm(p),
        is_rank_perm(q),
        undoes(q, p),
    ensures
        permute_grid(permute_grid(g, glyph_cells(p)), glyph_cells(q)) == g,
{
    let pc = glyph_cells(p);
    let qc = glyph_cells(q);
    let g1 = permute_grid(g, pc);
    let g2 = permute_grid(g1, qc);
    assert forall|r: int| 0 <= r < g.len() implies (#[trigger] g2[r]) =~= g[r] by {
        assert forall|c: int| 0 <= c < g[r].len() implies g2[r][c] == g[r][c] by {
            let cell = g[r][c];
            let k = cell_rank(cell);
            if k >= 0 {
                let j = rank_at(p, k);
                assert(pc[k] == seq![rank_glyph(j)]);
                lemma_rank_of_glyph(j);
                assert(g1[r][c] == seq![rank_glyph(j)]);
                assert(cell_rank(g1[r][c]) == j);
                assert(rank_at(q, j) == k);
                assert(qc[j] == seq![rank_glyph(k)]);
                lemma_rank_of_glyph(k);
                if k == 0 {
                    assert(cell == seq!['↑']);
                } else if k == 1 {
                    assert(cell == seq!['↓']);
                } else if k == 2 {
                    assert(cell == seq!['←']);
                } else {
                    assert(cell == seq!['→']);
                }
                assert(seq![rank_glyph(k)] =~= cell);
            }
        }
    }
    assert(g2 =~= g);
}

/// The grid of string cells with every arrow cell replaced by the entry of `perm` for its rank
/// (up, down, left, right); other cells are kept.
pub fn apply_arrow_perm_str(g: &[Vec<String>], perm: &[String; 4]) -> (out: Vec<Vec<String>>)
    ensures
        out.deep_view() == permute_grid(g.deep_view(), perm.deep_view()),
{
    let ghost gv = g.deep_view();
    let ghost pc = perm.deep_view();
    let ghost target = permute_grid(gv, pc);
    let mut out: Vec<Vec<String>> = Vec::new();
    for r in 0..g.len()
        invariant
            gv == g.deep_view(),
            pc == perm.deep_view(),
            target == permute_grid(gv, pc),
            out@.len() == r,
            forall|k: int| 0 <= k < r ==> (#[trigger] out@[k]).deep_view() == target[k],
    {
        let mut row: Vec<String> = Vec::new();
        let n = g[r].len();
        for c in 0..n
            invariant
                gv == g.deep_view(),
                pc == perm.deep_view(),
                target == permute_grid(gv, pc),
                r < g@.len(),
                n == g@[r as int]@.len(),
                row@.len() == c,
                forall|k: int| 0 <= k < c ==> (#[trigger] row@[k])@ == target[r as int][k],
        {
            let cell = &g[r][c];
            assert(gv[r as int][c as int] == cell@);
            let k = single_arrow(cell);
            proof {
                lemma_single_arrow_rank(cell@, k);
            }
            let v = match k {
                Some(k) => perm[k].clone(),
                None => cell.clone(),
            };
            assert(v@ == permute_cell(cell@, pc));
            row.push(v);
        }
        assert(row.deep_view() =~= target[r as int]);
        out.push(row);
    }
    assert(out.deep_view() =~= target);
    out
}

/// `ch` under the permutation `perm` of the arrows up, down, left, right; other characters are
/// kept.
pub fn remap_arrow(ch: char, perm: &[char; 4]) -> (r: char)
    ensures
        r == remap_char(ch, perm@),
{
    match arrow_index(ch) {
        Some(k) => perm[k],
        None => ch,
    }
}

/// The grid of characters with every arrow remapped by `perm`.
pub fn apply_arrow_perm(g: &[Vec<char>], perm: &[char; 4]) -> (out: Vec<Vec<char>>)
    ensures
        out.deep_view() == remap_grid(g.deep_view(), perm@),
{
    let ghost gv = g.deep_view();
    let ghost target = remap_grid(gv, perm@);
    let mut out: Vec<Vec<char>> = Vec::new();
    for r in 0..g.len()
        invariant
            gv == g.deep_view(),
            target == remap_grid(gv, perm@),
            out@.len() == r,
            forall|k: int| 0 <= k < r ==> (#[trigger] out@[k]).deep_view() == target[k],
    {
        let mut row: Vec<char> = Vec::new();
        let n = g[r].len();
        for c in 0..n
            invariant
                gv == g.deep_view(),
                target == remap_grid(gv, perm@),
                r < g@.len(),
                n == g@[r as int]@.len(),
                row@.len() == c,
                forall|k: int| 0 <= k < c ==> (#[trigger] row@[k]) == target[r as int][k],
        {
            assert(gv[r as int][c as int] == g@[r as int]@[c as int]);
            row.push(remap_arrow(g[r][c], perm));
        }
        assert(row.deep_view() =~= target[r as int]);
        out.push(row);
    }
    assert(out.deep_view() =~= target);
    out
}

} // verus!
