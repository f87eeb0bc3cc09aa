//! Names of Anoto sections in file names: `PREFIX__W__H__U__V...`, split at `__`.
use vstd::prelude::*;

use crate::cells::chars_of;
use crate::decimal::{
    decimal, decimal_string, lemma_decimal_digits, lemma_parse_signed_decimal, parse_i32, parse_in_range,
    parse_usize, signed_decimal, signed_decimal_string,
};
use crate::grid::is_rectangular;
use crate::pattern_search::grid_dims;

verus! {

// ---------------------------------------------------------------------------
// Splitting at "__"
// ---------------------------------------------------------------------------
/// A `__` separator starts at `i`.
pub open spec fn sep_at(s: Seq<char>, i: int) -> bool {
    0 <= i && i + 1 < s.len() && s[i] == '_' && s[i + 1] == '_'
}

/// Start of the first `__` at or after `i`, or -1 when there is none.
pub open spec fn next_sep(s: Seq<char>, i: int) -> int
    decreases s.len() - i,
{
    if i < 0 || i + 1 >= s.len() {
        -1
    } else if sep_at(s, i) {
        i
    } else {
        next_sep(s, i + 1)
    }
}

pub proof fn lemma_next_sep(s: Seq<char>, i: int)
    requires
        0 <= i,
    ensures
        next_sep(s, i) == -1 || (i <= next_sep(s, i) && next_sep(s, i) + 1 < s.len()),
        next_sep(s, i) >= 0 ==> sep_at(s, next_sep(s, i)),
        forall|j: int| i <= j && (next_sep(s, i) < 0 || j < next_sep(s, i)) ==> !#[trigger] sep_at(s, j),
    decreases s.len() - i,
{
    if i + 1 < s.len() && !sep_at(s, i) {
        lemma_next_sep(s, i + 1);
    }
}

/// `next_sep` from `pos` is `k` when no separator starts in `pos .. k` and one starts at `k`
/// (or `-1` when none starts from `pos` on).
proof fn lemma_next_sep_is(s: Seq<char>, pos: int, k: int)
    requires
        0 <= pos,
        k == -1 || (pos <= k && sep_at(s, k)),
        forall|j: int| pos <= j && (k < 0 || j < k) ==> !#[trigger] sep_at(s, j),
    ensures
        next_sep(s, pos) == k,
    decreases s.len() - pos,
{
    if pos + 1 < s.len() && pos != k {
        lemma_next_sep_is(s, pos + 1, k);
    }
}

/// The parts of `s` from `pos` on, split at each `__` from left to right (as `str::split`
/// does).
pub open spec fn split_from(s: Seq<char>, pos: int) -> Seq<Seq<char>>
    decreases s.len() - pos,
{
    if pos < 0 || pos > s.len() {
        Seq::empty()
    } else {
        let k = next_sep(s, pos);
        if k < 0 {
            seq![s.subrange(pos, s.len() as int)]
        } else {
            proof {
                lemma_next_sep(s, pos);
            }
            seq![s.subrange(pos, k)] + split_from(s, k + 2)
        }
    }
}

/// `s` split at each `__`.
pub open spec fn split_parts(s: Seq<char>) -> Seq<Seq<char>> {
    split_from(s, 0)
}

/// The characters of `s` split at each `__`, from left to right.
fn split_at_double_underscore(cs: &Vec<char>) -> (parts: Vec<Vec<char>>)
    ensures
        parts.deep_view() == split_parts(cs@),
{
    let ghost s = cs@;
    let n = cs.len();
    let mut parts: Vec<Vec<char>> = Vec::new();
    let mut cur: Vec<char> = Vec::new();
    let mut pos: usize = 0;
    let mut i: usize = 0;
    while i < n
        invariant
            s == cs@,
            n == s.len(),
            pos <= i <= n,
            cur@ == s.subrange(pos as int, i as int),
            forall|j: int| pos <= j < i ==> !#[trigger] sep_at(s, j),
            parts.deep_view() + split_from(s, pos as int) == split_from(s, 0),
        decreases n - i,
    {
        if i + 1 < n && cs[i] == '_' && cs[i + 1] == '_' {
            proof {
                lemma_next_sep_is(s, pos as int, i as int);
                lemma_next_sep(s, pos as int);
                assert(split_from(s, pos as int) == seq![s.subrange(pos as int, i as int)] + split_from(s, i + 2));
            }
            let ghost before = parts.deep_view();
            parts.push(cur);
            assert(parts.deep_view() =~~= before.push(s.subrange(pos as int, i as int)));
            assert(parts.deep_view() + split_from(s, i + 2) =~= before + split_from(s, pos as int));
            cur = Vec::new();
            i += 2;
            pos = i;
        } else {
            cur.push(cs[i]);
            assert(cur@ =~= s.subrange(pos as int, i + 1));
            i += 1;
        }
    }
    proof {
        lemma_next_sep_is(s, pos as int, -1);
        assert(split_from(s, pos as int) == seq![s.subrange(pos as int, n as int)]);
    }
    let ghost before = parts.deep_view();
    parts.push(cur);
    assert(parts.deep_view() =~~= before + split_from(s, pos as int));
    parts
}

// ---------------------------------------------------------------------------
// Section names
// ---------------------------------------------------------------------------
/// The prefixes of section names: `GUI_G` and `R`.
pub open spec fn section_prefix(p: Seq<char>) -> bool {
    p == seq!['G', 'U', 'I', '_', 'G'] || p == seq!['R']
}

/// The section `(width, height, u, v)` that a file name gives: its parts at `__` are a section
/// prefix, two unsigned integers and two 32-bit integers, and possibly more parts.
pub open spec fn section_of_name(name: Seq<char>) -> Option<(int, int, int, int)> {
    let parts = split_parts(name);
    if parts.len() < 5 || !section_prefix(parts[0]) {
        None
    } else {
        match (
            parse_in_range(parts[1], 0, usize::MAX as int),
            parse_in_range(parts[2], 0, usize::MAX as int),
            parse_in_range(parts[3], i32::MIN as int, i32::MAX as int),
            parse_in_range(parts[4], i32::MIN as int, i32::MAX as int),
        ) {
            (Some(w), Some(h), Some(u), Some(v)) => Some((w, h, u, v)),
            _ => None,
        }
    }
}

fn is_section_prefix(p: &Vec<char>) -> (b: bool)
    ensures
        b == section_prefix(p@),
{
    let r = (p.len() == 5 && p[0] == 'G' && p[1] == 'U' && p[2] == 'I' && p[3] == '_' && p[4] == 'G') || (p.len()
        == 1 && p[0] == 'R');
    proof {
        if p@.len() == 5 {
            if r {
                assert(p@ =~= seq!['G', 'U', 'I', '_', 'G']);
            }
        }
        if p@.len() == 1 {
            if r {
                assert(p@ =~= seq!['R']);
            }
        }
        if p@ == seq!['G', 'U', 'I', '_', 'G'] {
            assert(p@[0] == 'G' && p@[1] == 'U' && p@[2] == 'I' && p@[3] == '_' && p@[4] == 'G');
        }
        if p@ == seq!['R'] {
            assert(p@[0] == 'R');
        }
    }
    r
}

/// The section `(width, height, u, v)` in a file name such as `GUI_G__81__56__10__10__Y.png` or
/// `R__81__56__10__10__GRID.json`: the first five parts at `__` are `GUI_G` or `R`, the width
/// and height, and the section coordinates.
pub fn infer_section_from_path(file_name: &str) -> (r: Option<(usize, usize, i32, i32)>)
    ensures
        r matches Some(t) ==> section_of_name(file_name@) == Some((t.0 as int, t.1 as int, t.2 as int, t.3 as int)),
        r is None ==> section_of_name(file_name@) is None,
{
    let cs = chars_of(file_name);
    let parts = split_at_double_underscore(&cs);
    let ghost pv = parts.deep_view();
    assert(pv.len() == parts@.len());
    if parts.len() < 5 {
        return None;
    }
    assert(forall|k: int| 0 <= k < parts@.len() ==> #[trigger] pv[k] == parts@[k]@);
    if !is_section_prefix(&parts[0]) {
        return None;
    }
    let w = match parse_usize(&parts[1]) {
        Some(v) => v,
        None => {
            return None;
        },
    };
    let h = match parse_usize(&parts[2]) {
        Some(v) => v,
        None => {
            return None;
        },
    };
    let u = match parse_i32(&parts[3]) {
        Some(v) => v,
        None => {
            return None;
        },
    };
    let v = match parse_i32(&parts[4]) {
        Some(v) => v,
        None => {
            return None;
        },
    };
    Some((w, h, u, v))
}

/// `R__W__H__U__V` for a section.
pub open spec fn section_base_name(m: (int, int, int, int)) -> Seq<char> {
    seq!['R', '_', '_'] + decimal(m.0 as nat) + seq!['_', '_'] + decimal(m.1 as nat) + seq!['_', '_']
        + signed_decimal(m.2) + seq!['_', '_'] + signed_decimal(m.3)
}

/// The section an output name is made for: the one named by the expected grid's file name, else
/// the one named by the image's file name, else the size of the full minified grid with section
/// `(10, 10)`, else size zero with section `(10, 10)`.
pub open spec fn base_name_section(
    image_name: Option<Seq<char>>,
    expected_name: Option<Seq<char>>,
    minified_full: Option<Seq<Seq<Seq<char>>>>,
) -> (int, int, int, int) {
    let from_expected = match expected_name {
        Some(e) => section_of_name(e),
        None => None,
    };
    let from_image = match image_name {
        Some(i) => section_of_name(i),
        None => None,
    };
    match from_expected {
        Some(m) => m,
        None => match from_image {
            Some(m) => m,
            None => match minified_full {
                Some(g) => if is_rectangular(g) {
                    (g.len() as int, g[0].len() as int, 10, 10)
                } else {
                    (0, 0, 10, 10)
                },
                None => (0, 0, 10, 10),
            },
        },
    }
}

fn append_sep(s: &mut String)
    ensures
        final(s)@ == old(s)@ + seq!['_', '_'],
{
    proof {
        reveal_strlit("__");
        assert("__"@ =~= seq!['_', '_']);
    }
    s.append("__");
}

/// `R__W__H__U__V` for the section `(w, h, u, v)`.
fn base_name_of(w: usize, h: usize, u: i32, v: i32) -> (s: String)
    ensures
        s@ == section_base_name((w as int, h as int, u as int, v as int)),
{
    proof {
        reveal_strlit("R");
        assert("R"@ =~= seq!['R']);
    }
    let mut s = String::from_str("R");
    append_sep(&mut s);
    s.append(decimal_string(w as u64).as_str());
    append_sep(&mut s);
    s.append(decimal_string(h as u64).as_str());
    append_sep(&mut s);
    s.append(signed_decimal_string(u as i64).as_str());
    append_sep(&mut s);
    s.append(signed_decimal_string(v as i64).as_str());
    assert(s@ =~= section_base_name((w as int, h as int, u as int, v as int)));
    s
}

/// The base name `R__W__H__U__V` of the output files for an image: the section comes from the
/// expected grid's file name, else from the image's file name, else from the size of the full
/// minified grid (with section `(10, 10)`), else size zero.
pub fn output_base_name(
    image_name: Option<&str>,
    expected_name: Option<&str>,
    minified_full: Option<&[Vec<String>]>,
) -> (s: String)
    ensures
        s@ == section_base_name(
            base_name_section(
                match image_name {
                    Some(n) => Some(n@),
                    None => None,
                },
                match expected_name {
                    Some(n) => Some(n@),
                    None => None,
                },
                match minified_full {
                    Some(g) => Some(g.deep_view()),
                    None => None,
                },
            ),
        ),
{
    let mut meta = match expected_name {
        Some(n) => infer_section_from_path(n),
        None => None,
    };
    if meta.is_none() {
        meta = match image_name {
            Some(n) => infer_section_from_path(n),
            None => None,
        };
    }
    if meta.is_none() {
        if let Some(grid) = minified_full {
            if let Some((rows, cols)) = grid_dims(grid) {
                meta = Some((rows, cols, 10, 10));
            }
        }
    }
    let (w, h, u, v) = match meta {
        Some(m) => m,
        None => (0, 0, 10, 10),
    };
    base_name_of(w, h, u, v)
}

/// `GUI_G__W__H__U__V__X.json`, the name of the stored arrow grid of a section.
pub open spec fn section_asset_name(w: int, h: int, u: int, v: int) -> Seq<char> {
    seq!['G', 'U', 'I', '_', 'G', '_', '_'] + decimal(w as nat) + seq!['_', '_'] + decimal(h as nat) + seq!['_', '_']
        + signed_decimal(u) + seq!['_', '_'] + signed_decimal(v) + seq!['_', '_', 'X', '.', 'j', 's', 'o', 'n']
}

/// The file name `GUI_G__W__H__U__V__X.json` of the stored arrow grid of a section.
pub fn section_asset_file_name(w: usize, h: usize, u: i32, v: i32) -> (s: String)
    ensures
        s@ == section_asset_name(w as int, h as int, u as int, v as int),
{
    proof {
        reveal_strlit("GUI_G");
        reveal_strlit("X.json");
        assert("GUI_G"@ =~= seq!['G', 'U', 'I', '_', 'G']);
        assert("X.json"@ =~= seq!['X', '.', 'j', 's', 'o', 'n']);
    }
    let mut s = String::from_str("GUI_G");
    append_sep(&mut s);
    s.append(decimal_string(w as u64).as_str());
    append_sep(&mut s);
    s.append(decimal_string(h as u64).as_str());
    append_sep(&mut s);
    s.append(signed_decimal_string(u as i64).as_str());
    append_sep(&mut s);
    s.append(signed_decimal_string(v as i64).as_str());
    append_sep(&mut s);
    s.append("X.json");
    assert(s@ =~= section_asset_name(w as int, h as int, u as int, v as int));
    s
}

// ---------------------------------------------------------------------------
// Reading back a written section name
// ---------------------------------------------------------------------------
/// The parts joined with `__` between them.
pub open spec fn joined(ps: Seq<Seq<char>>) -> Seq<char>
    decreases ps.len(),
{
    if ps.len() <= 1 {
        if ps.len() == 1 {
            ps[0]
        } else {
            Seq::empty()
        }
    } else {
        ps[0] + seq!['_', '_'] + joined(ps.drop_first())
    }
}

/// No character of the text is an underscore.
pub open spec fn no_underscore(p: Seq<char>) -> bool {
    forall|i: int| 0 <= i < p.len() ==> #[trigger] p[i] != '_'
}

proof fn lemma_next_sep_shift(a: Seq<char>, b: Seq<char>, j: int)
    requires
        0 <= j,
    ensures
        next_sep(a + b, a.len() + j) == (if next_sep(b, j) < 0 {
            -1
        } else {
            next_sep(b, j) + a.len()
        }),
    decreases b.len() - j,
{
    let s = a + b;
    if j + 1 < b.len() {
        assert(sep_at(s, a.len() + j) == sep_at(b, j));
        if !sep_at(b, j) {
            lemma_next_sep_shift(a, b, j + 1);
        }
    }
}

proof fn lemma_split_shift(a: Seq<char>, b: Seq<char>, j: int)
    requires
        0 <= j <= b.len(),
    ensures
        split_from(a + b, a.len() + j) == split_from(b, j),
    decreases b.len() - j,
{
    let s = a + b;
    lemma_next_sep_shift(a, b, j);
    lemma_next_sep(b, j);
    let k = next_sep(b, j);
    if k < 0 {
        assert(s.subrange(a.len() + j, s.len() as int) =~= b.subrange(j, b.len() as int));
    } else {
        assert(s.subrange(a.len() + j, a.len() + k) =~= b.subrange(j, k));
        lemma_split_shift(a, b, k + 2);
        assert(a.len() + k + 2 == a.len() + (k + 2));
    }
}

/// Splitting parts without underscores that were joined with `__` gives the parts back.
pub proof fn lemma_split_joined(ps: Seq<Seq<char>>)
    requires
        ps.len() >= 1,
        forall|k: int| 0 <= k < ps.len() ==> no_underscore(#[trigger] ps[k]),
    ensures
        split_parts(joined(ps)) == ps,
    decreases ps.len(),
{
    let p = ps[0];
    assert(no_underscore(p));
    if ps.len() == 1 {
        lemma_next_sep_is(p, 0, -1);
        assert(p.subrange(0, p.len() as int) =~= p);
        assert(split_parts(joined(ps)) =~= ps);
    } else {
        let rest = ps.drop_first();
        assert forall|k: int| 0 <= k < rest.len() implies no_underscore(#[trigger] rest[k]) by {
            assert(rest[k] == ps[k + 1]);
        }
        lemma_split_joined(rest);
        let a = p + seq!['_', '_'];
        let r = joined(rest);
        let s = joined(ps);
        assert(s =~= a + r);
        assert forall|j: int| 0 <= j && j < p.len() implies !#[trigger] sep_at(s, j) by {
            assert(s[j] == p[j]);
        }
        lemma_next_sep_is(s, 0, p.len() as int);
        lemma_next_sep(s, 0);
        assert(s.subrange(0, p.len() as int) =~= p);
        lemma_split_shift(a, r, 0);
        assert(split_from(s, (p.len() + 2) as int) == split_from(r, 0));
        assert(split_parts(s) =~= seq![p] + rest);
    }
}

proof fn lemma_signed_decimal_no_underscore(n: int)
    ensures
        no_underscore(signed_decimal(n)),
        n >= 0 ==> signed_decimal(n) == decimal(n as nat),
{
    if n < 0 {
        lemma_decimal_digits((-n) as nat);
        let d = decimal((-n) as nat);
        assert forall|i: int| 0 <= i < signed_decimal(n).len() implies #[trigger] signed_decimal(n)[i] != '_' by {
            if i > 0 {
                assert(signed_decimal(n)[i] == d[i - 1]);
            }
        }
    } else {
        lemma_decimal_digits(n as nat);
    }
}

proof fn lemma_base_name_joined(m: (int, int, int, int))
    requires
        m.0 >= 0,
        m.1 >= 0,
    ensures
        joined(seq![seq!['R'], signed_decimal(m.0), signed_decimal(m.1), signed_decimal(m.2), signed_decimal(m.3)])
            == section_base_name(m),
{
    let sep = seq!['_', '_'];
    let (d0, d1, d2, d3) = (signed_decimal(m.0), signed_decimal(m.1), signed_decimal(m.2), signed_decimal(m.3));
    lemma_signed_decimal_no_underscore(m.0);
    lemma_signed_decimal_no_underscore(m.1);
    let t4 = seq![d3];
    let t3 = seq![d2, d3];
    let t2 = seq![d1, d2, d3];
    let t1 = seq![d0, d1, d2, d3];
    let t0 = seq![seq!['R'], d0, d1, d2, d3];
    assert(joined(t4) == d3);
    assert(t3.drop_first() =~= t4);
    assert(joined(t3) == d2 + sep + d3);
    assert(t2.drop_first() =~= t3);
    assert(joined(t2) == d1 + sep + (d2 + sep + d3));
    assert(t1.drop_first() =~= t2);
    assert(joined(t1) == d0 + sep + (d1 + sep + (d2 + sep + d3)));
    assert(t0.drop_first() =~= t1);
    assert(joined(t0) == seq!['R'] + sep + (d0 + sep + (d1 + sep + (d2 + sep + d3))));
    assert(joined(t0) =~= section_base_name(m));
}

/// Reading back the section from the base name written for it gives the section.
pub proof fn lemma_base_name_read_back(m: (int, int, int, int))
    requires
        0 <= m.0 <= usize::MAX,
        0 <= m.1 <= usize::MAX,
        i32::MIN <= m.2 <= i32::MAX,
        i32::MIN <= m.3 <= i32::MAX,
    ensures
        section_of_name(section_base_name(m)) == Some(m),
{
    let ps = seq![seq!['R'], signed_decimal(m.0), signed_decimal(m.1), signed_decimal(m.2), signed_decimal(m.3)];
    lemma_signed_decimal_no_underscore(m.0);
    lemma_signed_decimal_no_underscore(m.1);
    lemma_signed_decimal_no_underscore(m.2);
    lemma_signed_decimal_no_underscore(m.3);
    assert(no_underscore(seq!['R']));
    assert forall|k: int| 0 <= k < ps.len() implies no_underscore(#[trigger] ps[k]) by {}
    assert(ps.drop_first().drop_first().drop_first().drop_first() =~= seq![signed_decimal(m.3)]);
    lemma_base_name_joined(m);
    lemma_split_joined(ps);
    lemma_parse_signed_decimal(m.0, 0, usize::MAX as int);
    lemma_parse_signed_decimal(m.1, 0, usize::MAX as int);
    lemma_parse_signed_decimal(m.2, i32::MIN as int, i32::MAX as int);
    lemma_parse_signed_decimal(m.3, i32::MIN as int, i32::MAX as int);
}

} // verus!
