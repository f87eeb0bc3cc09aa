//! Cells of arrow grids: strings that usually hold one arrow glyph.
use vstd::prelude::*;

verus! {

/// The four arrow glyphs of the code.
pub open spec fn is_arrow_char(c: char) -> bool {
    c == '↑' || c == '↓' || c == '←' || c == '→'
}

/// A cell that holds exactly one arrow glyph.
pub open spec fn arrow_cell(cell: Seq<char>) -> bool {
    cell.len() == 1 && is_arrow_char(cell[0])
}

/// First character of a cell, if any.
pub open spec fn first_char(cell: Seq<char>) -> Option<char> {
    if cell.len() > 0 {
        Some(cell[0])
    } else {
        None
    }
}

/// First character of a cell, or a space when the cell is empty.
pub open spec fn first_char_or_space(cell: Seq<char>) -> char {
    if cell.len() > 0 {
        cell[0]
    } else {
        ' '
    }
}

/// First character of `s`, if any.
pub fn cell_first_char(s: &String) -> (r: Option<char>)
    ensures
        r == first_char(s@),
{
    let t = s.as_str();
    if t.unicode_len() == 0 {
        None
    } else {
        Some(t.get_char(0))
    }
}

/// `c` is one of the four arrow glyphs.
pub fn is_arrow(c: char) -> (r: bool)
    ensures
        r == is_arrow_char(c),
{
    c == '↑' || c == '↓' || c == '←' || c == '→'
}

/// `s` is exactly one arrow glyph.
pub fn is_arrow_cell(s: &str) -> (r: bool)
    ensures
        r == arrow_cell(s@),
{
    s.unicode_len() == 1 && is_arrow(s.get_char(0))
}

/// A string holding the one character `c` (`ToString::to_string` on a `char`).
#[verifier::external_body]
pub(crate) fn char_to_string(c: char) -> (s: String)
    ensures
        s@ == seq![c],
{
    c.to_string()
}

/// A cell holding a single space.
pub fn space_cell() -> (s: String)
    ensures
        s@ == seq![' '],
{
    char_to_string(' ')
}

} // verus!

verus! {

/// The characters of `s`.
pub fn chars_of(s: &str) -> (v: Vec<char>)
    ensures
        v@ == s@,
{
    broadcast use vstd::string::group_string_axioms;
    let mut v: Vec<char> = Vec::new();
    for c in it: s.chars()
        invariant
            v@ == it.seq().take(it.index() as int),
    {
        v.push(c);
    }
    assert(v@ =~= s@);
    v
}

} // verus!
