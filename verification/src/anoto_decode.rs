//! Decoding of absolute positions from 6x6 windows of arrow cells.
//!
//! Each cell of the minified arrow grid carries two bits. The first bit of every
//! column, read downwards, is a window of a cyclic rotation of the main number
//! sequence; the rotation changes from column to column by an amount that is a
//! mixed-radix number whose digits are read from four secondary sequences. The
//! positions of those digits in the secondary sequences give the column index
//! modulo the sequence lengths, and the Chinese remainder theorem gives the index
//! itself. The second bit does the same for rows.
use vstd::arithmetic::div_mod::*;
use vstd::arithmetic::mul::*;
use vstd::prelude::*;

use crate::anoto_sequences::{
    a1_at, a1_value, a2_at, a2_value, a3_at, a3_value, a4_at, a4_value, lemma_a1_range,
    lemma_a1_window_unique, lemma_a2_range, lemma_a2_window_unique, lemma_a3_range,
    lemma_a3_window_unique, lemma_a4_range, lemma_a4_window_unique, lemma_mns_range,
    lemma_mns_window_unique, mns_at, mns_value,
};
use crate::cells::{cell_first_char, first_char};
use crate::grid::{is_rectangular, subgrid};
use crate::modular::{inverse_mod, lemma_trunc_rem_congruent, mod_inverse, spec_gcd, trunc_rem};

verus! {

/// Reasons for which a 6x6 window does not decode.
#[derive(Debug, Clone)]
pub enum DecodeError {
    BadPatchSize,
    InvalidArrow(char),
    MainSequenceNotFound,
    DeltaOutOfRange,
    SecondarySequenceNotFound,
    CrtSolveFailed(String),
}

// ---------------------------------------------------------------------------
// The code: sequences, mixed radix, moduli
// ---------------------------------------------------------------------------
/// Symbol `i` of secondary sequence `k`.
pub open spec fn sns_at(k: int, i: int) -> int {
    if k == 0 {
        a1_at(i)
    } else if k == 1 {
        a2_at(i)
    } else if k == 2 {
        a3_at(i)
    } else {
        a4_at(i)
    }
}

/// Length of secondary sequence `k`; these lengths are also the moduli of the position code.
pub open spec fn sns_len(k: int) -> int {
    if k == 0 {
        236
    } else if k == 1 {
        233
    } else if k == 2 {
        31
    } else {
        241
    }
}

/// Alphabet size of secondary sequence `k`; also the radix of digit `k` of a step.
pub open spec fn sns_base(k: int) -> int {
    if k == 2 {
        2
    } else {
        3
    }
}

/// Weight of digit `k` in the mixed-radix number system with radices 3, 3, 2, 3.
pub open spec fn radix_weight(k: int) -> int {
    if k <= 0 {
        1
    } else if k == 1 {
        3
    } else if k == 2 {
        9
    } else if k == 3 {
        18
    } else {
        54
    }
}

/// Digit `k` of `v` in the mixed-radix number system with radices 3, 3, 2, 3.
pub open spec fn mixed_digit(v: int, k: int) -> int {
    (v / radix_weight(k)) % sns_base(k)
}

/// Product of the four moduli: the number of distinct positions along one axis.
pub open spec fn crt_product() -> int {
    410815348
}

/// Product of the moduli other than modulus `k`.
pub open spec fn crt_cofactor(k: int) -> int {
    if k == 0 {
        1740743
    } else if k == 1 {
        1763156
    } else if k == 2 {
        13252108
    } else {
        1704628
    }
}

/// The main number sequence followed by its first five symbols, so that every cyclic window
/// of six symbols is a contiguous window.
pub open spec fn mns_cyclic_seq() -> Seq<i8> {
    Seq::new(68, |i: int| mns_at(i % 63) as i8)
}

/// Secondary sequence `k` followed by its first four symbols.
pub open spec fn sns_cyclic_seq(k: int) -> Seq<i8> {
    Seq::new((sns_len(k) + 4) as nat, |i: int| sns_at(k, i % sns_len(k)) as i8)
}

/// The rotation step between position `p` and position `p + 1`: five plus the mixed-radix
/// number whose digits are the secondary symbols at `p`.
pub open spec fn delta_at(p: int) -> int {
    5 + sns_at(0, p % 236) + 3 * sns_at(1, p % 233) + 9 * sns_at(2, p % 31) + 18 * sns_at(3, p % 241)
}

/// Sum of the rotation steps of positions `0 .. n`.
pub open spec fn delta_sum(n: int) -> int
    decreases n,
{
    if n <= 0 {
        0
    } else {
        delta_sum(n - 1) + delta_at(n - 1)
    }
}

/// Rotation of the main sequence used at position `pos` of a section that starts with
/// rotation `first_roll` (as computed with Rust's signed remainder).
pub open spec fn roll_at(pos: int, first_roll: int) -> int {
    trunc_rem(first_roll + delta_sum(pos), 63)
}

/// Bit `k` of a line of the code: the main sequence rotated as at position `line_pos` of a
/// section starting with rotation `first_roll`, read at index `other + k` (taken as Rust
/// turns an `i32` into a `usize`).
pub open spec fn line_bit(line_pos: int, other: int, first_roll: int, k: int) -> i8 {
    mns_at(((((other + k) as i32) as usize) % 63 + roll_at(line_pos, first_roll) % 63) % 63) as i8
}

/// Bit `ch` of the cell in row `r` and column `c` of the window at `(x, y)`.
pub open spec fn encoded_bit(x: int, y: int, first_rolls: (int, int), r: int, c: int, ch: int) -> i8 {
    if ch == 0 {
        line_bit(x + c, y, first_rolls.0, r)
    } else {
        line_bit(y + r, x, first_rolls.1, c)
    }
}

// ---------------------------------------------------------------------------
// Searching windows
// ---------------------------------------------------------------------------
/// `needle` occurs in `haystack` starting at position `q`.
pub open spec fn occurs_at(haystack: Seq<i8>, needle: Seq<i8>, q: int) -> bool {
    haystack.subrange(q, q + needle.len()) == needle
}

/// First position at or after `p` where `needle` occurs in `haystack`.
pub open spec fn first_match_from(haystack: Seq<i8>, needle: Seq<i8>, p: int) -> Option<int>
    decreases haystack.len() - p,
{
    if p < 0 || needle.len() == 0 || p + needle.len() > haystack.len() {
        None
    } else if occurs_at(haystack, needle, p) {
        Some(p)
    } else {
        first_match_from(haystack, needle, p + 1)
    }
}

/// First position where `needle` occurs in `haystack`.
pub open spec fn first_match(haystack: Seq<i8>, needle: Seq<i8>) -> Option<int> {
    first_match_from(haystack, needle, 0)
}

proof fn lemma_first_match_from_is(haystack: Seq<i8>, needle: Seq<i8>, p: int, s: int)
    requires
        0 <= p <= s,
        needle.len() > 0,
        s + needle.len() <= haystack.len(),
        occurs_at(haystack, needle, s),
        forall|q: int| p <= q < s ==> !#[trigger] occurs_at(haystack, needle, q),
    ensures
        first_match_from(haystack, needle, p) == Some(s),
    decreases s - p,
{
    if p < s {
        lemma_first_match_from_is(haystack, needle, p + 1, s);
    }
}

proof fn lemma_first_match_from_bound(haystack: Seq<i8>, needle: Seq<i8>, p: int)
    ensures
        first_match_from(haystack, needle, p) matches Some(q) ==> p <= q && q + needle.len()
            <= haystack.len() && occurs_at(haystack, needle, q),
    decreases haystack.len() - p,
{
    if !(p < 0 || needle.len() == 0 || p + needle.len() > haystack.len()) {
        if !occurs_at(haystack, needle, p) {
            lemma_first_match_from_bound(haystack, needle, p + 1);
        }
    }
}

/// Copy of `seq` followed by its first `order - 1` elements.
fn make_cyclic<T: Copy>(seq: &[T], order: usize) -> (out: Vec<T>)
    requires
        order == 0 || order - 1 <= seq@.len(),
    ensures
        out@ == (if order > 0 {
            seq@ + seq@.take(order - 1)
        } else {
            seq@
        }),
{
    let mut out: Vec<T> = Vec::new();
    let n = seq.len();
    for i in 0..n
        invariant
            n == seq@.len(),
            out@ == seq@.take(i as int),
    {
        out.push(seq[i]);
        assert(out@ =~= seq@.take(i + 1));
    }
    assert(out@ =~= seq@);
    if order > 0 {
        let k = order - 1;
        for i in 0..k
            invariant
                k <= n,
                n == seq@.len(),
                out@ == seq@ + seq@.take(i as int),
        {
            out.push(seq[i]);
            assert(out@ =~= seq@ + seq@.take(i + 1));
        }
    }
    out
}

/// Index of the first occurrence of `needle` in `haystack`.
fn find_subsequence(haystack: &[i8], needle: &[i8]) -> (r: Option<usize>)
    requires
        needle@.len() > 0,
    ensures
        r matches Some(p) ==> first_match(haystack@, needle@) == Some(p as int),
        r is None ==> first_match(haystack@, needle@) is None,
{
    let n = needle.len();
    let h = haystack.len();
    if n > h {
        return None;
    }
    let mut p: usize = 0;
    while p <= h - n
        invariant
            n <= h,
            n == needle@.len(),
            h == haystack@.len(),
            n > 0,
            first_match_from(haystack@, needle@, 0) == first_match_from(haystack@, needle@, p as int),
        decreases h - p,
    {
        let mut same = true;
        let mut j: usize = 0;
        while j < n
            invariant
                n == needle@.len(),
                h == haystack@.len(),
                p + n <= h,
                j <= n,
                same == (forall|k: int| 0 <= k < j ==> haystack@[p + k] == needle@[k]),
            decreases n - j,
        {
            if haystack[p + j] != needle[j] {
                same = false;
            }
            j += 1;
        }
        if same {
            assert(haystack@.subrange(p as int, p + n) =~= needle@);
            return Some(p);
        }
        proof {
            if haystack@.subrange(p as int, p + n) == needle@ {
                assert(forall|k: int|
                    0 <= k < n ==> haystack@[p + k] == #[trigger] haystack@.subrange(
                        p as int,
                        p + n,
                    )[k]);
            }
        }
        p += 1;
    }
    None
}

// ---------------------------------------------------------------------------
// Arrow cells
// ---------------------------------------------------------------------------
/// The two bits an arrow glyph carries.
pub open spec fn arrow_bits(ch: char) -> Option<(i8, i8)> {
    if ch == '↑' {
        Some((0i8, 0i8))
    } else if ch == '←' {
        Some((1i8, 0i8))
    } else if ch == '→' {
        Some((0i8, 1i8))
    } else if ch == '↓' {
        Some((1i8, 1i8))
    } else {
        None
    }
}

/// The two bits an arrow glyph carries: `↑` is (0,0), `←` is (1,0), `→` is (0,1) and
/// `↓` is (1,1); any other character carries none.
pub fn arrow_to_bits(ch: char) -> (r: Option<(i8, i8)>)
    ensures
        r == arrow_bits(ch),
{
    match ch {
        '↑' => Some((0, 0)),
        '←' => Some((1, 0)),
        '→' => Some((0, 1)),
        '↓' => Some((1, 1)),
        _ => None,
    }
}


// ---------------------------------------------------------------------------
// Mixed radix
// ---------------------------------------------------------------------------
/// Value of the first `n` digits of `c` in the mixed-radix system.
pub open spec fn mixed_value(c: Seq<int>, n: int) -> int
    decreases n,
{
    if n <= 0 {
        0
    } else {
        mixed_value(c, n - 1) + c[n - 1] * radix_weight(n - 1)
    }
}

/// Weight of digit `k` in the mixed-radix system with radices `f`: the product of the radices
/// below `k`.
pub open spec fn basis_weight(f: Seq<int>, k: int) -> int
    decreases k,
{
    if k <= 0 {
        1
    } else {
        basis_weight(f, k - 1) * f[k - 1]
    }
}

/// Value of the first `n` digits of `c` in the mixed-radix system with radices `f`.
pub open spec fn basis_value(c: Seq<int>, f: Seq<int>, n: int) -> int
    decreases n,
{
    if n <= 0 {
        0
    } else {
        basis_value(c, f, n - 1) + c[n - 1] * basis_weight(f, n - 1)
    }
}

/// Rust's `/` on integers: the quotient rounded toward zero.
pub open spec fn trunc_div(a: int, m: int) -> int {
    if a >= 0 {
        a / m
    } else {
        -((-a) / m)
    }
}

/// What is left of `v` after the first `j` digits have been taken off with Rust's `/`.
pub open spec fn basis_rest(v: int, f: Seq<int>, j: int) -> int
    decreases j,
{
    if j <= 0 {
        v
    } else {
        trunc_div(basis_rest(v, f, j - 1), f[j - 1])
    }
}

/// Digit `k` of `v` in the mixed-radix system with radices `f`, taken with Rust's `%` and `/`.
pub open spec fn basis_digit(v: int, f: Seq<int>, k: int) -> int {
    trunc_rem(basis_rest(v, f, k), f[k])
}

/// The radices of the code: the alphabet sizes 3, 3, 2, 3 of the secondary sequences.
pub open spec fn code_radices() -> Seq<int> {
    seq![3int, 3, 2, 3]
}

/// Weights grow with the digit and are at least 1 when every radix is.
proof fn lemma_weight_grows(f: Seq<int>, a: int, b: int)
    requires
        forall|k: int| 0 <= k < f.len() ==> 1 <= #[trigger] f[k],
        0 <= a <= b <= f.len(),
    ensures
        1 <= basis_weight(f, a) <= basis_weight(f, b),
    decreases b,
{
    if b > 0 {
        let a1 = if a == b { b - 1 } else { a };
        lemma_weight_grows(f, a1, b - 1);
        let w = basis_weight(f, b - 1);
        assert(1 <= w <= w * f[b - 1]) by (nonlinear_arith)
            requires
                w >= 1,
                f[b - 1] >= 1,
        ;
    }
}

/// The weight of a higher digit is a multiple of the weight of a lower one.
proof fn lemma_weight_factor(f: Seq<int>, a: int, b: int) -> (q: int)
    requires
        forall|k: int| 0 <= k < f.len() ==> 1 <= #[trigger] f[k],
        0 <= a <= b <= f.len(),
    ensures
        basis_weight(f, b) == basis_weight(f, a) * q,
        q >= 1,
    decreases b,
{
    if b == a {
        1
    } else {
        let q0 = lemma_weight_factor(f, a, b - 1);
        let w = basis_weight(f, a);
        let fb = f[b - 1];
        assert(basis_weight(f, b) == w * (q0 * fb) && q0 * fb >= 1) by (nonlinear_arith)
            requires
                basis_weight(f, b) == basis_weight(f, b - 1) * fb,
                basis_weight(f, b - 1) == w * q0,
                q0 >= 1,
                fb >= 1,
        ;
        q0 * fb
    }
}

/// On non-negative values the rest after `j` digits is the value divided by the weight.
proof fn lemma_rest_nonneg(v: int, f: Seq<int>, j: int)
    requires
        forall|k: int| 0 <= k < f.len() ==> 1 <= #[trigger] f[k],
        0 <= j <= f.len(),
        v >= 0,
    ensures
        basis_rest(v, f, j) == v / basis_weight(f, j),
        basis_rest(v, f, j) >= 0,
    decreases j,
{
    if j > 0 {
        lemma_rest_nonneg(v, f, j - 1);
        lemma_weight_grows(f, 0, j - 1);
        lemma_div_denominator(v, basis_weight(f, j - 1), f[j - 1]);
        lemma_div_pos_is_pos(v, basis_weight(f, j));
        lemma_weight_grows(f, 0, j);
    }
}

/// Digit `k` of a non-negative `x` read from the part of `x` below the next weight.
proof fn lemma_digit_from_low_part(x: int, w: int, f: int)
    requires
        x >= 0,
        w >= 1,
        f >= 1,
    ensures
        (x / w) % f == (x % (w * f)) / w,
{
    lemma_breakdown(x, w, f);
    lemma_mul_is_commutative(w, (x / w) % f);
    lemma_mod_pos_bound(x, w);
    lemma_mod_pos_bound(x / w, f);
    lemma_fundamental_div_mod_converse(x % (w * f), w, (x / w) % f, x % w);
}

/// The digits of a value in `0 .. weight(n)` give it back.
proof fn lemma_digits_value_upto(f: Seq<int>, v: int, n: int)
    requires
        forall|k: int| 0 <= k < f.len() ==> 1 <= #[trigger] f[k],
        0 <= n <= f.len(),
        v >= 0,
    ensures
        basis_value(Seq::new(f.len(), |k: int| basis_digit(v, f, k)), f, n) == v % basis_weight(f, n),
    decreases n,
{
    let d = Seq::new(f.len(), |k: int| basis_digit(v, f, k));
    if n == 0 {
        lemma_small_mod(0, 1);
        lemma_fundamental_div_mod_converse(v, 1, v, 0);
    } else {
        lemma_digits_value_upto(f, v, n - 1);
        let w = basis_weight(f, n - 1);
        let fk = f[n - 1];
        lemma_weight_grows(f, 0, n - 1);
        lemma_rest_nonneg(v, f, n - 1);
        lemma_div_pos_is_pos(v, w);
        assert(d[n - 1] == (v / w) % fk);
        lemma_breakdown(v, w, fk);
        lemma_mul_is_commutative(d[n - 1], w);
    }
}

/// A value written with digits below their radices lies in `0 .. weight(n)`.
proof fn lemma_value_bounds(c: Seq<int>, f: Seq<int>, n: int)
    requires
        forall|k: int| 0 <= k < f.len() ==> 1 <= #[trigger] f[k],
        c.len() == f.len(),
        forall|k: int| 0 <= k < c.len() ==> 0 <= #[trigger] c[k] < f[k],
        0 <= n <= f.len(),
    ensures
        0 <= basis_value(c, f, n) < basis_weight(f, n),
    decreases n,
{
    if n > 0 {
        lemma_value_bounds(c, f, n - 1);
        lemma_weight_grows(f, 0, n - 1);
        let w = basis_weight(f, n - 1);
        let v = basis_value(c, f, n - 1);
        let ck = c[n - 1];
        let fk = f[n - 1];
        assert(0 <= v + ck * w < w * fk) by (nonlinear_arith)
            requires
                0 <= v < w,
                0 <= ck < fk,
                w >= 1,
        ;
    }
}

/// Digit `k` of a value written with digits below their radices is the digit written.
proof fn lemma_value_digit_upto(c: Seq<int>, f: Seq<int>, n: int, k: int)
    requires
        forall|i: int| 0 <= i < f.len() ==> 1 <= #[trigger] f[i],
        c.len() == f.len(),
        forall|i: int| 0 <= i < c.len() ==> 0 <= #[trigger] c[i] < f[i],
        0 <= k < n <= f.len(),
    ensures
        (basis_value(c, f, n) / basis_weight(f, k)) % f[k] == c[k],
    decreases n,
{
    let wk = basis_weight(f, k);
    let fk = f[k];
    lemma_weight_grows(f, 0, k);
    lemma_value_bounds(c, f, n);
    lemma_value_bounds(c, f, n - 1);
    let x = basis_value(c, f, n);
    let y = basis_value(c, f, n - 1);
    if n == k + 1 {
        lemma_fundamental_div_mod_converse(x, wk, c[k], y);
        lemma_small_mod(c[k] as nat, fk as nat);
    } else {
        lemma_value_digit_upto(c, f, n - 1, k);
        let q = lemma_weight_factor(f, k + 1, n - 1);
        let w1 = basis_weight(f, k + 1);
        assert(w1 == wk * fk);
        lemma_weight_grows(f, 0, k + 1);
        assert(x == y + (c[n - 1] * q) * w1) by (nonlinear_arith)
            requires
                x == y + c[n - 1] * basis_weight(f, n - 1),
                basis_weight(f, n - 1) == w1 * q,
        ;
        assert(x == w1 * (c[n - 1] * q) + y) by (nonlinear_arith)
            requires
                x == y + (c[n - 1] * q) * w1,
        ;
        lemma_mod_multiples_vanish(c[n - 1] * q, y, w1);
        assert(x % w1 == y % w1);
        lemma_value_bounds(c, f, k + 1);
        lemma_digit_from_low_part(x, wk, fk);
        lemma_digit_from_low_part(y, wk, fk);
    }
}

/// Taking the digits of a value in `0 .. product of the radices` and reading them back gives the
/// value.
pub proof fn lemma_basis_digits_value(f: Seq<int>, v: int)
    requires
        forall|k: int| 0 <= k < f.len() ==> 1 <= #[trigger] f[k],
        0 <= v < basis_weight(f, f.len() as int),
    ensures
        basis_value(Seq::new(f.len(), |k: int| basis_digit(v, f, k)), f, f.len() as int) == v,
{
    lemma_digits_value_upto(f, v, f.len() as int);
    lemma_small_mod(v as nat, basis_weight(f, f.len() as int) as nat);
}

/// Reading digits below their radices as a value and taking its digits gives the digits back.
pub proof fn lemma_basis_value_digits(c: Seq<int>, f: Seq<int>)
    requires
        forall|k: int| 0 <= k < f.len() ==> 1 <= #[trigger] f[k],
        c.len() == f.len(),
        forall|k: int| 0 <= k < c.len() ==> 0 <= #[trigger] c[k] < f[k],
    ensures
        forall|k: int|
            0 <= k < c.len() ==> #[trigger] basis_digit(basis_value(c, f, f.len() as int), f, k) == c[k],
{
    let n = f.len() as int;
    lemma_value_bounds(c, f, n);
    assert forall|k: int| 0 <= k < c.len() implies #[trigger] basis_digit(basis_value(c, f, n), f, k) == c[k] by {
        let v = basis_value(c, f, n);
        lemma_rest_nonneg(v, f, k);
        lemma_weight_grows(f, 0, k);
        lemma_div_pos_is_pos(v, basis_weight(f, k));
        lemma_value_digit_upto(c, f, n, k);
    }
}

/// The code's radices give the weights 1, 3, 9, 18, 54.
proof fn lemma_code_radices(c: Seq<int>, v: int)
    requires
        v >= 0,
    ensures
        forall|k: int| 0 <= k <= 4 ==> #[trigger] basis_weight(code_radices(), k) == radix_weight(k),
        basis_value(c, code_radices(), 4) == mixed_value(c, 4),
        forall|k: int| 0 <= k < 4 ==> #[trigger] basis_digit(v, code_radices(), k) == mixed_digit(v, k),
{
    let f = code_radices();
    reveal_with_fuel(basis_weight, 5);
    reveal_with_fuel(basis_value, 5);
    reveal_with_fuel(mixed_value, 5);
    assert(f[0] == 3 && f[1] == 3 && f[2] == 2 && f[3] == 3);
    assert(basis_weight(f, 0) == 1);
    assert(basis_weight(f, 1) == 3) by (nonlinear_arith)
        requires
            basis_weight(f, 1) == basis_weight(f, 0) * f[0],
            basis_weight(f, 0) == 1,
            f[0] == 3,
    ;
    assert(basis_weight(f, 2) == 9) by (nonlinear_arith)
        requires
            basis_weight(f, 2) == basis_weight(f, 1) * f[1],
            basis_weight(f, 1) == 3,
            f[1] == 3,
    ;
    assert(basis_weight(f, 3) == 18) by (nonlinear_arith)
        requires
            basis_weight(f, 3) == basis_weight(f, 2) * f[2],
            basis_weight(f, 2) == 9,
            f[2] == 2,
    ;
    assert(basis_weight(f, 4) == 54) by (nonlinear_arith)
        requires
            basis_weight(f, 4) == basis_weight(f, 3) * f[3],
            basis_weight(f, 3) == 18,
            f[3] == 3,
    ;
    assert forall|k: int| 0 <= k < 4 implies #[trigger] basis_digit(v, f, k) == mixed_digit(v, k) by {
        lemma_rest_nonneg(v, f, k);
        lemma_weight_grows(f, 0, k);
        lemma_div_pos_is_pos(v, basis_weight(f, k));
    }
}

struct NumberBasis {
    factors: [i64; 4],
}

impl NumberBasis {
    /// The radices as integers.
    spec fn radix_seq(&self) -> Seq<int> {
        Seq::new(4, |k: int| self.factors[k] as int)
    }

    fn new(factors: [i64; 4]) -> (r: Self)
        ensures
            r.factors == factors,
    {
        Self { factors }
    }

    /// Value of the digits `coeffs` (least significant first).
    fn reconstruct(&self, coeffs: &[i8; 4]) -> (r: i64)
        requires
            forall|k: int| 0 <= k < 4 ==> 1 <= #[trigger] self.factors[k],
            512 * basis_weight(self.radix_seq(), 4) <= i64::MAX,
        ensures
            r == basis_value(Seq::new(4, |k: int| coeffs[k] as int), self.radix_seq(), 4),
    {
        let ghost c = Seq::new(4, |k: int| coeffs[k] as int);
        let ghost f = self.radix_seq();
        let mut result = 0i64;
        let mut base = 1i64;
        for i in 0..4
            invariant
                f == self.radix_seq(),
                forall|k: int| 0 <= k < 4 ==> 1 <= #[trigger] self.factors[k],
                512 * basis_weight(f, 4) <= i64::MAX,
                c == Seq::new(4, |k: int| coeffs[k] as int),
                base == basis_weight(f, i as int),
                result == basis_value(c, f, i as int),
                -(128 * (i as int) * (base as int)) <= result <= 128 * (i as int) * (base as int),
        {
            proof {
                lemma_weight_grows(f, i as int, 4);
                lemma_weight_grows(f, i + 1, 4);
                lemma_weight_grows(f, 0, i as int);
            }
            let coeff = coeffs[i];
            let factor = self.factors[i];
            assert(f[i as int] == factor);
            assert(c[i as int] == coeff);
            assert(-(128 * (i + 1) * (base as int)) <= result + coeff * base <= 128 * (i + 1) * (base as int)) by (nonlinear_arith)
                requires
                    -(128 * (i as int) * (base as int)) <= result <= 128 * (i as int) * (base as int),
                    -128 <= coeff <= 127,
                    base >= 1,
            ;
            assert(128 * (i + 1) * (base as int) <= 512 * basis_weight(f, 4)) by (nonlinear_arith)
                requires
                    i < 4,
                    1 <= base <= basis_weight(f, 4),
            ;
            assert(-(128 * (base as int)) <= coeff * base <= 128 * (base as int)) by (nonlinear_arith)
                requires
                    -128 <= coeff <= 127,
                    base >= 1,
            ;
            assert(128 * (base as int) <= 128 * (i + 1) * (base as int)) by (nonlinear_arith)
                requires
                    base >= 1,
            ;
            assert(i64::MIN <= result + coeff * base <= i64::MAX);
            result += coeff as i64 * base;
            let ghost old_base = base;
            base *= factor;
            assert(-(128 * (i + 1) * (base as int)) <= result <= 128 * (i + 1) * (base as int)) by (nonlinear_arith)
                requires
                    -(128 * (i + 1) * (old_base as int)) <= result <= 128 * (i + 1) * (old_base as int),
                    base == old_base * factor,
                    factor >= 1,
                    old_base >= 1,
            ;
        }
        result
    }

    /// Digits of each of `values`, taken with Rust's `%` and `/`.
    fn project(&self, values: &[i64; 5]) -> (out: [[i8; 4]; 5])
        requires
            forall|k: int| 0 <= k < 4 ==> 1 <= #[trigger] self.factors[k],
        ensures
            forall|i: int, k: int|
                0 <= i < 5 && 0 <= k < 4 ==> #[trigger] out[i][k] == basis_digit(
                    values[i] as int,
                    self.radix_seq(),
                    k,
                ) as i8,
    {
        let ghost f = self.radix_seq();
        let mut out = [[0i8; 4]; 5];
        for i in 0..5
            invariant
                f == self.radix_seq(),
                forall|k: int| 0 <= k < 4 ==> 1 <= #[trigger] self.factors[k],
                forall|ii: int, k: int|
                    0 <= ii < i && 0 <= k < 4 ==> #[trigger] out[ii][k] == basis_digit(values[ii] as int, f, k)
                        as i8,
        {
            let val = values[i];
            let mut remaining = val;
            let mut row = [0i8; 4];
            for j in 0..4
                invariant
                    f == self.radix_seq(),
                    forall|k: int| 0 <= k < 4 ==> 1 <= #[trigger] self.factors[k],
                    remaining == basis_rest(val as int, f, j as int),
                    forall|k: int| 0 <= k < j ==> #[trigger] row[k] == basis_digit(val as int, f, k) as i8,
            {
                let factor = self.factors[j];
                assert(f[j as int] == factor);
                row[j] = (remaining % factor) as i8;
                remaining = remaining / factor;
            }
            out[i] = row;
        }
        out
    }
}

/// A digit is small enough to be stored in an `i8`.
proof fn lemma_mixed_digit_small(v: int, k: int)
    requires
        0 <= v,
        0 <= k < 4,
    ensures
        0 <= mixed_digit(v, k) < sns_base(k),
{
}

/// Digits of a mixed-radix value are recovered by projecting it.
proof fn lemma_mixed_digits_roundtrip(c: Seq<int>, k: int)
    requires
        c.len() == 4,
        forall|j: int| 0 <= j < 4 ==> 0 <= #[trigger] c[j] < sns_base(j),
        0 <= k < 4,
    ensures
        mixed_digit(mixed_value(c, 4), k) == c[k],
{
    let v = mixed_value(c, 4);
    reveal_with_fuel(mixed_value, 5);
    assert(v == c[0] + 3 * c[1] + 9 * c[2] + 18 * c[3]);
    assert(0 <= c[0] < 3 && 0 <= c[1] < 3 && 0 <= c[2] < 2 && 0 <= c[3] < 3);
    if k == 0 {
        lemma_fundamental_div_mod_converse(v, 3, c[1] + 3 * c[2] + 6 * c[3], c[0]);
    } else if k == 1 {
        lemma_fundamental_div_mod_converse(v, 3, c[1] + 3 * c[2] + 6 * c[3], c[0]);
        lemma_fundamental_div_mod_converse(v / 3, 3, c[2] + 2 * c[3], c[1]);
        lemma_div_denominator(v, 1, 3);
    } else if k == 2 {
        lemma_fundamental_div_mod_converse(v, 9, c[2] + 2 * c[3], c[0] + 3 * c[1]);
        lemma_fundamental_div_mod_converse(v / 9, 2, c[3], c[2]);
    } else {
        lemma_fundamental_div_mod_converse(v, 18, c[3], c[0] + 3 * c[1] + 9 * c[2]);
        lemma_fundamental_div_mod_converse(v / 18, 3, 0, c[3]);
    }
}


// ---------------------------------------------------------------------------
// Chinese remainder theorem over the four moduli
// ---------------------------------------------------------------------------
/// `v` lies in `0 .. crt_product()` and has the residues `rem` modulo the four moduli.
pub open spec fn is_crt_solution(v: int, rem: Seq<int>) -> bool {
    &&& 0 <= v < crt_product()
    &&& forall|k: int| 0 <= k < 4 ==> #[trigger] (v % sns_len(k)) == rem[k] % sns_len(k)
}

/// The position whose residues modulo the four moduli are `rem`.
pub open spec fn crt_solution(rem: Seq<int>) -> int {
    choose|v: int| is_crt_solution(v, rem)
}

/// At most one number in `0 .. crt_product()` has given residues modulo the four moduli.
pub proof fn lemma_crt_unique(v: int, w: int)
    requires
        0 <= v < crt_product(),
        0 <= w < crt_product(),
        forall|k: int| 0 <= k < 4 ==> #[trigger] (v % sns_len(k)) == w % sns_len(k),
    ensures
        v == w,
{
    assert(v % sns_len(0) == w % sns_len(0));
    assert(v % sns_len(1) == w % sns_len(1));
    assert(v % sns_len(2) == w % sns_len(2));
    assert(v % sns_len(3) == w % sns_len(3));
    let d = v - w;
    lemma_mod_equivalence(v, w, 236);
    lemma_mod_equivalence(v, w, 233);
    lemma_mod_equivalence(v, w, 31);
    lemma_mod_equivalence(v, w, 241);
    lemma_fundamental_div_mod(d, 236);
    lemma_fundamental_div_mod(d, 233);
    lemma_fundamental_div_mod(d, 31);
    lemma_fundamental_div_mod(d, 241);
    let t0 = d / 236;
    let t1 = d / 233;
    let t2 = d / 31;
    let t3 = d / 241;
    assert(d == 236 * t0);
    assert(d == 233 * t1);
    assert(d == 31 * t2);
    assert(d == 241 * t3);
    // 236 * 78 - 233 * 79 == 1
    let s1 = 78 * t1 - 79 * t0;
    assert(d == 54988 * s1);
    // 54988 * 5 - 31 * 8869 == 1
    let s2 = 5 * t2 - 8869 * s1;
    assert(d == 1704628 * s2);
    // 1704628 * 62 - 241 * 438535 == 1
    let s3 = 62 * t3 - 438535 * s2;
    assert(d == 410815348 * s3);
}

/// The number the decoder finds is the position with the given residues.
proof fn lemma_is_crt_solution(v: int, rem: Seq<int>)
    requires
        is_crt_solution(v, rem),
    ensures
        crt_solution(rem) == v,
{
    let w = crt_solution(rem);
    assert(is_crt_solution(w, rem));
    assert forall|k: int| 0 <= k < 4 implies #[trigger] (v % sns_len(k)) == w % sns_len(k) by {
        assert(v % sns_len(k) == rem[k] % sns_len(k));
        assert(w % sns_len(k) == rem[k] % sns_len(k));
    }
    lemma_crt_unique(v, w);
}

/// The numbers the remainder combination relies on.
proof fn lemma_crt_constants(k: int)
    requires
        0 <= k < 4,
    ensures
        crt_product() == sns_len(k) * crt_cofactor(k),
        spec_gcd(crt_cofactor(k), sns_len(k)) == 1,
        forall|j: int| 0 <= j < 4 && j != k ==> #[trigger] (crt_cofactor(k) % sns_len(j)) == 0,
        sns_len(k) > 1,
{
    reveal_with_fuel(spec_gcd, 20);
    if k == 0 {
        assert(spec_gcd(1740743, 236) == 1);
    } else if k == 1 {
        assert(spec_gcd(1763156, 233) == 1);
    } else if k == 2 {
        assert(spec_gcd(13252108, 31) == 1);
    } else {
        assert(spec_gcd(1704628, 241) == 1);
    }
}

/// Product of four moduli.
pub open spec fn moduli_product(m: Seq<int>) -> int {
    m[0] * m[1] * m[2] * m[3]
}

/// Product of the moduli other than modulus `k`.
pub open spec fn moduli_cofactor(m: Seq<int>, k: int) -> int {
    if k == 0 {
        m[1] * m[2] * m[3]
    } else if k == 1 {
        m[0] * m[2] * m[3]
    } else if k == 2 {
        m[0] * m[1] * m[3]
    } else {
        m[0] * m[1] * m[2]
    }
}

/// The product of the other moduli has an inverse modulo modulus `k`.
pub open spec fn crt_invertible(m: Seq<int>, k: int) -> bool {
    spec_gcd(moduli_product(m) / m[k], m[k]) == 1
}

/// The combination of the first `n` remainders: each remainder times the product of the other
/// moduli times its inverse modulo its own modulus, summed modulo the product.
pub open spec fn crt_fold(m: Seq<int>, rem: Seq<int>, n: int) -> int
    decreases n,
{
    if n <= 0 {
        0
    } else {
        let p = moduli_product(m);
        let pp = p / m[n - 1];
        (crt_fold(m, rem, n - 1) + rem[n - 1] * pp * inverse_mod(pp, m[n - 1])) % p
    }
}

/// The product splits into modulus `k` times the other moduli, and every other modulus divides
/// the product of the moduli other than `k`.
proof fn lemma_cofactor(m: Seq<int>, k: int)
    requires
        m.len() == 4,
        forall|j: int| 0 <= j < 4 ==> 1 <= #[trigger] m[j],
        0 <= k < 4,
    ensures
        moduli_product(m) == m[k] * moduli_cofactor(m, k),
        moduli_product(m) / m[k] == moduli_cofactor(m, k),
        moduli_cofactor(m, k) >= 1,
        forall|j: int| 0 <= j < 4 && j != k ==> #[trigger] (moduli_cofactor(m, k) % m[j]) == 0,
{
    let (a, b, c, d) = (m[0], m[1], m[2], m[3]);
    assert(a * b * c * d == a * (b * c * d)) by (nonlinear_arith);
    assert(a * b * c * d == b * (a * c * d)) by (nonlinear_arith);
    assert(a * b * c * d == c * (a * b * d)) by (nonlinear_arith);
    assert(a * b * c * d == d * (a * b * c)) by (nonlinear_arith);
    assert(b * c * d >= 1 && a * c * d >= 1 && a * b * d >= 1 && a * b * c >= 1) by (nonlinear_arith)
        requires
            a >= 1,
            b >= 1,
            c >= 1,
            d >= 1,
    ;
    assert(moduli_product(m) == moduli_cofactor(m, k) * m[k]) by (nonlinear_arith)
        requires
            m[0] == a,
            m[1] == b,
            m[2] == c,
            m[3] == d,
            moduli_product(m) == a * b * c * d,
            moduli_cofactor(m, k) == (if k == 0 {
                b * c * d
            } else if k == 1 {
                a * c * d
            } else if k == 2 {
                a * b * d
            } else {
                a * b * c
            }),
            0 <= k < 4,
    ;
    lemma_fundamental_div_mod_converse(moduli_product(m), m[k], moduli_cofactor(m, k), 0);
    assert forall|j: int| 0 <= j < 4 && j != k implies #[trigger] (moduli_cofactor(m, k) % m[j]) == 0 by {
        lemma_cofactor_divisible(m, k, j);
    }
}

/// Every modulus other than modulus `k` divides the product of the moduli other than `k`.
proof fn lemma_cofactor_divisible(m: Seq<int>, k: int, j: int)
    requires
        m.len() == 4,
        forall|i: int| 0 <= i < 4 ==> 1 <= #[trigger] m[i],
        0 <= k < 4,
        0 <= j < 4,
        j != k,
    ensures
        moduli_cofactor(m, k) % m[j] == 0,
{
    let (a, b, c, d) = (m[0], m[1], m[2], m[3]);
    let q = if k == 0 {
        if j == 1 { c * d } else if j == 2 { b * d } else { b * c }
    } else if k == 1 {
        if j == 0 { c * d } else if j == 2 { a * d } else { a * c }
    } else if k == 2 {
        if j == 0 { b * d } else if j == 1 { a * d } else { a * b }
    } else {
        if j == 0 { b * c } else if j == 1 { a * c } else { a * b }
    };
    assert(moduli_cofactor(m, k) == q * m[j]) by (nonlinear_arith)
        requires
            m[0] == a,
            m[1] == b,
            m[2] == c,
            m[3] == d,
            moduli_cofactor(m, k) == (if k == 0 {
                b * c * d
            } else if k == 1 {
                a * c * d
            } else if k == 2 {
                a * b * d
            } else {
                a * b * c
            }),
            q == (if k == 0 {
                if j == 1 { c * d } else if j == 2 { b * d } else { b * c }
            } else if k == 1 {
                if j == 0 { c * d } else if j == 2 { a * d } else { a * c }
            } else if k == 2 {
                if j == 0 { b * d } else if j == 1 { a * d } else { a * b }
            } else {
                if j == 0 { b * c } else if j == 1 { a * c } else { a * b }
            }),
            0 <= k < 4,
            0 <= j < 4,
            j != k,
    ;
    lemma_mod_multiples_basic(q, m[j]);
}

/// Adding `rem * cofactor(i) * inv`, with `inv` the inverse of the cofactor modulo modulus `i`,
/// changes the residue modulo modulus `i` by `rem` and leaves the other residues alone.
proof fn lemma_crt_step(m: Seq<int>, result: int, rem: int, inv: int, i: int, j: int)
    requires
        m.len() == 4,
        forall|k: int| 0 <= k < 4 ==> 1 <= #[trigger] m[k],
        0 <= i < 4,
        0 <= j < 4,
        0 <= result,
        0 <= rem,
        0 <= inv,
        (moduli_cofactor(m, i) * inv) % m[i] == 1int % m[i],
    ensures
        ((result + rem * moduli_cofactor(m, i) * inv) % moduli_product(m)) % m[j] == (result % m[j] + (if j
            == i {
            rem
        } else {
            0
        })) % m[j],
{
    let mj = m[j];
    let c = moduli_cofactor(m, i);
    let t = rem * c * inv;
    let x = result + t;
    lemma_cofactor(m, j);
    lemma_cofactor(m, i);
    lemma_mod_mod(x, mj, moduli_cofactor(m, j));
    lemma_add_mod_noop(result, t, mj);
    lemma_mod_twice(result, mj);
    if j == i {
        lemma_mul_is_associative(rem, c, inv);
        lemma_mul_mod_noop_right(rem, c * inv, mj);
        if mj == 1 {
            lemma_small_mod(0, 1);
            assert(t % mj == 0);
            assert(rem % mj == 0);
        } else {
            lemma_small_mod(1, mj as nat);
            assert((rem * 1) % mj == rem % mj);
        }
        assert(t % mj == rem % mj);
        lemma_add_mod_noop(result % mj, rem, mj);
        lemma_mod_twice(rem, mj);
    } else {
        lemma_cofactor_divisible(m, i, j);
        assert(c % mj == 0);
        lemma_mul_mod_noop_right(rem, c, mj);
        assert(rem * 0 == 0);
        lemma_small_mod(0, mj as nat);
        assert((rem * c) % mj == 0);
        lemma_mul_mod_noop_left(rem * c, inv, mj);
        assert(0 * inv == 0);
        assert(t % mj == 0);
        lemma_add_mod_noop(result % mj, 0, mj);
    }
}

/// The moduli of the code: the lengths of the four secondary sequences.
pub open spec fn code_moduli() -> Seq<int> {
    seq![236int, 233, 31, 241]
}

/// The code's moduli: each cofactor is invertible modulo its modulus.
proof fn lemma_codec_moduli_invertible()
    ensures
        moduli_product(code_moduli()) == crt_product(),
        forall|k: int| 0 <= k < 4 ==> #[trigger] crt_invertible(code_moduli(), k),
{
    let m = code_moduli();
    assert forall|k: int| 0 <= k < 4 implies #[trigger] crt_invertible(m, k) by {
        lemma_crt_constants(k);
        lemma_cofactor(m, k);
        assert(m[k] == sns_len(k));
        assert(moduli_cofactor(m, k) == crt_cofactor(k));
    }
}

struct Crt {
    moduli: [i64; 4],
}

impl Crt {
    /// The moduli as integers.
    spec fn moduli_seq(&self) -> Seq<int> {
        Seq::new(4, |k: int| self.moduli[k] as int)
    }

    fn new(moduli: [i64; 4]) -> (r: Self)
        ensures
            r.moduli == moduli,
    {
        Self { moduli }
    }

    /// The number in `0 .. product` with the given residues modulo the four moduli; an error
    /// when the product of the other moduli has no inverse modulo one of them.
    fn solve(&self, remainders: [i64; 4]) -> (r: Result<i64, DecodeError>)
        requires
            forall|k: int| 0 <= k < 4 ==> 1 <= #[trigger] self.moduli[k],
            forall|k: int| 0 <= k < 4 ==> 0 <= #[trigger] remainders[k] < self.moduli[k],
            forall|k: int|
                0 <= k < 4 ==> moduli_product(self.moduli_seq()) * (#[trigger] self.moduli[k] + 1)
                    <= i64::MAX,
        ensures
            r is Ok <==> forall|k: int| 0 <= k < 4 ==> #[trigger] crt_invertible(self.moduli_seq(), k),
            r matches Ok(v) ==> {
                &&& v == crt_fold(self.moduli_seq(), Seq::new(4, |k: int| remainders[k] as int), 4)
                &&& 0 <= v < moduli_product(self.moduli_seq())
                &&& forall|k: int| 0 <= k < 4 ==> #[trigger] (v % self.moduli[k]) == remainders[k]
            },
            r matches Err(e) ==> (e matches DecodeError::CrtSolveFailed(t) && t@
                == "modular inverse does not exist"@),
    {
        let ghost m = self.moduli_seq();
        let ghost rem = Seq::new(4, |k: int| remainders[k] as int);
        let ghost p = moduli_product(m);
        assert(m[0] * m[1] >= 1 && m[0] * m[1] <= p && m[0] * m[1] * m[2] <= p && p >= 1) by (nonlinear_arith)
            requires
                m[0] >= 1,
                m[1] >= 1,
                m[2] >= 1,
                m[3] >= 1,
                p == m[0] * m[1] * m[2] * m[3],
        ;
        assert(m[0] == self.moduli[0] && m[1] == self.moduli[1] && m[2] == self.moduli[2] && m[3]
            == self.moduli[3]);
        assert(p * (self.moduli[0] + 1) <= i64::MAX);
        assert(p <= i64::MAX) by (nonlinear_arith)
            requires
                p * (m[0] + 1) <= i64::MAX,
                p >= 1,
                m[0] >= 1,
        ;
        let product: i64 = self.moduli[0] * self.moduli[1] * self.moduli[2] * self.moduli[3];
        let mut result = 0i64;
        for i in 0..4
            invariant
                m == self.moduli_seq(),
                rem == Seq::new(4, |k: int| remainders[k] as int),
                p == moduli_product(m),
                product == p,
                p >= 1,
                forall|k: int| 0 <= k < 4 ==> 1 <= #[trigger] self.moduli[k],
                forall|k: int| 0 <= k < 4 ==> 0 <= #[trigger] remainders[k] < self.moduli[k],
                forall|k: int| 0 <= k < 4 ==> p * (#[trigger] self.moduli[k] + 1) <= i64::MAX,
                result == crt_fold(m, rem, i as int),
                0 <= result < p,
                forall|k: int| 0 <= k < i ==> #[trigger] crt_invertible(m, k),
                forall|j: int|
                    0 <= j < 4 ==> #[trigger] ((result as int) % m[j]) == (if j < i {
                        rem[j]
                    } else {
                        0
                    }) % m[j],
        {
            let modulus = self.moduli[i];
            let remainder = remainders[i];
            proof {
                lemma_cofactor(m, i as int);
            }
            let partial_product = product / modulus;
            assert(partial_product == moduli_cofactor(m, i as int));
            let inverse = match mod_inverse(partial_product, modulus) {
                Ok(v) => v,
                Err(e) => {
                    assert(!crt_invertible(m, i as int));
                    return Err(DecodeError::CrtSolveFailed(e));
                },
            };
            assert(0 <= remainder * partial_product < p) by (nonlinear_arith)
                requires
                    0 <= remainder < modulus,
                    partial_product >= 1,
                    modulus * partial_product == p,
            ;
            assert(0 <= remainder * partial_product * inverse <= p * modulus) by (nonlinear_arith)
                requires
                    0 <= remainder * partial_product < p,
                    0 <= inverse < modulus,
            ;
            assert(p * (modulus + 1) == p * modulus + p) by (nonlinear_arith);
            let ghost old_result = result;
            result = (result + remainder * partial_product * inverse) % product;
            proof {
                assert(result == crt_fold(m, rem, i + 1));
                assert forall|j: int| 0 <= j < 4 implies #[trigger] ((result as int) % m[j]) == (if j < i + 1 {
                    rem[j]
                } else {
                    0
                }) % m[j] by {
                    lemma_crt_step(m, old_result as int, remainder as int, inverse as int, i as int, j);
                    let mj = m[j];
                    lemma_mod_twice(rem[j], mj);
                    lemma_small_mod(0, mj as nat);
                    if j == i {
                        assert(rem[j] == remainder);
                    }
                }
            }
        }
        proof {
            assert forall|k: int| 0 <= k < 4 implies #[trigger] (result % self.moduli[k]) == remainders[k] by {
                assert(m[k] == self.moduli[k]);
                lemma_small_mod(remainders[k] as nat, self.moduli[k] as nat);
            }
        }
        Ok(result)
    }
}


// ---------------------------------------------------------------------------
// Decoding, as a specification
// ---------------------------------------------------------------------------
/// Position of a six-bit row in the main number sequence.
pub open spec fn mns_loc(row: Seq<i8>) -> Option<int> {
    first_match(mns_cyclic_seq(), row)
}

/// Every row of the direction occurs in the main number sequence.
pub open spec fn rows_found(rows: Seq<Seq<i8>>) -> bool {
    forall|r: int| 0 <= r < 6 ==> #[trigger] mns_loc(rows[r]) is Some
}

/// Position of row `r` in the main number sequence.
pub open spec fn row_loc(rows: Seq<Seq<i8>>, r: int) -> int {
    mns_loc(rows[r])->0
}

/// Rotation from row `i - 1` to row `i`, modulo the main sequence length.
pub open spec fn row_step(rows: Seq<Seq<i8>>, i: int) -> int {
    (row_loc(rows, i) - row_loc(rows, i - 1) + 63) % 63
}

/// Every rotation lies in the range of the code (5 to 58).
pub open spec fn steps_in_range(rows: Seq<Seq<i8>>) -> bool {
    forall|i: int| 1 <= i < 6 ==> 5 <= #[trigger] row_step(rows, i) <= 58
}

/// Digit `k` of the five rotations (less five), one per step.
pub open spec fn digit_window(rows: Seq<Seq<i8>>, k: int) -> Seq<i8> {
    Seq::new(5, |j: int| mixed_digit(row_step(rows, j + 1) - 5, k) as i8)
}

/// Position of the digit window `k` in secondary sequence `k`.
pub open spec fn sns_loc(rows: Seq<Seq<i8>>, k: int) -> Option<int> {
    first_match(sns_cyclic_seq(k), digit_window(rows, k))
}

/// Every digit window occurs in its secondary sequence.
pub open spec fn digits_found(rows: Seq<Seq<i8>>) -> bool {
    forall|k: int| 0 <= k < 4 ==> #[trigger] sns_loc(rows, k) is Some
}

/// Decoded coordinate of six rows of six bits, or the first reason it fails.
pub open spec fn decode_rows(rows: Seq<Seq<i8>>) -> Result<int, DecodeError> {
    if !rows_found(rows) {
        Err(DecodeError::MainSequenceNotFound)
    } else if !steps_in_range(rows) {
        Err(DecodeError::DeltaOutOfRange)
    } else if !digits_found(rows) {
        Err(DecodeError::SecondarySequenceNotFound)
    } else {
        Ok(crt_solution(Seq::new(4, |k: int| sns_loc(rows, k)->0)))
    }
}

/// Rows for the x coordinate: the first bits, column by column.
pub open spec fn x_rows(p: Seq<Seq<Seq<i8>>>) -> Seq<Seq<i8>> {
    Seq::new(6, |r: int| Seq::new(6, |c: int| p[c][r][0]))
}

/// Rows for the y coordinate: the second bits, row by row.
pub open spec fn y_rows(p: Seq<Seq<Seq<i8>>>) -> Seq<Seq<i8>> {
    Seq::new(6, |r: int| Seq::new(6, |c: int| p[r][c][1]))
}

/// Decoded position of a 6x6 patch of bit pairs (`p[row][col][bit]`).
pub open spec fn decode_patch(p: Seq<Seq<Seq<i8>>>) -> Result<(int, int), DecodeError> {
    match decode_rows(x_rows(p)) {
        Err(e) => Err(e),
        Ok(x) => match decode_rows(y_rows(p)) {
            Err(e) => Err(e),
            Ok(y) => Ok((x, y)),
        },
    }
}

/// A patch array as nested sequences.
pub open spec fn patch_view(bits: [[[i8; 2]; 6]; 6]) -> Seq<Seq<Seq<i8>>> {
    Seq::new(6, |r: int| Seq::new(6, |c: int| bits[r][c]@))
}

/// Symbol ranges of the four secondary sequences.
proof fn lemma_sns_range(k: int, i: int)
    requires
        0 <= k < 4,
    ensures
        0 <= sns_at(k, i) < sns_base(k),
{
    lemma_a1_range(i);
    lemma_a2_range(i);
    lemma_a3_range(i);
    lemma_a4_range(i);
}

/// Every rotation step lies between 5 and 58.
proof fn lemma_delta_range(p: int)
    ensures
        5 <= delta_at(p) <= 58,
{
    lemma_sns_range(0, p % 236);
    lemma_sns_range(1, p % 233);
    lemma_sns_range(2, p % 31);
    lemma_sns_range(3, p % 241);
}

/// Symbol `i` of secondary sequence `k`.
fn sns_value(k: usize, i: usize) -> (v: i8)
    requires
        k < 4,
    ensures
        v == sns_at(k as int, i as int),
{
    if k == 0 {
        a1_value(i)
    } else if k == 1 {
        a2_value(i)
    } else if k == 2 {
        a3_value(i)
    } else {
        a4_value(i)
    }
}

/// Secondary sequence `k`.
fn secondary_sequence(k: usize) -> (v: Vec<i8>)
    requires
        k < 4,
    ensures
        v@.len() == sns_len(k as int),
        forall|i: int| 0 <= i < sns_len(k as int) ==> #[trigger] v@[i] == sns_at(k as int, i),
{
    let n: usize = if k == 0 {
        236
    } else if k == 1 {
        233
    } else if k == 2 {
        31
    } else {
        241
    };
    let mut v: Vec<i8> = Vec::new();
    for i in 0..n
        invariant
            k < 4,
            n == sns_len(k as int),
            v@.len() == i,
            forall|j: int| 0 <= j < i ==> #[trigger] v@[j] == sns_at(k as int, j),
    {
        v.push(sns_value(k, i));
    }
    v
}

/// The 6x6 position codec: main and secondary sequences, mixed radix and moduli.
pub struct AnotoCodec {
    mns: [i8; 63],
    mns_cyclic: Vec<i8>,
    sns_lengths: [usize; 4],
    sns_cyclic: [Vec<i8>; 4],
    num_basis: NumberBasis,
    crt: Crt,
    delta_range: (i32, i32),
}

/// A decoding result next to its specification.
pub open spec fn same_coordinate(r: Result<i32, DecodeError>, s: Result<int, DecodeError>) -> bool {
    match r {
        Ok(v) => s == Ok::<int, DecodeError>(v as int),
        Err(e) => s == Err::<int, DecodeError>(e),
    }
}

/// A decoded position next to its specification.
pub open spec fn same_position(r: Result<(i32, i32), DecodeError>, s: Result<(int, int), DecodeError>) -> bool {
    match r {
        Ok((x, y)) => s == Ok::<(int, int), DecodeError>((x as int, y as int)),
        Err(e) => s == Err::<(int, int), DecodeError>(e),
    }
}

impl AnotoCodec {
    #[verifier::type_invariant]
    spec fn wf(&self) -> bool {
        &&& forall|i: int| 0 <= i < 63 ==> #[trigger] self.mns[i] == mns_at(i)
        &&& self.mns_cyclic@ == mns_cyclic_seq()
        &&& forall|k: int| 0 <= k < 4 ==> #[trigger] self.sns_lengths[k] == sns_len(k)
        &&& forall|k: int| 0 <= k < 4 ==> #[trigger] self.sns_cyclic[k]@ == sns_cyclic_seq(k)
        &&& self.num_basis.factors@ == seq![3i64, 3i64, 2i64, 3i64]
        &&& self.crt.moduli@ == seq![236i64, 233i64, 31i64, 241i64]
        &&& self.delta_range == (5i32, 58i32)
    }

    /// The main sequence of the codec.
    pub closed spec fn main_sequence(&self) -> Seq<i8> {
        self.mns@
    }

    /// The main sequence followed by its first five symbols, as the codec searches it.
    pub closed spec fn cyclic_main_sequence(&self) -> Seq<i8> {
        self.mns_cyclic@
    }

    /// The lengths of the four secondary sequences.
    pub closed spec fn secondary_lengths(&self) -> Seq<usize> {
        self.sns_lengths@
    }

    /// Secondary sequence `k` followed by its first four symbols, as the codec searches it.
    pub closed spec fn cyclic_secondary_sequence(&self, k: int) -> Seq<i8> {
        self.sns_cyclic@[k]@
    }

    /// The radices of the mixed-radix digits of a rotation step.
    pub closed spec fn radices(&self) -> Seq<i64> {
        self.num_basis.factors@
    }

    /// The moduli of the Chinese remainder step.
    pub closed spec fn moduli(&self) -> Seq<i64> {
        self.crt.moduli@
    }

    /// The least and the greatest rotation step.
    pub closed spec fn step_range(&self) -> (i32, i32) {
        self.delta_range
    }

    /// The codec of the 6x6 code with the fixed main and secondary sequences.
    #[verifier::spinoff_prover]
    #[verifier::rlimit(40)]
    pub fn anoto_6x6_a4_fixed() -> (c: Self)
        ensures
            c.main_sequence() == Seq::new(63, |i: int| mns_at(i) as i8),
            c.cyclic_main_sequence() == mns_cyclic_seq(),
            c.secondary_lengths() == seq![236usize, 233usize, 31usize, 241usize],
            forall|k: int| 0 <= k < 4 ==> #[trigger] c.cyclic_secondary_sequence(k) == sns_cyclic_seq(k),
            c.radices() == seq![3i64, 3i64, 2i64, 3i64],
            c.moduli() == seq![236i64, 233i64, 31i64, 241i64],
            c.step_range() == (5i32, 58i32),
    {
        let mut mns = [0i8; 63];
        for i in 0..63
            invariant
                forall|j: int| 0 <= j < i ==> #[trigger] mns[j] == mns_at(j),
        {
            mns[i] = mns_value(i);
        }
        let sns_order: usize = 5;
        let mns_order: usize = 6;
        let a1 = secondary_sequence(0);
        let a2 = secondary_sequence(1);
        let a3 = secondary_sequence(2);
        let a4 = secondary_sequence(3);
        let sns_lengths: [usize; 4] = [a1.len(), a2.len(), a3.len(), a4.len()];
        let c1 = make_cyclic(a1.as_slice(), sns_order);
        let c2 = make_cyclic(a2.as_slice(), sns_order);
        let c3 = make_cyclic(a3.as_slice(), sns_order);
        let c4 = make_cyclic(a4.as_slice(), sns_order);
        let mns_cyclic = make_cyclic(mns.as_slice(), mns_order);
        proof {
            assert(c1@ =~= sns_cyclic_seq(0));
            assert(c2@ =~= sns_cyclic_seq(1));
            assert(c3@ =~= sns_cyclic_seq(2));
            assert(c4@ =~= sns_cyclic_seq(3));
            assert(mns_cyclic@ =~= mns_cyclic_seq());
        }
        let sns_cyclic: [Vec<i8>; 4] = [c1, c2, c3, c4];
        let factors = [3i64, 3i64, 2i64, 3i64];
        let num_basis = NumberBasis::new(factors);
        let crt = Crt::new(
            [sns_lengths[0] as i64, sns_lengths[1] as i64, sns_lengths[2] as i64, sns_lengths[3] as i64],
        );
        let c = Self { mns, mns_cyclic, sns_lengths, sns_cyclic, num_basis, crt, delta_range: (5, 58) };
        proof {
            assert(c.main_sequence() =~= Seq::new(63, |i: int| mns_at(i) as i8));
            assert(c.secondary_lengths() =~= seq![236usize, 233usize, 31usize, 241usize]);
            assert(c.radices() =~= seq![3i64, 3i64, 2i64, 3i64]);
            assert(c.moduli() =~= seq![236i64, 233i64, 31i64, 241i64]);
        }
        c
    }

    fn mns_length(&self) -> (r: i32)
        ensures
            r == 63,
    {
        self.mns.len() as i32
    }

    /// Rotation step between position `pos` and position `pos + 1`.
    fn delta(&self, pos: i32) -> (r: i32)
        requires
            pos >= 0,
        ensures
            r == delta_at(pos as int),
    {
        proof {
            use_type_invariant(self);
        }
        let pos_usize = pos as usize;
        let mut coeffs = [0i8; 4];
        for i in 0..4
            invariant
                pos_usize == pos,
                forall|k: int| 0 <= k < 4 ==> #[trigger] self.sns_lengths[k] == sns_len(k),
                forall|k: int| 0 <= k < 4 ==> #[trigger] self.sns_cyclic[k]@ == sns_cyclic_seq(k),
                forall|j: int| 0 <= j < i ==> #[trigger] coeffs[j] == sns_at(j, (pos as int) % sns_len(j)),
        {
            let r = pos_usize % self.sns_lengths[i];
            assert(self.sns_cyclic[i as int]@ == sns_cyclic_seq(i as int));
            coeffs[i] = self.sns_cyclic[i][r];
        }
        proof {
            lemma_sns_range(0, (pos as int) % 236);
            lemma_sns_range(1, (pos as int) % 233);
            lemma_sns_range(2, (pos as int) % 31);
            lemma_sns_range(3, (pos as int) % 241);
            reveal_with_fuel(mixed_value, 5);
            let f = self.num_basis.radix_seq();
            assert(f =~= code_radices());
            assert forall|k: int| 0 <= k < 4 implies 1 <= #[trigger] self.num_basis.factors[k] by {
                assert(self.num_basis.factors[k] == f[k]);
            }
            lemma_code_radices(Seq::new(4, |k: int| coeffs[k] as int), 0);
        }
        let v = self.num_basis.reconstruct(&coeffs);
        (v + self.delta_range.0 as i64) as i32
    }

    /// Sum of the rotation steps of positions `0 .. pos`.
    fn delta_prefix_sum(&self, pos: i32) -> (r: i64)
        ensures
            r == delta_sum(pos as int),
            0 <= r <= 58 * 2147483647,
    {
        let mut r = 0i64;
        let mut i: i32 = 0;
        while i < pos
            invariant
                0 <= i,
                pos > 0 ==> i <= pos,
                pos <= 0 ==> i == 0,
                r == delta_sum(i as int),
                0 <= r <= 58 * i,
            decreases pos - i,
        {
            proof {
                lemma_delta_range(i as int);
            }
            r += self.delta(i) as i64;
            i += 1;
        }
        if pos > 0 {
            assert(i == pos);
        } else {
            assert(delta_sum(pos as int) == 0);
        }
        r
    }

    /// Rotation of the main sequence at position `pos` of a section whose first position
    /// has rotation `first_roll`.
    fn integrate_roll(&self, pos: i32, first_roll: i32) -> (r: i32)
        ensures
            r == roll_at(pos as int, first_roll as int),
    {
        let r = self.delta_prefix_sum(pos);
        let total = first_roll as i64 + r;
        let m = self.mns_length() as i64;
        let rem = total % m;
        proof {
            lemma_trunc_rem_congruent(total as int, 63);
        }
        rem as i32
    }

    /// The main sequence rotated left by `roll`.
    fn rotate_mns_for_roll(&self, roll: i32) -> (out: [i8; 63])
        ensures
            forall|i: int| 0 <= i < 63 ==> #[trigger] out[i] == mns_at((i + roll % 63) % 63),
    {
        proof {
            use_type_invariant(self);
        }
        let len = self.mns.len();
        let t = roll % len as i32;
        let r = (t + len as i32) % len as i32;
        proof {
            lemma_trunc_rem_congruent(roll as int, 63);
            assert(t == trunc_rem(roll as int, 63));
            lemma_mod_multiples_vanish(1, t as int, 63);
            assert(r == (roll as int) % 63);
        }
        let mut out = [0i8; 63];
        for i in 0..len
            invariant
                len == 63,
                0 <= r < 63,
                r == (roll as int) % 63,
                forall|k: int| 0 <= k < 63 ==> #[trigger] self.mns[k] == mns_at(k),
                forall|j: int| 0 <= j < i ==> #[trigger] out[j] == mns_at((j + roll % 63) % 63),
        {
            out[i] = self.mns[(i + r as usize) % len];
        }
        out
    }

    /// Position (x, y) of a 6x6 patch of bit pairs (`bits[row][col][bit]`).
    pub fn decode_position(&self, bits: &[[[i8; 2]; 6]; 6]) -> (r: Result<(i32, i32), DecodeError>)
        ensures
            same_position(r, decode_patch(patch_view(*bits))),
    {
        let ghost p = patch_view(*bits);
        // x-direction uses transpose of channel 0
        let mut x_bits = [[0i8; 6]; 6];
        let mut y_bits = [[0i8; 6]; 6];
        for r in 0..6
            invariant
                p == patch_view(*bits),
                forall|rr: int, c: int|
                    0 <= rr < r && 0 <= c < 6 ==> #[trigger] x_bits[rr][c] == bits[c][rr][0],
                forall|rr: int, c: int|
                    0 <= rr < r && 0 <= c < 6 ==> #[trigger] y_bits[rr][c] == bits[rr][c][1],
        {
            for c in 0..6
                invariant
                    r < 6,
                    forall|rr: int, cc: int|
                        0 <= rr < r && 0 <= cc < 6 ==> #[trigger] x_bits[rr][cc] == bits[cc][rr][0],
                    forall|rr: int, cc: int|
                        0 <= rr < r && 0 <= cc < 6 ==> #[trigger] y_bits[rr][cc] == bits[rr][cc][1],
                    forall|cc: int| 0 <= cc < c ==> #[trigger] x_bits[r as int][cc] == bits[cc][r as int][0],
                    forall|cc: int| 0 <= cc < c ==> #[trigger] y_bits[r as int][cc] == bits[r as int][cc][1],
            {
                x_bits[r][c] = bits[c][r][0];
                y_bits[r][c] = bits[r][c][1];
            }
        }
        assert(Seq::new(6, |r: int| x_bits[r]@) =~= x_rows(p)) by {
            assert forall|r: int| 0 <= r < 6 implies #[trigger] x_bits[r]@ =~= x_rows(p)[r] by {
                assert forall|c: int| 0 <= c < 6 implies x_bits[r]@[c] == x_rows(p)[r][c] by {
                    assert(x_bits[r][c] == bits[c][r][0]);
                }
            }
        }
        assert(Seq::new(6, |r: int| y_bits[r]@) =~= y_rows(p)) by {
            assert forall|r: int| 0 <= r < 6 implies #[trigger] y_bits[r]@ =~= y_rows(p)[r] by {
                assert forall|c: int| 0 <= c < 6 implies y_bits[r]@[c] == y_rows(p)[r][c] by {
                    assert(y_bits[r][c] == bits[r][c][1]);
                }
            }
        }
        let x = match self.decode_along_direction(&x_bits) {
            Ok(v) => v,
            Err(e) => {
                return Err(e);
            },
        };
        let y = match self.decode_along_direction(&y_bits) {
            Ok(v) => v,
            Err(e) => {
                return Err(e);
            },
        };
        Ok((x, y))
    }

    /// Coordinate along one direction of six rows of six bits.
    fn decode_along_direction(&self, bits: &[[i8; 6]; 6]) -> (res: Result<i32, DecodeError>)
        ensures
            same_coordinate(res, decode_rows(Seq::new(6, |r: int| bits[r]@))),
    {
        proof {
            use_type_invariant(self);
        }
        let ghost rows = Seq::new(6, |r: int| bits[r]@);
        let mut locs = [0i32; 6];
        for r in 0..6
            invariant
                rows == Seq::new(6, |r: int| bits[r]@),
                self.mns_cyclic@ == mns_cyclic_seq(),
                forall|rr: int| 0 <= rr < r ==> #[trigger] mns_loc(rows[rr]) == Some(locs[rr] as int),
                forall|rr: int| 0 <= rr < r ==> 0 <= #[trigger] locs[rr] < 63,
        {
            let row = &bits[r];
            let pos = match find_subsequence(self.mns_cyclic.as_slice(), row.as_slice()) {
                Some(p) => p,
                None => {
                    assert(mns_loc(rows[r as int]) is None);
                    return Err(DecodeError::MainSequenceNotFound);
                },
            };
            proof {
                lemma_first_match_from_bound(mns_cyclic_seq(), rows[r as int], 0);
            }
            locs[r] = pos as i32;
        }
        assert(rows_found(rows));
        // differences between consecutive MNS locations
        let mut deltae = [0i64; 5];
        let mns_len = self.mns_length();
        for i in 1..6
            invariant
                rows == Seq::new(6, |r: int| bits[r]@),
                rows_found(rows),
                self.delta_range == (5i32, 58i32),
                mns_len == 63,
                forall|rr: int| 0 <= rr < 6 ==> #[trigger] mns_loc(rows[rr]) == Some(locs[rr] as int),
                forall|rr: int| 0 <= rr < 6 ==> 0 <= #[trigger] locs[rr] < 63,
                forall|ii: int|
                    1 <= ii < i ==> 5 <= #[trigger] row_step(rows, ii) <= 58 && deltae[ii - 1]
                        == row_step(rows, ii) - 5,
        {
            let diff = (locs[i] - locs[i - 1] + mns_len) % mns_len;
            assert(diff == row_step(rows, i as int));
            if diff < self.delta_range.0 || diff > self.delta_range.1 {
                assert(!steps_in_range(rows));
                return Err(DecodeError::DeltaOutOfRange);
            }
            deltae[i - 1] = (diff - self.delta_range.0) as i64;
        }
        assert(steps_in_range(rows));
        assert forall|i: int| 0 <= i < 5 implies #[trigger] deltae[i] >= 0 by {
            assert(5 <= row_step(rows, i + 1) <= 58);
        }
        proof {
            let f = self.num_basis.radix_seq();
            assert(f =~= code_radices());
            assert forall|k: int| 0 <= k < 4 implies 1 <= #[trigger] self.num_basis.factors[k] by {
                assert(self.num_basis.factors[k] == f[k]);
            }
        }
        let coeffs = self.num_basis.project(&deltae);
        proof {
            assert forall|j: int, k: int| 0 <= j < 5 && 0 <= k < 4 implies #[trigger] coeffs[j][k] == mixed_digit(
                deltae[j] as int,
                k,
            ) by {
                lemma_code_radices(Seq::<int>::empty(), deltae[j] as int);
                assert(self.num_basis.radix_seq() =~= code_radices());
                lemma_mixed_digit_small(deltae[j] as int, k);
            }
        }
        let mut remainders = [0i64; 4];
        for i in 0..4
            invariant
                rows == Seq::new(6, |r: int| bits[r]@),
                rows_found(rows),
                steps_in_range(rows),
                forall|k: int| 0 <= k < 4 ==> #[trigger] self.sns_cyclic[k]@ == sns_cyclic_seq(k),
                forall|ii: int| 1 <= ii < 6 ==> #[trigger] deltae[ii - 1] == row_step(rows, ii) - 5,
                forall|j: int, k: int|
                    0 <= j < 5 && 0 <= k < 4 ==> #[trigger] coeffs[j][k] == mixed_digit(
                        deltae[j] as int,
                        k,
                    ),
                forall|k: int| 0 <= k < i ==> #[trigger] sns_loc(rows, k) == Some(remainders[k] as int),
                forall|k: int| 0 <= k < i ==> 0 <= #[trigger] remainders[k] < sns_len(k),
        {
            let mut coeff_seq = [0i8; 5];
            for j in 0..5
                invariant
                    i < 4,
                    forall|jj: int| 0 <= jj < j ==> #[trigger] coeff_seq[jj] == coeffs[jj][i as int],
            {
                coeff_seq[j] = coeffs[j][i];
            }
            assert(coeff_seq@ =~= digit_window(rows, i as int)) by {
                assert forall|j: int| 0 <= j < 5 implies coeff_seq@[j] == digit_window(rows, i as int)[j] by {
                    assert(deltae[j] == row_step(rows, j + 1) - 5);
                    assert(coeff_seq[j] == coeffs[j][i as int]);
                    lemma_mixed_digit_small(row_step(rows, j + 1) - 5, i as int);
                }
            }
            assert(self.sns_cyclic[i as int]@ == sns_cyclic_seq(i as int));
            let p = match find_subsequence(self.sns_cyclic[i].as_slice(), coeff_seq.as_slice()) {
                Some(p) => p,
                None => {
                    assert(sns_loc(rows, i as int) is None);
                    return Err(DecodeError::SecondarySequenceNotFound);
                },
            };
            proof {
                lemma_first_match_from_bound(sns_cyclic_seq(i as int), digit_window(rows, i as int), 0);
            }
            remainders[i] = p as i64;
        }
        assert(digits_found(rows));
        let ghost rem = Seq::new(4, |k: int| remainders[k] as int);
        assert(rem =~= Seq::new(4, |k: int| sns_loc(rows, k)->0));
        proof {
            lemma_codec_moduli_invertible();
            let m = self.crt.moduli_seq();
            assert(m =~= code_moduli());
            assert(moduli_product(m) == crt_product());
            assert forall|k: int| 0 <= k < 4 implies 0 <= #[trigger] remainders[k] < self.crt.moduli[k] by {
                assert(self.crt.moduli[k] == m[k]);
                assert(m[k] == sns_len(k));
            }
            assert forall|k: int| 0 <= k < 4 implies moduli_product(m) * (#[trigger] self.crt.moduli[k] + 1)
                <= i64::MAX by {
                assert(self.crt.moduli[k] == m[k]);
            }
            assert forall|k: int| 0 <= k < 4 implies #[trigger] crt_invertible(m, k) by {}
        }
        match self.crt.solve(remainders) {
            Ok(v) => {
                proof {
                    let m = self.crt.moduli_seq();
                    assert(m =~= code_moduli());
                    assert forall|k: int| 0 <= k < 4 implies #[trigger] ((v as int) % sns_len(k)) == rem[k] % sns_len(
                        k,
                    ) by {
                        assert(self.crt.moduli[k] == sns_len(k));
                        lemma_small_mod(remainders[k] as nat, sns_len(k) as nat);
                    }
                    lemma_is_crt_solution(v as int, rem);
                }
                Ok(v as i32)
            },
            Err(e) => Err(e),
        }
    }

    /// Six bits along one line of the code: the main sequence, rotated as at position
    /// `line_pos`, read from index `other` onwards.
    fn line_bits(&self, line_pos: i32, other: i32, first_roll: i32) -> (out: [i8; 6])
        requires
            other <= i32::MAX - 5,
        ensures
            forall|k: int| 0 <= k < 6 ==> #[trigger] out[k] == line_bit(
                line_pos as int,
                other as int,
                first_roll as int,
                k,
            ),
    {
        let roll = self.integrate_roll(line_pos, first_roll);
        let rolled = self.rotate_mns_for_roll(roll);
        let mut out = [0i8; 6];
        for k in 0..6
            invariant
                other <= i32::MAX - 5,
                roll == roll_at(line_pos as int, first_roll as int),
                forall|i: int| 0 <= i < 63 ==> #[trigger] rolled[i] == mns_at((i + roll % 63) % 63),
                forall|j: int|
                    0 <= j < k ==> #[trigger] out[j] == line_bit(
                        line_pos as int,
                        other as int,
                        first_roll as int,
                        j,
                    ),
        {
            let abs = other + k as i32;
            out[k] = rolled[(abs as usize) % 63];
        }
        out
    }

    /// The 6x6 patch of bit pairs at position `pos` of a section whose first column and
    /// first row have the rotations `section_start_rolls`.
    pub fn encode_patch(&self, pos: (i32, i32), section_start_rolls: (i32, i32)) -> (out: [[[i8; 2]; 6]; 6])
        requires
            pos.0 <= i32::MAX - 5,
            pos.1 <= i32::MAX - 5,
        ensures
            forall|r: int, c: int, ch: int|
                0 <= r < 6 && 0 <= c < 6 && 0 <= ch < 2 ==> #[trigger] out[r][c][ch] == encoded_bit(
                    pos.0 as int,
                    pos.1 as int,
                    (section_start_rolls.0 as int, section_start_rolls.1 as int),
                    r,
                    c,
                    ch,
                ),
    {
        let (x_start, y_start) = pos;
        // channel 0 (x-direction): one line per column
        let mut columns = [[0i8; 6]; 6];
        for c in 0..6
            invariant
                x_start == pos.0,
                y_start == pos.1,
                pos.0 <= i32::MAX - 5,
                pos.1 <= i32::MAX - 5,
                forall|cc: int, k: int|
                    0 <= cc < c && 0 <= k < 6 ==> #[trigger] columns[cc][k] == line_bit(
                        x_start + cc,
                        y_start as int,
                        section_start_rolls.0 as int,
                        k,
                    ),
        {
            let abs_x = x_start + c as i32;
            columns[c] = self.line_bits(abs_x, y_start, section_start_rolls.0);
        }
        // channel 1 (y-direction): one line per row
        let mut rows = [[0i8; 6]; 6];
        for r in 0..6
            invariant
                x_start == pos.0,
                y_start == pos.1,
                pos.0 <= i32::MAX - 5,
                pos.1 <= i32::MAX - 5,
                forall|rr: int, k: int|
                    0 <= rr < r && 0 <= k < 6 ==> #[trigger] rows[rr][k] == line_bit(
                        y_start + rr,
                        x_start as int,
                        section_start_rolls.1 as int,
                        k,
                    ),
        {
            let abs_y = y_start + r as i32;
            rows[r] = self.line_bits(abs_y, x_start, section_start_rolls.1);
        }
        let mut out = [[[0i8; 2]; 6]; 6];
        for r in 0..6
            invariant
                forall|rr: int, c: int|
                    0 <= rr < r && 0 <= c < 6 ==> #[trigger] out[rr][c] == [columns[c][rr], rows[rr][c]],
        {
            for c in 0..6
                invariant
                    r < 6,
                    forall|rr: int, cc: int|
                        0 <= rr < r && 0 <= cc < 6 ==> #[trigger] out[rr][cc] == [columns[cc][rr], rows[rr][cc]],
                    forall|cc: int| 0 <= cc < c ==> #[trigger] out[r as int][cc] == [columns[cc][r as int], rows[r as int][cc]],
            {
                out[r][c] = [columns[c][r], rows[r][c]];
            }
        }
        out
    }
}


// ---------------------------------------------------------------------------
// Decoding inverts encoding
// ---------------------------------------------------------------------------
proof fn lemma_mod_diff(u: int, w: int, m: int)
    requires
        m > 0,
    ensures
        ((u % m) - (w % m) + m) % m == (u - w) % m,
{
    lemma_fundamental_div_mod(u, m);
    lemma_fundamental_div_mod(w, m);
    let k = 1 - u / m + w / m;
    assert((u % m) - (w % m) + m == m * k + (u - w)) by (nonlinear_arith)
        requires
            u == m * (u / m) + u % m,
            w == m * (w / m) + w % m,
            k == 1 - u / m + w / m,
    ;
    lemma_mod_multiples_vanish(k, u - w, m);
}

/// Windows of secondary sequence `k` with the same symbols start at the same position.
proof fn lemma_sns_window_unique(k: int, p: int, q: int)
    requires
        0 <= k < 4,
        0 <= p < sns_len(k),
        0 <= q < sns_len(k),
        forall|j: int| 0 <= j < 5 ==> #[trigger] sns_at(k, (p + j) % sns_len(k)) == sns_at(k, (q + j) % sns_len(k)),
    ensures
        p == q,
{
    if k == 0 {
        assert forall|j: int| 0 <= j < 5 implies #[trigger] a1_at((p + j) % 236) == a1_at((q + j) % 236) by {
            assert(sns_at(k, (p + j) % sns_len(k)) == sns_at(k, (q + j) % sns_len(k)));
        }
        lemma_a1_window_unique(p, q);
    } else if k == 1 {
        assert forall|j: int| 0 <= j < 5 implies #[trigger] a2_at((p + j) % 233) == a2_at((q + j) % 233) by {
            assert(sns_at(k, (p + j) % sns_len(k)) == sns_at(k, (q + j) % sns_len(k)));
        }
        lemma_a2_window_unique(p, q);
    } else if k == 2 {
        assert forall|j: int| 0 <= j < 5 implies #[trigger] a3_at((p + j) % 31) == a3_at((q + j) % 31) by {
            assert(sns_at(k, (p + j) % sns_len(k)) == sns_at(k, (q + j) % sns_len(k)));
        }
        lemma_a3_window_unique(p, q);
    } else {
        assert forall|j: int| 0 <= j < 5 implies #[trigger] a4_at((p + j) % 241) == a4_at((q + j) % 241) by {
            assert(sns_at(k, (p + j) % sns_len(k)) == sns_at(k, (q + j) % sns_len(k)));
        }
        lemma_a4_window_unique(p, q);
    }
}

/// A line of the code is found in the main sequence where its rotation says.
proof fn lemma_line_loc(line_pos: int, b: int, fr: int, row: Seq<i8>)
    requires
        0 <= b,
        b + 5 <= i32::MAX,
        row.len() == 6,
        forall|c: int| 0 <= c < 6 ==> #[trigger] row[c] == line_bit(line_pos, b, fr, c),
    ensures
        mns_loc(row) == Some((b + fr + delta_sum(line_pos)) % 63),
{
    let t = fr + delta_sum(line_pos);
    let roll = roll_at(line_pos, fr);
    let s = (b + t) % 63;
    lemma_trunc_rem_congruent(t, 63);
    assert(roll % 63 == t % 63);
    let h = mns_cyclic_seq();
    assert forall|c: int| 0 <= c < 6 implies #[trigger] row[c] == mns_at((s + c) % 63) as i8 by {
        assert(((b + c) as i32) as usize == b + c);
        lemma_add_mod_noop(b + c, t, 63);
        lemma_add_mod_noop(b + t, c, 63);
        lemma_small_mod(c as nat, 63);
        assert(((b + c) % 63 + roll % 63) % 63 == (s + c) % 63);
    }
    assert(occurs_at(h, row, s)) by {
        assert(h.subrange(s, s + 6) =~= row);
    }
    assert forall|q: int| 0 <= q < s implies !#[trigger] occurs_at(h, row, q) by {
        if occurs_at(h, row, q) {
            assert forall|j: int| 0 <= j < 6 implies #[trigger] mns_at((q + j) % 63) == mns_at((s + j) % 63) by {
                assert(h.subrange(q, q + 6)[j] == row[j]);
                lemma_mns_range((q + j) % 63);
                lemma_mns_range((s + j) % 63);
            }
            lemma_mns_window_unique(q, s);
        }
    }
    lemma_first_match_from_is(h, row, 0, s);
}

/// The rows of one direction of an encoded patch decode to the line position they encode.
proof fn lemma_encoded_rows_decode(rows: Seq<Seq<i8>>, a: int, b: int, fr: int)
    requires
        0 <= a < crt_product(),
        0 <= b < crt_product(),
        rows.len() == 6,
        forall|r: int| 0 <= r < 6 ==> (#[trigger] rows[r]).len() == 6,
        forall|r: int, c: int| 0 <= r < 6 && 0 <= c < 6 ==> #[trigger] rows[r][c] == line_bit(a + r, b, fr, c),
    ensures
        decode_rows(rows) == Ok::<int, DecodeError>(a),
{
    // main sequence locations
    assert forall|r: int| 0 <= r < 6 implies #[trigger] mns_loc(rows[r]) == Some((b + fr + delta_sum(a + r)) % 63) by {
        assert forall|c: int| 0 <= c < 6 implies #[trigger] rows[r][c] == line_bit(a + r, b, fr, c) by {}
        lemma_line_loc(a + r, b, fr, rows[r]);
    }
    assert(rows_found(rows));
    // steps
    assert forall|i: int| 1 <= i < 6 implies #[trigger] row_step(rows, i) == delta_at(a + i - 1) by {
        assert(mns_loc(rows[i]) == Some((b + fr + delta_sum(a + i)) % 63));
        assert(mns_loc(rows[i - 1]) == Some((b + fr + delta_sum(a + i - 1)) % 63));
        lemma_mod_diff(b + fr + delta_sum(a + i), b + fr + delta_sum(a + i - 1), 63);
        assert(delta_sum(a + i) == delta_sum(a + i - 1) + delta_at(a + i - 1));
        lemma_delta_range(a + i - 1);
        lemma_small_mod(delta_at(a + i - 1) as nat, 63);
    }
    assert forall|i: int| 1 <= i < 6 implies 5 <= #[trigger] row_step(rows, i) <= 58 by {
        lemma_delta_range(a + i - 1);
    }
    assert(steps_in_range(rows));
    // secondary sequence locations
    assert forall|k: int| 0 <= k < 4 implies #[trigger] sns_loc(rows, k) == Some(a % sns_len(k)) by {
        let l = sns_len(k);
        let s = a % l;
        let h = sns_cyclic_seq(k);
        let w = digit_window(rows, k);
        assert forall|j: int| 0 <= j < 5 implies #[trigger] w[j] == sns_at(k, (s + j) % l) as i8 by {
            let p = a + j;
            let c = Seq::new(4, |kk: int| sns_at(kk, p % sns_len(kk)));
            assert(row_step(rows, j + 1) == delta_at(p));
            reveal_with_fuel(mixed_value, 5);
            lemma_sns_range(0, p % 236);
            lemma_sns_range(1, p % 233);
            lemma_sns_range(2, p % 31);
            lemma_sns_range(3, p % 241);
            assert(mixed_value(c, 4) == delta_at(p) - 5);
            lemma_mixed_digits_roundtrip(c, k);
            lemma_add_mod_noop(a, j, l);
            lemma_small_mod(j as nat, l as nat);
            lemma_mod_twice(a, l);
        }
        assert(occurs_at(h, w, s)) by {
            assert(h.subrange(s, s + 5) =~= w);
        }
        assert forall|q: int| 0 <= q < s implies !#[trigger] occurs_at(h, w, q) by {
            if occurs_at(h, w, q) {
                assert forall|j: int| 0 <= j < 5 implies #[trigger] sns_at(k, (q + j) % l) == sns_at(k, (s + j) % l) by {
                    assert(h.subrange(q, q + 5)[j] == w[j]);
                    lemma_sns_range(k, (q + j) % l);
                    lemma_sns_range(k, (s + j) % l);
                }
                lemma_sns_window_unique(k, q, s);
            }
        }
        lemma_first_match_from_is(h, w, 0, s);
    }
    assert(digits_found(rows));
    let rem = Seq::new(4, |k: int| sns_loc(rows, k)->0);
    assert forall|k: int| 0 <= k < 4 implies #[trigger] (a % sns_len(k)) == rem[k] % sns_len(k) by {
        lemma_mod_twice(a, sns_len(k));
    }
    lemma_is_crt_solution(a, rem);
}

/// Decoding the patch that encodes a position gives back that position: for every position
/// `(x, y)` with both coordinates in `0 .. crt_product()` and any start rotations.
pub proof fn lemma_encode_decode_roundtrip(x: int, y: int, rolls: (int, int), p: Seq<Seq<Seq<i8>>>)
    requires
        0 <= x < crt_product(),
        0 <= y < crt_product(),
        p.len() == 6,
        forall|r: int| 0 <= r < 6 ==> (#[trigger] p[r]).len() == 6,
        forall|r: int, c: int, ch: int|
            0 <= r < 6 && 0 <= c < 6 && 0 <= ch < 2 ==> #[trigger] p[r][c][ch] == encoded_bit(x, y, rolls, r, c, ch),
    ensures
        decode_patch(p) == Ok::<(int, int), DecodeError>((x, y)),
{
    let xr = x_rows(p);
    let yr = y_rows(p);
    assert forall|r: int, c: int| 0 <= r < 6 && 0 <= c < 6 implies #[trigger] xr[r][c] == line_bit(x + r, y, rolls.0, c) by {
        assert(p[c][r][0] == encoded_bit(x, y, rolls, c, r, 0));
    }
    assert forall|r: int, c: int| 0 <= r < 6 && 0 <= c < 6 implies #[trigger] yr[r][c] == line_bit(y + r, x, rolls.1, c) by {
        assert(p[r][c][1] == encoded_bit(x, y, rolls, r, c, 1));
    }
    lemma_encoded_rows_decode(xr, x, y, rolls.0);
    lemma_encoded_rows_decode(yr, y, x, rolls.1);
}


// ---------------------------------------------------------------------------
// Decoding every window of a minified arrow grid
// ---------------------------------------------------------------------------
/// A decoded 6x6 window: its top-left cell in the grid and the position it encodes.
#[derive(Debug, Clone, Copy, PartialEq, Eq, Hash)]
pub struct DecodedWindow {
    pub window_row: usize,
    pub window_col: usize,
    pub x: i32,
    pub y: i32,
}

/// Bits of a cell: those of its first character, if that is an arrow.
pub open spec fn cell_bits(cell: Seq<char>) -> Option<(i8, i8)> {
    match first_char(cell) {
        Some(ch) => arrow_bits(ch),
        None => None,
    }
}

/// Every cell of the 6x6 window at `(r0, c0)` exists and carries bits.
pub open spec fn patch_cells_ok(g: Seq<Seq<Seq<char>>>, r0: int, c0: int) -> bool {
    forall|r: int, c: int|
        0 <= r < 6 && 0 <= c < 6 ==> {
            &&& r0 + r < g.len()
            &&& c0 + c < g[r0 + r].len()
            &&& #[trigger] cell_bits(g[r0 + r][c0 + c]) is Some
        }
}

/// The bit patch of the 6x6 window at `(r0, c0)`, when every cell carries bits.
pub open spec fn patch_at(g: Seq<Seq<Seq<char>>>, r0: int, c0: int) -> Option<Seq<Seq<Seq<i8>>>> {
    if patch_cells_ok(g, r0, c0) {
        Some(
            Seq::new(
                6,
                |r: int|
                    Seq::new(
                        6,
                        |c: int|
                            {
                                let b = cell_bits(g[r0 + r][c0 + c])->0;
                                seq![b.0, b.1]
                            },
                    ),
            ),
        )
    } else {
        None
    }
}

/// The position the 6x6 window at `(r0, c0)` encodes, if it decodes.
pub open spec fn window_position(g: Seq<Seq<Seq<char>>>, r0: int, c0: int) -> Option<(int, int)> {
    match patch_at(g, r0, c0) {
        Some(p) => match decode_patch(p) {
            Ok(xy) => Some(xy),
            Err(_) => None,
        },
        None => None,
    }
}

/// The decoded windows among the first `n` windows, in row-major order, of a grid with
/// `span` window positions per row.
pub open spec fn decoded_prefix(g: Seq<Seq<Seq<char>>>, span: int, n: int) -> Seq<DecodedWindow>
    decreases n,
{
    if n <= 0 || span <= 0 {
        Seq::empty()
    } else {
        let prev = decoded_prefix(g, span, n - 1);
        let r0 = (n - 1) / span;
        let c0 = (n - 1) % span;
        match window_position(g, r0, c0) {
            Some(xy) => prev.push(
                DecodedWindow {
                    window_row: r0 as usize,
                    window_col: c0 as usize,
                    x: xy.0 as i32,
                    y: xy.1 as i32,
                },
            ),
            None => prev,
        }
    }
}

/// Every decodable 6x6 window of a rectangular grid of at least 6x6 cells, in row-major order.
pub open spec fn decoded_windows(g: Seq<Seq<Seq<char>>>) -> Seq<DecodedWindow> {
    if is_rectangular(g) && g.len() >= 6 && g[0].len() >= 6 {
        decoded_prefix(g, g[0].len() - 5, (g.len() - 5) * (g[0].len() - 5))
    } else {
        Seq::empty()
    }
}

/// Windows come in strictly increasing (row, column) order.
pub open spec fn windows_sorted(s: Seq<DecodedWindow>) -> bool {
    forall|i: int, j: int|
        0 <= i < j < s.len() ==> (#[trigger] s[i]).window_row < (#[trigger] s[j]).window_row || (
        s[i].window_row == s[j].window_row && s[i].window_col < s[j].window_col)
}

proof fn lemma_decoded_prefix_sorted(g: Seq<Seq<Seq<char>>>, span: int, n: int)
    requires
        span > 0,
        span <= usize::MAX,
        n <= span * usize::MAX,
    ensures
        windows_sorted(decoded_prefix(g, span, n)),
        forall|i: int|
            0 <= i < decoded_prefix(g, span, n).len() ==> {
                let d = #[trigger] decoded_prefix(g, span, n)[i];
                &&& (d.window_col as int) < span
                &&& d.window_row * span + d.window_col < n
            },
    decreases n,
{
    if n > 0 {
        lemma_decoded_prefix_sorted(g, span, n - 1);
        let prev = decoded_prefix(g, span, n - 1);
        let r0 = (n - 1) / span;
        let c0 = (n - 1) % span;
        lemma_fundamental_div_mod(n - 1, span);
        assert(r0 < usize::MAX) by (nonlinear_arith)
            requires
                n - 1 == span * r0 + c0,
                c0 >= 0,
                n <= span * usize::MAX,
                span > 0,
        ;
        if window_position(g, r0, c0) is Some {
            let cur = decoded_prefix(g, span, n);
            assert forall|i: int| 0 <= i < prev.len() implies (#[trigger] prev[i]).window_row < r0 || (
            prev[i].window_row == r0 && prev[i].window_col < c0) by {
                let d = prev[i];
                if d.window_row > r0 {
                    assert(d.window_row * span >= (r0 + 1) * span) by (nonlinear_arith)
                        requires
                            d.window_row >= r0 + 1,
                            span > 0,
                    ;
                    assert(r0 * span + span == (r0 + 1) * span) by (nonlinear_arith);
                    assert(r0 * span == span * r0) by (nonlinear_arith);
                }
                if d.window_row == r0 {
                    assert(d.window_row * span == span * r0) by (nonlinear_arith)
                        requires
                            d.window_row == r0,
                    ;
                }
            }
            assert forall|i: int| 0 <= i < cur.len() implies {
                let d = #[trigger] cur[i];
                &&& (d.window_col as int) < span
                &&& d.window_row * span + d.window_col < n
            } by {
                if i == cur.len() - 1 {
                    assert(cur[i].window_row == r0 && cur[i].window_col == c0);
                    assert(r0 * span == span * r0) by (nonlinear_arith);
                } else {
                    assert(cur[i] == prev[i]);
                }
            }
        }
    }
}

/// The bit patch of the 6x6 window whose top-left cell is `(row0, col0)`: `None` when a cell
/// is missing or its first character is not an arrow.
fn patch_from_arrows(grid: &[Vec<String>], row0: usize, col0: usize) -> (r: Option<[[[i8; 2]; 6]; 6]>)
    requires
        row0 <= usize::MAX - 6,
        col0 <= usize::MAX - 6,
    ensures
        r matches Some(out) ==> patch_at(grid.deep_view(), row0 as int, col0 as int) == Some(
            patch_view(out),
        ),
        r is None ==> patch_at(grid.deep_view(), row0 as int, col0 as int) is None,
{
    let ghost g = grid.deep_view();
    let mut out = [[[0i8; 2]; 6]; 6];
    for r in 0..6
        invariant
            row0 <= usize::MAX - 6,
            col0 <= usize::MAX - 6,
            g == grid.deep_view(),
            forall|rr: int, c: int|
                0 <= rr < r && 0 <= c < 6 ==> {
                    &&& row0 + rr < g.len()
                    &&& col0 + c < g[row0 + rr].len()
                    &&& #[trigger] cell_bits(g[row0 + rr][col0 + c]) == Some(
                        (out[rr][c][0], out[rr][c][1]),
                    )
                },
    {
        for c in 0..6
            invariant
                row0 <= usize::MAX - 6,
                col0 <= usize::MAX - 6,
                r < 6,
                g == grid.deep_view(),
                forall|rr: int, cc: int|
                    0 <= rr < r && 0 <= cc < 6 ==> {
                        &&& row0 + rr < g.len()
                        &&& col0 + cc < g[row0 + rr].len()
                        &&& #[trigger] cell_bits(g[row0 + rr][col0 + cc]) == Some(
                            (out[rr][cc][0], out[rr][cc][1]),
                        )
                    },
                forall|cc: int|
                    0 <= cc < c ==> {
                        &&& row0 + r < g.len()
                        &&& col0 + cc < g[row0 + r].len()
                        &&& #[trigger] cell_bits(g[row0 + r][col0 + cc]) == Some(
                            (out[r as int][cc][0], out[r as int][cc][1]),
                        )
                    },
        {
            if row0 + r >= grid.len() {
                assert(!patch_cells_ok(g, row0 as int, col0 as int));
                return None;
            }
            let row = &grid[row0 + r];
            assert(g[row0 + r] == row.deep_view());
            if col0 + c >= row.len() {
                assert(!patch_cells_ok(g, row0 as int, col0 as int));
                return None;
            }
            let s = &row[col0 + c];
            assert(g[row0 + r][col0 + c] == s@);
            let ch = match cell_first_char(s) {
                Some(ch) => ch,
                None => {
                    assert(cell_bits(g[row0 + r][col0 + c]) is None);
                    assert(!patch_cells_ok(g, row0 as int, col0 as int));
                    return None;
                },
            };
            let (b0, b1) = match arrow_to_bits(ch) {
                Some(b) => b,
                None => {
                    assert(cell_bits(g[row0 + r][col0 + c]) is None);
                    assert(!patch_cells_ok(g, row0 as int, col0 as int));
                    return None;
                },
            };
            out[r][c] = [b0, b1];
        }
    }
    assert(patch_cells_ok(g, row0 as int, col0 as int));
    assert(patch_at(g, row0 as int, col0 as int)->0 =~= patch_view(out)) by {
        let pa = patch_at(g, row0 as int, col0 as int)->0;
        assert forall|r: int| 0 <= r < 6 implies #[trigger] pa[r] =~= patch_view(out)[r] by {
            assert forall|c: int| 0 <= c < 6 implies #[trigger] pa[r][c] =~= patch_view(out)[r][c] by {
                assert(cell_bits(g[row0 + r][col0 + c]) == Some((out[r][c][0], out[r][c][1])));
            }
        }
    }
    Some(out)
}

/// Decode every valid 6x6 window in the minified arrow grid.
///
/// Cells must be one of: `↑`, `↓`, `←`, `→` (only the first character of a cell is read).
/// The grid must be rectangular, non-empty and at least 6x6; otherwise nothing is decoded.
/// Windows come in row-major order of their top-left cell, each at most once.
pub fn decode_all_windows_from_minified_arrows(minified: &[Vec<String>]) -> (out: Vec<DecodedWindow>)
    ensures
        out@ == decoded_windows(minified.deep_view()),
        windows_sorted(out@),
{
    let ghost g = minified.deep_view();
    let h = minified.len();
    if h == 0 {
        return Vec::new();
    }
    let w = minified[0].len();
    let mut rect = true;
    let mut i: usize = 0;
    while i < h
        invariant
            h == minified@.len(),
            g == minified.deep_view(),
            w == g[0].len(),
            i <= h,
            rect == (forall|r: int| 0 <= r < i ==> (#[trigger] g[r]).len() == w),
        decreases h - i,
    {
        assert(g[i as int].len() == minified@[i as int]@.len());
        if minified[i].len() != w {
            rect = false;
        }
        i += 1;
    }
    if w == 0 || !rect {
        return Vec::new();
    }
    if h < 6 || w < 6 {
        return Vec::new();
    }
    assert(is_rectangular(g));
    let codec = AnotoCodec::anoto_6x6_a4_fixed();
    let mut out: Vec<DecodedWindow> = Vec::new();
    let ghost span = (w - 5) as int;
    assert(0 * span == 0);
    for r0 in 0..h - 5
        invariant
            h == g.len(),
            w == g[0].len(),
            h >= 6,
            w >= 6,
            span == w - 5,
            g == minified.deep_view(),
            out@ == decoded_prefix(g, span, r0 * span),
    {
        for c0 in 0..w - 5
            invariant
                h == g.len(),
                w == g[0].len(),
                h >= 6,
                w >= 6,
                r0 < h - 5,
                span == w - 5,
                g == minified.deep_view(),
                out@ == decoded_prefix(g, span, r0 * span + c0),
        {
            let ghost n = r0 * span + c0 + 1;
            proof {
                lemma_fundamental_div_mod_converse(n - 1, span, r0 as int, c0 as int);
            }
            let patch = patch_from_arrows(minified, r0, c0);
            match patch {
                Some(patch) => {
                    let decoded = codec.decode_position(&patch);
                    match decoded {
                        Ok((x, y)) => {
                            out.push(DecodedWindow { window_row: r0, window_col: c0, x, y });
                        },
                        Err(_) => {},
                    }
                },
                None => {},
            }
            assert(out@ == decoded_prefix(g, span, n));
        }
        assert((r0 + 1) * span == r0 * span + span) by (nonlinear_arith);
    }
    proof {
        assert((h - 5) * span == (g.len() - 5) * (g[0].len() - 5));
        assert((h - 5) * span <= span * usize::MAX) by (nonlinear_arith)
            requires
                span == w - 5,
                h >= 6,
                w >= 6,
                h <= usize::MAX,
        ;
        lemma_decoded_prefix_sorted(g, span, (h - 5) * span);
    }
    out
}

// ---------------------------------------------------------------------------
// Laws of window decoding
// ---------------------------------------------------------------------------
/// Which windows of the first `n` are listed: exactly those that decode, each with its position.
proof fn lemma_prefix_contains(g: Seq<Seq<Seq<char>>>, span: int, n: int, d: DecodedWindow)
    requires
        0 < span <= usize::MAX,
        0 <= n <= span * usize::MAX,
    ensures
        decoded_prefix(g, span, n).contains(d) <==> ((d.window_col as int) < span && d.window_row * span
            + d.window_col < n && (window_position(g, d.window_row as int, d.window_col as int) matches Some(
            xy) && d.x == xy.0 as i32 && d.y == xy.1 as i32)),
    decreases n,
{
    if n > 0 {
        lemma_prefix_contains(g, span, n - 1, d);
        let prev = decoded_prefix(g, span, n - 1);
        let r0 = (n - 1) / span;
        let c0 = (n - 1) % span;
        lemma_fundamental_div_mod(n - 1, span);
        assert(0 <= r0 < usize::MAX) by (nonlinear_arith)
            requires
                n - 1 == span * r0 + c0,
                0 <= c0 < span,
                0 <= n - 1,
                n <= span * usize::MAX,
                span > 0,
        ;
        assert(span * r0 == r0 * span) by (nonlinear_arith);
        if (d.window_col as int) < span && d.window_row * span + d.window_col == n - 1 {
            lemma_fundamental_div_mod_converse(n - 1, span, d.window_row as int, d.window_col as int);
            assert(d.window_row == r0 && d.window_col == c0);
        }
        if d.window_row == r0 && d.window_col == c0 {
            assert(d.window_row * span + d.window_col == n - 1);
        }
        match window_position(g, r0, c0) {
            Some(xy) => {
                let new = DecodedWindow {
                    window_row: r0 as usize,
                    window_col: c0 as usize,
                    x: xy.0 as i32,
                    y: xy.1 as i32,
                };
                let cur = prev.push(new);
                assert(decoded_prefix(g, span, n) == cur);
                if cur.contains(d) {
                    let k = choose|k: int| 0 <= k < cur.len() && cur[k] == d;
                    if k < prev.len() {
                        assert(prev[k] == d);
                    }
                }
                if prev.contains(d) {
                    let k = choose|k: int| 0 <= k < prev.len() && prev[k] == d;
                    assert(cur[k] == d);
                }
                if d.window_row == r0 && d.window_col == c0 && d.x == new.x && d.y == new.y {
                    assert(d == new);
                    assert(cur[prev.len() as int] == d);
                }
            },
            None => {
                assert(decoded_prefix(g, span, n) == prev);
            },
        }
    }
}

/// The windows listed for a grid are exactly its decodable 6x6 windows, each with the position
/// it encodes; nothing else is listed.
pub proof fn lemma_decoded_windows_contains(g: Seq<Seq<Seq<char>>>, d: DecodedWindow)
    requires
        is_rectangular(g),
        g.len() >= 6,
        g[0].len() >= 6,
        g.len() <= usize::MAX,
        g[0].len() <= usize::MAX,
    ensures
        decoded_windows(g).contains(d) <==> (d.window_row <= g.len() - 6 && d.window_col <= g[0].len() - 6 && (
        window_position(g, d.window_row as int, d.window_col as int) matches Some(xy) && d.x == xy.0 as i32
            && d.y == xy.1 as i32)),
{
    let h = g.len() as int;
    let span = g[0].len() - 5;
    assert((h - 5) * span <= span * usize::MAX) by (nonlinear_arith)
        requires
            span >= 1,
            5 <= h <= usize::MAX,
    ;
    lemma_prefix_contains(g, span, (h - 5) * span, d);
    let r = d.window_row as int;
    let c = d.window_col as int;
    if c < span {
        assert(r * span + c < (h - 5) * span <==> r < h - 5) by (nonlinear_arith)
            requires
                0 <= c < span,
                r >= 0,
        ;
    }
}

/// A window that lies inside a grid decodes to the same position inside the grid as on its own.
pub proof fn lemma_window_position_alone(g: Seq<Seq<Seq<char>>>, r0: int, c0: int)
    requires
        is_rectangular(g),
        0 <= r0 <= g.len() - 6,
        0 <= c0 <= g[0].len() - 6,
    ensures
        window_position(subgrid(g, r0, c0, 6, 6), 0, 0) == window_position(g, r0, c0),
        decoded_windows(subgrid(g, r0, c0, 6, 6)) == (match window_position(g, r0, c0) {
            Some(xy) => seq![DecodedWindow { window_row: 0, window_col: 0, x: xy.0 as i32, y: xy.1 as i32 }],
            None => Seq::<DecodedWindow>::empty(),
        }),
{
    let sub = subgrid(g, r0, c0, 6, 6);
    assert forall|r: int, c: int| 0 <= r < 6 && 0 <= c < 6 implies #[trigger] sub[r][c] == g[r0 + r][c0 + c] && sub[r].len()
        == 6 && c0 + c < g[r0 + r].len() by {
        assert(g[r0 + r].len() == g[0].len());
    }
    if patch_cells_ok(g, r0, c0) {
        assert forall|r: int, c: int| 0 <= r < 6 && 0 <= c < 6 implies {
            &&& 0 + r < sub.len()
            &&& 0 + c < sub[0 + r].len()
            &&& #[trigger] cell_bits(sub[0 + r][0 + c]) is Some
        } by {
            assert(sub[r][c] == g[r0 + r][c0 + c]);
            assert(cell_bits(g[r0 + r][c0 + c]) is Some);
        }
    }
    if patch_cells_ok(sub, 0, 0) {
        assert forall|r: int, c: int| 0 <= r < 6 && 0 <= c < 6 implies {
            &&& r0 + r < g.len()
            &&& c0 + c < g[r0 + r].len()
            &&& #[trigger] cell_bits(g[r0 + r][c0 + c]) is Some
        } by {
            assert(sub[r][c] == g[r0 + r][c0 + c]);
            assert(cell_bits(sub[0 + r][0 + c]) is Some);
        }
    }
    assert(patch_cells_ok(sub, 0, 0) == patch_cells_ok(g, r0, c0));
    if patch_cells_ok(g, r0, c0) {
        let ps = patch_at(sub, 0, 0)->0;
        let pg = patch_at(g, r0, c0)->0;
        assert forall|r: int| 0 <= r < 6 implies #[trigger] ps[r] == pg[r] by {
            assert forall|c: int| 0 <= c < 6 implies #[trigger] ps[r][c] == pg[r][c] by {
                assert(sub[0 + r][0 + c] == g[r0 + r][c0 + c]);
            }
            assert(ps[r] =~= pg[r]);
        }
        assert(ps =~= pg);
    }
    assert(patch_at(sub, 0, 0) == patch_at(g, r0, c0));
    assert(is_rectangular(sub)) by {
        assert forall|r: int| 0 <= r < sub.len() implies (#[trigger] sub[r]).len() == sub[0].len() by {
            assert(g[r0 + r].len() == g[0].len());
            assert(g[r0].len() == g[0].len());
        }
    }
    assert(sub.len() == 6 && sub[0].len() == 6) by {
        assert(g[r0].len() == g[0].len());
    }
    reveal_with_fuel(decoded_prefix, 2);
    assert(decoded_windows(sub) == decoded_prefix(sub, 1, 1));
}

/// A window decodes to `(x, y)` inside a grid exactly when, cut out on its own, it is the one
/// window and decodes to `(x, y)`.
pub proof fn lemma_window_decodes_alone(g: Seq<Seq<Seq<char>>>, r0: int, c0: int, x: i32, y: i32)
    requires
        is_rectangular(g),
        g.len() <= usize::MAX,
        g[0].len() <= usize::MAX,
        0 <= r0 <= g.len() - 6,
        0 <= c0 <= g[0].len() - 6,
    ensures
        decoded_windows(g).contains(DecodedWindow { window_row: r0 as usize, window_col: c0 as usize, x, y })
            <==> decoded_windows(subgrid(g, r0, c0, 6, 6)) == seq![
            DecodedWindow { window_row: 0, window_col: 0, x, y },
        ],
{
    let d = DecodedWindow { window_row: r0 as usize, window_col: c0 as usize, x, y };
    lemma_decoded_windows_contains(g, d);
    lemma_window_position_alone(g, r0, c0);
    let single = seq![DecodedWindow { window_row: 0, window_col: 0, x, y }];
    if decoded_windows(subgrid(g, r0, c0, 6, 6)) == single {
        assert(decoded_windows(subgrid(g, r0, c0, 6, 6))[0] == single[0]);
    }
}

/// The arrow that carries the bits `(b0, b1)`.
pub open spec fn bits_arrow(b0: i8, b1: i8) -> char {
    if b0 == 0 && b1 == 0 {
        '↑'
    } else if b0 == 1 && b1 == 0 {
        '←'
    } else if b0 == 0 && b1 == 1 {
        '→'
    } else {
        '↓'
    }
}

/// The 6x6 arrow grid of the patch that encodes the position `(x, y)` with the start rotations
/// `rolls`: one arrow per cell, carrying the cell's two bits.
pub open spec fn encoded_arrow_grid(x: int, y: int, rolls: (int, int)) -> Seq<Seq<Seq<char>>> {
    Seq::new(
        6,
        |r: int| Seq::new(6, |c: int| seq![bits_arrow(encoded_bit(x, y, rolls, r, c, 0), encoded_bit(x, y, rolls, r, c, 1))]),
    )
}

/// Every encoded bit is 0 or 1.
proof fn lemma_encoded_bit_range(x: int, y: int, rolls: (int, int), r: int, c: int, ch: int)
    ensures
        encoded_bit(x, y, rolls, r, c, ch) == 0 || encoded_bit(x, y, rolls, r, c, ch) == 1,
{
    if ch == 0 {
        lemma_mns_range(((((y + r) as i32) as usize) % 63 + roll_at(x + c, rolls.0) % 63) % 63);
    } else {
        lemma_mns_range(((((x + c) as i32) as usize) % 63 + roll_at(y + r, rolls.1) % 63) % 63);
    }
}

/// Writing the patch of a position as arrows and decoding the arrow grid gives the position
/// back: the grid's one window decodes to `(x, y)`.
pub proof fn lemma_arrow_grid_roundtrip(x: int, y: int, rolls: (int, int))
    requires
        0 <= x < crt_product(),
        0 <= y < crt_product(),
    ensures
        decoded_windows(encoded_arrow_grid(x, y, rolls)) == seq![
            DecodedWindow { window_row: 0, window_col: 0, x: x as i32, y: y as i32 },
        ],
{
    let g = encoded_arrow_grid(x, y, rolls);
    assert forall|r: int, c: int| 0 <= r < 6 && 0 <= c < 6 implies #[trigger] cell_bits(g[r][c]) == Some(
        (encoded_bit(x, y, rolls, r, c, 0), encoded_bit(x, y, rolls, r, c, 1)),
    ) by {
        lemma_encoded_bit_range(x, y, rolls, r, c, 0);
        lemma_encoded_bit_range(x, y, rolls, r, c, 1);
        assert(first_char(g[r][c]) == Some(g[r][c][0]));
    }
    assert(patch_cells_ok(g, 0, 0));
    let p = patch_at(g, 0, 0)->0;
    assert forall|r: int| 0 <= r < 6 implies (#[trigger] p[r]).len() == 6 by {}
    assert forall|r: int, c: int, ch: int| 0 <= r < 6 && 0 <= c < 6 && 0 <= ch < 2 implies #[trigger] p[r][c][ch]
        == encoded_bit(x, y, rolls, r, c, ch) by {
        assert(cell_bits(g[r][c]) == Some((encoded_bit(x, y, rolls, r, c, 0), encoded_bit(x, y, rolls, r, c, 1))));
    }
    lemma_encode_decode_roundtrip(x, y, rolls, p);
    assert(window_position(g, 0, 0) == Some((x, y)));
    assert(is_rectangular(g));
    reveal_with_fuel(decoded_prefix, 2);
    assert(decoded_windows(g) == decoded_prefix(g, 1, 1));
}

} // verus!
