//! Greatest common divisors, modular inverses and the Chinese remainder theorem,
//! as the position decoder needs them.
use vstd::arithmetic::div_mod::*;
use vstd::prelude::*;

verus! {

/// Greatest common divisor by Euclid's algorithm (for non-negative arguments).
pub open spec fn spec_gcd(a: int, b: int) -> int
    decreases a,
{
    if a <= 0 {
        b
    } else {
        spec_gcd(b % a, a)
    }
}

/// The result `(g, x, y)` of the extended Euclidean recursion on non-negative `a` and `b`.
pub open spec fn ext_gcd(a: int, b: int) -> (int, int, int)
    decreases a,
{
    if a <= 0 || b < 0 {
        (b, 0, 1)
    } else {
        let (g, x1, y1) = ext_gcd(b % a, a);
        (g, y1 - (b / a) * x1, x1)
    }
}

/// The inverse of `a` modulo `m` that the extended Euclidean recursion gives, in `0 .. m`.
pub open spec fn inverse_mod(a: int, m: int) -> int {
    ext_gcd(a, m).1 % m
}

/// Remainder of Rust's `%` on signed integers: it takes the sign of the dividend.
pub open spec fn trunc_rem(a: int, m: int) -> int {
    if a >= 0 {
        a % m
    } else {
        -((-a) % m)
    }
}

/// The truncated remainder is congruent to the dividend.
pub proof fn lemma_trunc_rem_congruent(a: int, m: int)
    requires
        m > 0,
    ensures
        trunc_rem(a, m) % m == a % m,
        -m < trunc_rem(a, m) < m,
{
    if a < 0 {
        let r = (-a) % m;
        lemma_fundamental_div_mod(-a, m);
        let q = (-a) / m;
        assert(-a == m * q + r);
        assert(a == m * (-q) + (-r)) by (nonlinear_arith)
            requires
                -a == m * q + r,
        ;
        lemma_mod_multiples_vanish(-q, -r, m);
        assert(a % m == (-r) % m);
        assert(trunc_rem(a, m) == -r);
    } else {
        lemma_mod_twice(a, m);
    }
}

/// Extended Euclid: returns `(g, x, y)` with `g` the greatest common divisor of `a` and `b`
/// and `a * x + b * y == g`.
pub fn extended_gcd(a: i64, b: i64) -> (r: (i64, i64, i64))
    requires
        a >= 0,
        b >= 0,
    ensures
        (r.0 as int, r.1 as int, r.2 as int) == ext_gcd(a as int, b as int),
        r.0 == spec_gcd(a as int, b as int),
        a * r.1 + b * r.2 == r.0,
        a == 0 ==> r.1 == 0 && r.2 == 1,
        a > 0 ==> -(if b > 1 { b as int } else { 1 }) <= r.1 <= (if b > 1 { b as int } else { 1 }),
        a > 0 ==> -a <= r.2 <= a,
    decreases a,
{
    if a == 0 {
        return (b, 0, 1);
    }
    let (gcd, x1, y1) = extended_gcd(b % a, a);
    let q = b / a;
    proof {
        lemma_fundamental_div_mod(b as int, a as int);
        assert(0 <= q * a <= b) by (nonlinear_arith)
            requires
                q == b / a,
                a > 0,
                b >= 0,
                b == a * (b / a) + b % a,
                b % a >= 0,
        ;
        if b % a > 0 {
            assert(-a <= x1 <= a);
            assert(-(q * a) <= q * x1 <= q * a) by (nonlinear_arith)
                requires
                    -a <= x1 <= a,
                    q >= 0,
            ;
        } else {
            assert(x1 == 0);
            assert(q * x1 == 0) by (nonlinear_arith)
                requires
                    x1 == 0,
            ;
        }
    }
    let x = y1 - q * x1;
    let y = x1;
    proof {
        let r = b % a;
        assert(r * x1 + a * y1 == gcd);
        assert(a * x + b * y == gcd) by (nonlinear_arith)
            requires
                r * x1 + a * y1 == gcd,
                b == a * q + r,
                x == y1 - q * x1,
                y == x1,
        ;
    }
    (gcd, x, y)
}

/// Inverse of `a` modulo `m`: fails exactly when `a` and `m` have a common factor.
pub fn mod_inverse(a: i64, m: i64) -> (r: Result<i64, String>)
    requires
        a >= 0,
        m > 0,
    ensures
        r is Ok <==> spec_gcd(a as int, m as int) == 1,
        r matches Ok(v) ==> v == inverse_mod(a as int, m as int) && 0 <= v < m && (a * v) % (m as int) == 1int
            % (m as int),
        r matches Err(e) ==> e@ == "modular inverse does not exist"@,
{
    let (gcd, x, y) = extended_gcd(a, m);
    if gcd != 1 {
        return Err(String::from_str("modular inverse does not exist"));
    }
    let t = x % m;
    let v = if t < 0 { t + m } else { t };
    proof {
        lemma_trunc_rem_congruent(x as int, m as int);
        assert(t == trunc_rem(x as int, m as int));
        if t < 0 {
            lemma_mod_multiples_vanish(1, t as int, m as int);
        }
        lemma_small_mod(v as nat, m as nat);
        assert(v == (x as int) % (m as int));
        lemma_mul_mod_noop_right(a as int, x as int, m as int);
        assert(a * x == m * (-y) + 1) by (nonlinear_arith)
            requires
                a * x + m * y == 1,
        ;
        lemma_mod_multiples_vanish(-y as int, 1, m as int);
    }
    Ok(v)
}

} // verus!
