//! Decimal text of integers: writing them and reading them back.
use vstd::prelude::*;

use crate::cells::char_to_string;

verus! {

/// The character of a decimal digit.
pub open spec fn digit_char(d: int) -> char {
    (48 + d) as char
}

/// The decimal digits of `n`, without leading zeros (`"0"` for zero).
pub open spec fn decimal(n: nat) -> Seq<char>
    decreases n,
{
    if n < 10 {
        seq![digit_char(n as int)]
    } else {
        decimal(n / 10).push(digit_char((n % 10) as int))
    }
}

/// The decimal text of an integer, with a leading `-` when it is negative.
pub open spec fn signed_decimal(n: int) -> Seq<char> {
    if n < 0 {
        seq!['-'] + decimal((-n) as nat)
    } else {
        decimal(n as nat)
    }
}

fn digit(d: u64) -> (c: char)
    requires
        d < 10,
    ensures
        c == digit_char(d as int),
        '0' <= c <= '9',
{
    let b: u8 = 48 + (d as u8);
    b as char
}

/// The decimal text of `n`.
pub fn decimal_string(n: u64) -> (s: String)
    ensures
        s@ == decimal(n as nat),
{
    let mut m = n;
    let mut ds: Vec<char> = Vec::new();
    while m >= 10
        invariant
            decimal(n as nat) == decimal(m as nat) + ds@.reverse(),
        decreases m,
    {
        let ghost before = ds@;
        ds.push(digit(m % 10));
        assert(ds@.reverse() =~= seq![digit_char((m % 10) as int)] + before.reverse());
        assert(decimal(m as nat) == decimal((m / 10) as nat).push(digit_char((m % 10) as int)));
        assert(decimal(m as nat) + before.reverse() =~= decimal((m / 10) as nat) + ds@.reverse());
        m = m / 10;
    }
    let mut s = char_to_string(digit(m));
    assert(s@ == decimal(m as nat));
    let mut i = ds.len();
    while i > 0
        invariant
            i <= ds@.len(),
            decimal(n as nat) == decimal(m as nat) + ds@.reverse(),
            s@ == decimal(m as nat) + ds@.reverse().take(ds@.len() - i),
        decreases i,
    {
        i -= 1;
        let ghost before = s@;
        let t = char_to_string(ds[i]);
        s.append(t.as_str());
        assert(ds@.reverse()[ds@.len() - 1 - i] == ds@[i as int]);
        assert(ds@.reverse().take(ds@.len() - i) =~= ds@.reverse().take(ds@.len() - 1 - i).push(ds@[i as int]));
        assert(s@ =~= decimal(m as nat) + ds@.reverse().take(ds@.len() - i));
    }
    assert(ds@.reverse().take(ds@.len() as int) =~= ds@.reverse());
    s
}

/// The decimal text of `n`, with a leading `-` when it is negative.
pub fn signed_decimal_string(n: i64) -> (s: String)
    ensures
        s@ == signed_decimal(n as int),
{
    if n < 0 {
        let m: u64 = if n == i64::MIN {
            9223372036854775808u64
        } else {
            (-n) as u64
        };
        let digits = decimal_string(m);
        let mut s = char_to_string('-');
        s.append(digits.as_str());
        s
    } else {
        decimal_string(n as u64)
    }
}

/// The value of a sequence of decimal digits.
pub open spec fn digits_value(d: Seq<char>) -> int
    decreases d.len(),
{
    if d.len() == 0 {
        0
    } else {
        10 * digits_value(d.drop_last()) + (d.last() as int - 48)
    }
}

/// Every character is an ASCII decimal digit.
pub open spec fn all_digits(d: Seq<char>) -> bool {
    forall|i: int| 0 <= i < d.len() ==> '0' <= #[trigger] d[i] <= '9'
}

/// What reading an integer of the range `lo ..= hi` from text gives, the way `str::parse` does
/// for Rust's integer types: an optional `+` (or `-` when `lo < 0`) and at least one digit,
/// nothing else, and a value in the range.
pub open spec fn parse_in_range(s: Seq<char>, lo: int, hi: int) -> Option<int> {
    let neg = lo < 0 && s.len() > 1 && s[0] == '-';
    let d = if s.len() > 1 && (s[0] == '+' || neg) {
        s.drop_first()
    } else {
        s
    };
    let v = if neg {
        -digits_value(d)
    } else {
        digits_value(d)
    };
    if d.len() == 0 || !all_digits(d) || v < lo || v > hi {
        None
    } else {
        Some(v)
    }
}

proof fn lemma_digits_value_grows(d: Seq<char>, k: int)
    requires
        all_digits(d),
        0 <= k <= d.len(),
    ensures
        0 <= digits_value(d.take(k)) <= digits_value(d),
    decreases d.len() - k,
{
    if k < d.len() {
        lemma_digits_value_grows(d, k + 1);
        assert(d.take(k + 1).drop_last() =~= d.take(k));
        assert(d.take(k + 1).last() == d[k]);
    } else {
        assert(d.take(k) =~= d);
        lemma_digits_value_nonneg(d);
    }
}

proof fn lemma_digits_value_nonneg(d: Seq<char>)
    requires
        all_digits(d),
    ensures
        0 <= digits_value(d),
    decreases d.len(),
{
    if d.len() > 0 {
        lemma_digits_value_nonneg(d.drop_last());
    }
}

/// The value of the digits of `d` when all are digits and it is at most `bound`.
fn digits_upto(d: &Vec<char>, start: usize, bound: u64) -> (r: Option<u64>)
    requires
        start <= d@.len(),
        bound >= 9,
    ensures
        r matches Some(v) ==> all_digits(d@.skip(start as int)) && v == digits_value(d@.skip(start as int))
            && v <= bound,
        r is None ==> !all_digits(d@.skip(start as int)) || digits_value(d@.skip(start as int)) > bound,
{
    let ghost ds = d@.skip(start as int);
    let mut acc: u64 = 0;
    let mut i = start;
    while i < d.len()
        invariant
            ds == d@.skip(start as int),
            start <= i <= d@.len(),
            all_digits(ds.take(i - start)),
            acc == digits_value(ds.take(i - start)),
            acc <= bound,
            bound >= 9,
        decreases d.len() - i,
    {
        let c = d[i];
        assert(ds[i - start] == c);
        if c < '0' || c > '9' {
            assert(!all_digits(ds));
            return None;
        }
        let dv = (c as u32 - 48) as u64;
        assert(ds.take(i + 1 - start).drop_last() =~= ds.take(i - start));
        if acc > (bound - dv) / 10 {
            proof {
                assert(ds.take(i + 1 - start) == ds.take(i - start).push(c));
                assert(10 * acc + dv > bound) by (nonlinear_arith)
                    requires
                        acc > (bound - dv) / 10,
                        dv <= 9,
                        bound >= 9,
                ;
                if all_digits(ds) {
                    lemma_digits_value_grows(ds, i + 1 - start);
                }
            }
            return None;
        }
        acc = 10 * acc + dv;
        i += 1;
    }
    assert(ds.take(i - start) =~= ds);
    Some(acc)
}

/// Reads an unsigned integer from the characters `cs` as `str::parse::<usize>` does.
pub fn parse_usize(cs: &Vec<char>) -> (r: Option<usize>)
    ensures
        r matches Some(v) ==> parse_in_range(cs@, 0, usize::MAX as int) == Some(v as int),
        r is None ==> parse_in_range(cs@, 0, usize::MAX as int) is None,
{
    let ghost s = cs@;
    let n = cs.len();
    let start: usize = if n > 1 && cs[0] == '+' {
        1
    } else {
        0
    };
    assert(cs@.skip(start as int) =~= (if s.len() > 1 && s[0] == '+' {
        s.drop_first()
    } else {
        s
    }));
    if start == n {
        return None;
    }
    match digits_upto(&cs, start, usize::MAX as u64) {
        Some(v) => Some(v as usize),
        None => None,
    }
}

/// Reads an unsigned 16-bit integer from the characters `cs` as `str::parse::<u16>` does.
pub fn parse_u16(cs: &Vec<char>) -> (r: Option<u16>)
    ensures
        r matches Some(v) ==> parse_in_range(cs@, 0, u16::MAX as int) == Some(v as int),
        r is None ==> parse_in_range(cs@, 0, u16::MAX as int) is None,
{
    let ghost s = cs@;
    let n = cs.len();
    let start: usize = if n > 1 && cs[0] == '+' {
        1
    } else {
        0
    };
    assert(cs@.skip(start as int) =~= (if s.len() > 1 && s[0] == '+' {
        s.drop_first()
    } else {
        s
    }));
    if start == n {
        return None;
    }
    match digits_upto(&cs, start, u16::MAX as u64) {
        Some(v) => Some(v as u16),
        None => None,
    }
}

/// Reads a 32-bit signed integer from the characters `cs` as `str::parse::<i32>` does.
pub fn parse_i32(cs: &Vec<char>) -> (r: Option<i32>)
    ensures
        r matches Some(v) ==> parse_in_range(cs@, i32::MIN as int, i32::MAX as int) == Some(v as int),
        r is None ==> parse_in_range(cs@, i32::MIN as int, i32::MAX as int) is None,
{
    let ghost s = cs@;
    let n = cs.len();
    let neg = n > 1 && cs[0] == '-';
    let start: usize = if n > 1 && (cs[0] == '+' || neg) {
        1
    } else {
        0
    };
    assert(cs@.skip(start as int) =~= (if s.len() > 1 && (s[0] == '+' || (i32::MIN < 0 && s.len() > 1 && s[0]
        == '-')) {
        s.drop_first()
    } else {
        s
    }));
    if start == n {
        return None;
    }
    let bound: u64 = if neg {
        2147483648
    } else {
        2147483647
    };
    match digits_upto(&cs, start, bound) {
        Some(v) => {
            if neg {
                Some((-(v as i64)) as i32)
            } else {
                Some(v as i32)
            }
        },
        None => None,
    }
}

/// The decimal text of `n` is a non-empty run of digits whose value is `n`.
pub proof fn lemma_decimal_digits(n: nat)
    ensures
        decimal(n).len() >= 1,
        all_digits(decimal(n)),
        digits_value(decimal(n)) == n,
    decreases n,
{
    assert(digit_char((n % 10) as int) as int == 48 + n % 10);
    if n >= 10 {
        lemma_decimal_digits(n / 10);
        let d = decimal(n);
        assert(d.drop_last() =~= decimal(n / 10));
        assert forall|i: int| 0 <= i < d.len() implies '0' <= #[trigger] d[i] <= '9' by {
            if i < d.len() - 1 {
                assert(d[i] == decimal(n / 10)[i]);
            }
        }
        assert(digits_value(d) == 10 * digits_value(decimal(n / 10)) + (d.last() as int - 48));
    } else {
        assert(decimal(n).drop_last() =~= Seq::<char>::empty());
        assert(digits_value(decimal(n)) == 10 * digits_value(Seq::<char>::empty()) + (decimal(n).last() as int
            - 48));
    }
}

/// Reading back the decimal text of an integer of a range that holds 0 gives the integer.
pub proof fn lemma_parse_signed_decimal(n: int, lo: int, hi: int)
    requires
        lo <= 0,
        lo <= n <= hi,
    ensures
        parse_in_range(signed_decimal(n), lo, hi) == Some(n),
{
    if n < 0 {
        let m = (-n) as nat;
        lemma_decimal_digits(m);
        let s = signed_decimal(n);
        assert(s.drop_first() =~= decimal(m));
    } else {
        lemma_decimal_digits(n as nat);
        let s = decimal(n as nat);
        assert('0' <= s[0] <= '9');
    }
}

} // verus!
