//! Decimal rendering of integers and the one `String` operation that vstd does
//! not specify.
use vstd::prelude::*;

verus! {

/// `String::push` appends one `char` to the end of the string.
pub assume_specification[ std::string::String::push ](s: &mut std::string::String, ch: std::primitive::char)
    ensures
        final(s)@ == old(s)@.push(ch),
;

/// `char::from_u32` gives the `char` with the given code, or `None` where the
/// code is a surrogate or above the last code point.
pub assume_specification[ std::char::from_u32 ](i: u32) -> (r: Option<std::primitive::char>)
    ensures
        r == (if i <= 0xD7FF || (0xE000 <= i && i <= 0x10FFFF) {
            Some(i as std::primitive::char)
        } else {
            None::<std::primitive::char>
        }),
;

/// A `String` holding the characters of `cs`.
pub fn chars_to_string(cs: &Vec<std::primitive::char>) -> (s: String)
    ensures
        s@ == cs@,
{
    let mut s = String::new();
    let mut k: usize = 0;
    while k < cs.len()
        invariant
            k <= cs.len(),
            s@ == cs@.take(k as int),
        decreases cs.len() - k,
    {
        s.push(cs[k]);
        assert(cs@.take(k + 1) =~= cs@.take(k as int).push(cs@[k as int]));
        k = k + 1;
    }
    assert(cs@.take(cs.len() as int) =~= cs@);
    s
}

/// The decimal digit character for `d < 10`.
pub open spec fn digit_char(d: nat) -> char {
    if d == 0 { '0' } else if d == 1 { '1' } else if d == 2 { '2' } else if d == 3 { '3' }
    else if d == 4 { '4' } else if d == 5 { '5' } else if d == 6 { '6' } else if d == 7 { '7' }
    else if d == 8 { '8' } else { '9' }
}

/// The decimal representation of `n`, most significant digit first, without
/// leading zeros (`0` is written as a single `'0'`).
pub open spec fn decimal(n: nat) -> Seq<char>
    decreases n,
{
    if n < 10 {
        seq![digit_char(n)]
    } else {
        decimal(n / 10).push(digit_char(n % 10))
    }
}

fn digit_of(d: usize) -> (c: char)
    requires
        d < 10,
    ensures
        c == digit_char(d as nat),
{
    if d == 0 { '0' } else if d == 1 { '1' } else if d == 2 { '2' } else if d == 3 { '3' }
    else if d == 4 { '4' } else if d == 5 { '5' } else if d == 6 { '6' } else if d == 7 { '7' }
    else if d == 8 { '8' } else { '9' }
}

/// Renders `n` in decimal.
pub fn usize_to_decimal(n: usize) -> (s: String)
    ensures
        s@ == decimal(n as nat),
{
    // collect the digits least significant first
    let mut digits: Vec<char> = Vec::new();
    let mut m: usize = n;
    while m >= 10
        invariant
            m <= n,
            decimal(n as nat) == decimal(m as nat) + digits@.reverse(),
        decreases m,
    {
        let c = digit_of(m % 10);
        proof {
            let old_digits = digits@;
            assert(decimal(m as nat) == decimal((m / 10) as nat).push(c));
            assert(old_digits.push(c).reverse() =~= seq![c] + old_digits.reverse());
        }
        digits.push(c);
        m = m / 10;
    }
    let c = digit_of(m);
    proof {
        let old_digits = digits@;
        assert(old_digits.push(c).reverse() =~= seq![c] + old_digits.reverse());
    }
    digits.push(c);
    let mut s = String::new();
    let mut i: usize = digits.len();
    while i > 0
        invariant
            i <= digits.len(),
            s@ == digits@.subrange(i as int, digits.len() as int).reverse(),
            decimal(n as nat) == digits@.reverse(),
        decreases i,
    {
        i = i - 1;
        let c = digits[i];
        proof {
            assert(digits@.subrange(i as int, digits.len() as int).reverse() =~= digits@.subrange(
                i + 1,
                digits.len() as int,
            ).reverse().push(c));
        }
        s.push(c);
    }
    assert(digits@.subrange(0, digits.len() as int) =~= digits@);
    s
}

/// The value of a decimal digit character.
pub open spec fn digit_value(c: char) -> nat {
    (c as u32 - '0' as u32) as nat
}

/// The number that the decimal digits `ds` write, most significant first.
pub open spec fn decimal_value(ds: Seq<char>) -> nat
    decreases ds.len(),
{
    if ds.len() == 0 {
        0
    } else {
        decimal_value(ds.drop_last()) * 10 + digit_value(ds.last())
    }
}

/// Every character of `ds` is a decimal digit.
pub open spec fn all_digits(ds: Seq<char>) -> bool {
    forall|k: int| 0 <= k < ds.len() ==> '0' <= #[trigger] ds[k] <= '9'
}

/// The decimal representation of `n` is a numeral that reads back as `n`:
/// it is not empty, it is made of digits, it starts with `0` only when it
/// is `0`, and its value is `n`.
pub proof fn lemma_decimal_reads_back(n: nat)
    ensures
        decimal(n).len() > 0,
        all_digits(decimal(n)),
        decimal(n)[0] == '0' ==> n == 0,
        decimal_value(decimal(n)) == n,
    decreases n,
{
    if n < 10 {
        assert(decimal(n) == seq![digit_char(n)]);
        assert(decimal(n).drop_last() =~= Seq::<char>::empty());
        assert(digit_value(digit_char(n)) == n);
        assert(decimal_value(decimal(n)) == decimal_value(Seq::<char>::empty()) * 10 + digit_value(digit_char(n)));
    } else {
        let q = n / 10;
        let d = n % 10;
        lemma_decimal_reads_back(q);
        let t = decimal(q).push(digit_char(d));
        assert(decimal(n) == t);
        assert(t.drop_last() =~= decimal(q));
        assert(digit_value(digit_char(d)) == d);
        assert(q * 10 + d == n) by (nonlinear_arith)
            requires
                q == n / 10,
                d == n % 10,
        ;
        assert(q > 0);
        assert(t[0] == decimal(q)[0]);
        assert(t.last() == digit_char(d));
        assert(decimal_value(t) == decimal_value(decimal(q)) * 10 + digit_value(digit_char(d)));
    }
}

} // verus!
