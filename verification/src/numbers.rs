use vstd::prelude::*;

use crate::chars::digit_value;
use crate::chars::is_ascii_digit_char;
use crate::chars::push_char;

verus! {

/// The number denoted by a run of decimal digits, most significant first.
pub open spec fn spec_digits_value(ds: Seq<char>) -> nat
    decreases ds.len(),
{
    if ds.len() == 0 {
        0
    } else {
        spec_digits_value(ds.drop_last()) * 10 + digit_value(ds.last())
    }
}

/// The integer denoted by an optional minus sign and decimal digits.
pub open spec fn spec_int_literal_value(lit: Seq<char>) -> int {
    if lit.len() > 0 && lit[0] == '-' {
        -(spec_digits_value(lit.drop_first()) as int)
    } else {
        spec_digits_value(lit) as int
    }
}

/// A digit run is worth at least any of its prefixes.
pub proof fn lemma_digits_value_prefix(ds: Seq<char>, k: int)
    requires
        0 <= k <= ds.len(),
    ensures
        spec_digits_value(ds.take(k)) <= spec_digits_value(ds),
    decreases ds.len() - k,
{
    if k == ds.len() {
        assert(ds.take(k) =~= ds);
    } else {
        assert(ds.take(k + 1).drop_last() =~= ds.take(k));
        assert(spec_digits_value(ds.take(k + 1)) == spec_digits_value(ds.take(k)) * 10
            + digit_value(ds.take(k + 1).last()));
        lemma_digits_value_prefix(ds, k + 1);
    }
}

/// Converts an integer literal (optional minus sign, then decimal digits)
/// to an `i64`; `None` exactly when the value does not fit.
pub fn i64_from_int_literal(lit: &str) -> (r: Option<i64>)
    requires
        lit@.len() > 0,
        lit@[0] == '-' ==> lit@.len() > 1,
        forall|i: int|
            (if lit@[0] == '-' { 1int } else { 0int }) <= i < lit@.len()
                ==> is_ascii_digit_char(#[trigger] lit@[i]),
    ensures
        r is Some == (i64::MIN <= spec_int_literal_value(lit@) <= i64::MAX),
        (r matches Some(v) ==> v as int == spec_int_literal_value(lit@)),
{
    let n = lit.unicode_len();
    let neg = lit.get_char(0) == '-';
    let start: usize = if neg { 1 } else { 0 };
    let ghost ds = lit@.skip(start as int);
    proof {
        if neg {
            assert(ds =~= lit@.drop_first());
        } else {
            assert(ds =~= lit@);
        }
    }
    let mut mag: u64 = 0;
    let mut i: usize = start;
    while i < n
        invariant
            start <= i <= n,
            n == lit@.len(),
            start == (if lit@[0] == '-' { 1int } else { 0int }),
            ds == lit@.skip(start as int),
            forall|k: int| start <= k < lit@.len() ==> is_ascii_digit_char(#[trigger] lit@[k]),
            mag == spec_digits_value(ds.take(i - start)),
        decreases n - i,
    {
        let c = lit.get_char(i);
        assert(is_ascii_digit_char(c));
        let d: u64 = (c as u32 - 0x30) as u64;
        let ghost prefix = ds.take(i - start);
        let ghost prefix1 = ds.take(i + 1 - start);
        proof {
            assert(prefix1.drop_last() =~= prefix);
            assert(prefix1.last() == c);
            assert(spec_digits_value(prefix1) == mag * 10 + digit_value(c));
        }
        let m10 = match mag.checked_mul(10) {
            Some(x) => x,
            None => {
                proof {
                    assert(spec_digits_value(prefix1) > u64::MAX);
                    lemma_digits_value_prefix(ds, i + 1 - start);
                    if lit@[0] == '-' {
                        assert(ds =~= lit@.drop_first());
                    } else {
                        assert(ds =~= lit@);
                    }
                }
                return None;
            },
        };
        mag = match m10.checked_add(d) {
            Some(x) => x,
            None => {
                proof {
                    assert(spec_digits_value(prefix1) > u64::MAX);
                    lemma_digits_value_prefix(ds, i + 1 - start);
                    if lit@[0] == '-' {
                        assert(ds =~= lit@.drop_first());
                    } else {
                        assert(ds =~= lit@);
                    }
                }
                return None;
            },
        };
        i = i + 1;
    }
    proof {
        assert(ds.take(n - start) =~= ds);
    }
    if neg {
        if mag > 0x8000_0000_0000_0000u64 {
            None
        } else if mag == 0x8000_0000_0000_0000u64 {
            Some(i64::MIN)
        } else {
            Some(-(mag as i64))
        }
    } else {
        if mag > 0x7FFF_FFFF_FFFF_FFFFu64 {
            None
        } else {
            Some(mag as i64)
        }
    }
}

/// The compact decimal rendering of a natural number.
pub open spec fn spec_nat_digits(n: nat) -> Seq<char>
    decreases n,
{
    if n < 10 {
        seq![spec_digit_char(n)]
    } else {
        spec_nat_digits(n / 10) + seq![spec_digit_char(n % 10)]
    }
}

/// The decimal digit character for a value below ten.
pub open spec fn spec_digit_char(d: nat) -> char {
    ((0x30 + d) as u32) as char
}

/// The compact decimal rendering of a 64-bit signed integer: a minus sign
/// for a negative value, then the digits of its magnitude.
pub open spec fn spec_i64_str(n: int) -> Seq<char> {
    if n < 0 {
        seq!['-'] + spec_nat_digits((-n) as nat)
    } else {
        spec_nat_digits(n as nat)
    }
}

/// The decimal digit character at runtime.
fn digit_char(d: u64) -> (c: char)
    requires
        d < 10,
    ensures
        c == spec_digit_char(d as nat),
{
    let r: char = if d == 0 {
        '0'
    } else if d == 1 {
        '1'
    } else if d == 2 {
        '2'
    } else if d == 3 {
        '3'
    } else if d == 4 {
        '4'
    } else if d == 5 {
        '5'
    } else if d == 6 {
        '6'
    } else if d == 7 {
        '7'
    } else if d == 8 {
        '8'
    } else {
        '9'
    };
    proof {
        vstd::utf8::char_u32_cast(r, (0x30 + d) as u32);
    }
    r
}

/// Appends the decimal digits of `m`.
pub fn push_u64_decimal(out: &mut String, m: u64)
    ensures
        final(out)@ == old(out)@ + spec_nat_digits(m as nat),
    decreases m,
{
    if m >= 10 {
        push_u64_decimal(out, m / 10);
    }
    push_char(out, digit_char(m % 10));
    proof {
        if m < 10 {
            assert(old(out)@.push(spec_digit_char(m as nat)) =~= old(out)@ + spec_nat_digits(
                m as nat,
            ));
        } else {
            assert((old(out)@ + spec_nat_digits((m / 10) as nat)).push(
                spec_digit_char((m % 10) as nat),
            ) =~= old(out)@ + spec_nat_digits(m as nat));
        }
    }
}

/// Appends the decimal rendering of `n`.
pub fn push_i64_decimal(out: &mut String, n: i64)
    ensures
        final(out)@ == old(out)@ + spec_i64_str(n as int),
{
    if n < 0 {
        push_char(out, '-');
        let mag: u64 = if n == i64::MIN {
            0x8000_0000_0000_0000u64
        } else {
            (-n) as u64
        };
        push_u64_decimal(out, mag);
        proof {
            assert(old(out)@.push('-') + spec_nat_digits(mag as nat) =~= old(out)@ + spec_i64_str(
                n as int,
            ));
        }
    } else {
        push_u64_decimal(out, n as u64);
    }
}

} // verus!
