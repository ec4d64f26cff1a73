//! Decimal rendering of integers, as characters and as ASCII bytes.

use vstd::prelude::*;

verus! {

/// The character of a decimal digit.
pub open spec fn digit_char(d: nat) -> char {
    if d == 0 {
        '0'
    } else if d == 1 {
        '1'
    } else if d == 2 {
        '2'
    } else if d == 3 {
        '3'
    } else if d == 4 {
        '4'
    } else if d == 5 {
        '5'
    } else if d == 6 {
        '6'
    } else if d == 7 {
        '7'
    } else if d == 8 {
        '8'
    } else {
        '9'
    }
}

/// Decimal digits of `n`, most significant first, without leading zeros.
pub open spec fn decimal(n: nat) -> Seq<char>
    decreases n,
{
    if n < 10 {
        seq![digit_char(n)]
    } else {
        decimal(n / 10).push(digit_char(n % 10))
    }
}

/// Decimal digits of `x`, with a leading minus sign when `x` is negative.
pub open spec fn signed_decimal(x: int) -> Seq<char> {
    if x < 0 {
        seq!['-'] + decimal((-x) as nat)
    } else {
        decimal(x as nat)
    }
}

/// ASCII codes of the decimal digits of `n`.
pub open spec fn decimal_bytes(n: nat) -> Seq<u8>
    decreases n,
{
    if n < 10 {
        seq![(48 + n) as u8]
    } else {
        decimal_bytes(n / 10).push((48 + n % 10) as u8)
    }
}

/// ASCII codes of the decimal rendering of `x`, with a leading `-` (45) when
/// `x` is negative.
pub open spec fn signed_decimal_bytes(x: int) -> Seq<u8> {
    if x < 0 {
        seq![45u8] + decimal_bytes((-x) as nat)
    } else {
        decimal_bytes(x as nat)
    }
}

fn push_digit(out: &mut String, d: u8)
    requires
        d < 10,
    ensures
        final(out)@ == old(out)@.push(digit_char(d as nat)),
{
    proof {
        reveal_strlit("0");
        reveal_strlit("1");
        reveal_strlit("2");
        reveal_strlit("3");
        reveal_strlit("4");
        reveal_strlit("5");
        reveal_strlit("6");
        reveal_strlit("7");
        reveal_strlit("8");
        reveal_strlit("9");
    }
    let lit: &str = if d == 0 {
        "0"
    } else if d == 1 {
        "1"
    } else if d == 2 {
        "2"
    } else if d == 3 {
        "3"
    } else if d == 4 {
        "4"
    } else if d == 5 {
        "5"
    } else if d == 6 {
        "6"
    } else if d == 7 {
        "7"
    } else if d == 8 {
        "8"
    } else {
        "9"
    };
    assert(lit@ =~= seq![digit_char(d as nat)]);
    out.append(lit);
    assert(out@ =~= old(out)@.push(digit_char(d as nat)));
}

/// Appends the decimal digits of `n` to `out`.
pub fn push_decimal(out: &mut String, n: u64)
    ensures
        final(out)@ == old(out)@ + decimal(n as nat),
    decreases n,
{
    if n >= 10 {
        push_decimal(out, n / 10);
    }
    push_digit(out, (n % 10) as u8);
    assert(out@ =~= old(out)@ + decimal(n as nat));
}

/// Appends the decimal rendering of `x` to `out`.
pub fn push_signed_decimal(out: &mut String, x: i64)
    ensures
        final(out)@ == old(out)@ + signed_decimal(x as int),
{
    if x < 0 {
        proof {
            reveal_strlit("-");
        }
        out.append("-");
        let magnitude: u64 = (-(x + 1)) as u64 + 1;
        push_decimal(out, magnitude);
        assert(out@ =~= old(out)@ + signed_decimal(x as int));
    } else {
        push_decimal(out, x as u64);
    }
}

/// Appends the ASCII decimal digits of `n` to `out`.
pub fn push_decimal_bytes(out: &mut Vec<u8>, n: u64)
    ensures
        final(out)@ == old(out)@ + decimal_bytes(n as nat),
    decreases n,
{
    if n >= 10 {
        push_decimal_bytes(out, n / 10);
    }
    out.push(48 + (n % 10) as u8);
    assert(out@ =~= old(out)@ + decimal_bytes(n as nat));
}

/// Appends the ASCII decimal rendering of `x` to `out`.
pub fn push_signed_decimal_bytes(out: &mut Vec<u8>, x: i64)
    ensures
        final(out)@ == old(out)@ + signed_decimal_bytes(x as int),
{
    if x < 0 {
        out.push(45u8);
        let magnitude: u64 = (-(x + 1)) as u64 + 1;
        push_decimal_bytes(out, magnitude);
        assert(out@ =~= old(out)@ + signed_decimal_bytes(x as int));
    } else {
        push_decimal_bytes(out, x as u64);
    }
}

} // verus!
