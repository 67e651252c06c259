//! Numbers written out as ASCII text, as they appear in a node's identity.
use vstd::prelude::*;

verus! {

/// The ASCII code of the digit `0`.
pub const DIGIT_ZERO: u8 = 48;

/// The ASCII code of the letter `a`.
pub const LETTER_A: u8 = 97;

/// The ASCII code of the full stop.
pub const DOT: u8 = 46;

/// The ASCII code of the colon.
pub const COLON: u8 = 58;

/// The ASCII decimal digits of `n`, without leading zeros.
pub open spec fn decimal(n: nat) -> Seq<u8>
    decreases n,
{
    if n < 10 {
        seq![(DIGIT_ZERO + n) as u8]
    } else {
        decimal(n / 10).push((DIGIT_ZERO + n % 10) as u8)
    }
}

/// The ASCII digit for a value below sixteen, letters in lower case.
pub open spec fn hex_digit(d: nat) -> u8 {
    if d < 10 {
        (DIGIT_ZERO + d) as u8
    } else {
        (LETTER_A + d - 10) as u8
    }
}

/// The ASCII hexadecimal digits of `n`, lower case, without leading zeros.
pub open spec fn hex(n: nat) -> Seq<u8>
    decreases n,
{
    if n < 16 {
        seq![hex_digit(n)]
    } else {
        hex(n / 16).push(hex_digit(n % 16))
    }
}

/// Appends the decimal digits of `n` to `out`.
pub fn push_decimal(out: &mut Vec<u8>, n: u16)
    ensures
        final(out)@ == old(out)@ + decimal(n as nat),
    decreases n,
{
    if n >= 10 {
        push_decimal(out, n / 10);
    }
    out.push(DIGIT_ZERO + (n % 10) as u8);
}

/// Appends the lower-case hexadecimal digits of `n` to `out`.
pub fn push_hex(out: &mut Vec<u8>, n: u16)
    ensures
        final(out)@ == old(out)@ + hex(n as nat),
    decreases n,
{
    if n >= 16 {
        push_hex(out, n / 16);
    }
    let d: u8 = (n % 16) as u8;
    out.push(if d < 10 { DIGIT_ZERO + d } else { LETTER_A + (d - 10) });
}

} // verus!
