//! Numbers in decimal.

use vstd::prelude::*;

verus! {

/// The digit of `d`, which is less than ten.
pub open spec fn digit(d: nat) -> char {
    (d + '0' as nat) as char
}

/// The decimal digits of `n`.
pub open spec fn digits(n: nat) -> Seq<char>
    decreases n,
{
    if n < 10 {
        seq![digit(n)]
    } else {
        digits(n / 10).push(digit(n % 10))
    }
}

/// The decimal form of `n`.
pub open spec fn decimal(n: int) -> Seq<char> {
    if n < 0 {
        seq!['-'] + digits((-n) as nat)
    } else {
        digits(n as nat)
    }
}

/// Appends the decimal digits of `n` to `out`.
pub fn push_u64(out: &mut String, n: u64)
    ensures
        final(out)@ == old(out)@ + decimal(n as int),
    decreases n,
{
    if n >= 10 {
        push_u64(out, n / 10);
    }
    let d: u8 = (n % 10) as u8;
    out.push((0x30 + d) as char);
    assert(out@ =~= old(out)@ + digits(n as nat));
}

/// Appends the decimal form of `n` to `out`.
pub fn push_i32(out: &mut String, n: i32)
    ensures
        final(out)@ == old(out)@ + decimal(n as int),
{
    if n < 0 {
        out.push('-');
        push_u64(out, (-(n as i64)) as u64);
    } else {
        push_u64(out, n as u64);
    }
    assert(out@ =~= old(out)@ + decimal(n as int));
}

/// How a number is written: one digit where it is less than ten, otherwise the digits of its
/// tens and then its ones, and a minus sign before the digits of a negative one.
pub proof fn law_decimal(n: nat, d: nat)
    requires
        d < 10,
    ensures
        decimal(d as int) == seq![(0x30 + d) as char],
        n > 0 ==> decimal((10 * n + d) as int) == decimal(n as int).push((0x30 + d) as char),
        n > 0 ==> decimal(-n) == seq!['-'] + decimal(n as int),
{
    assert((10 * n + d) / 10 == n);
    assert((10 * n + d) % 10 == d);
}

} // verus!
