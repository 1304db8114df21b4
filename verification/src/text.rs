//! Text building for names and log messages: appending characters and the
//! decimal rendering of integers, specified character by character.

use vstd::prelude::*;

verus! {

/// The character for one decimal digit.
pub open spec fn digit_char(d: int) -> char {
    (48 + d) as char
}

/// Decimal digits of a non-negative integer, most significant first.
pub open spec fn dec_nat(n: nat) -> Seq<char>
    decreases n,
{
    if n < 10 {
        seq![digit_char(n as int)]
    } else {
        dec_nat(n / 10).push(digit_char((n % 10) as int))
    }
}

/// Decimal rendering of an integer, with a leading minus sign if negative.
pub open spec fn dec_int(n: int) -> Seq<char> {
    if n < 0 {
        seq!['-'] + dec_nat((-n) as nat)
    } else {
        dec_nat(n as nat)
    }
}

/// Relies on `String::push` of std: appends the given character to the end
/// of the string.
#[verifier::external_body]
pub fn push_char(s: &mut String, c: char)
    ensures
        final(s)@ == old(s)@.push(c),
{
    s.push(c);
}

fn digit_to_char(d: u32) -> (c: char)
    requires
        d < 10,
    ensures
        c == digit_char(d as int),
{
    (48 + d as u8) as char
}

/// Appends the decimal digits of `m` to `s`.
fn push_dec_u64(s: &mut String, m: u64)
    ensures
        final(s)@ == old(s)@ + dec_nat(m as nat),
    decreases m,
{
    if m >= 10 {
        push_dec_u64(s, m / 10);
    }
    let c = digit_to_char((m % 10) as u32);
    push_char(s, c);
    proof {
        if m >= 10 {
            assert(dec_nat(m as nat) == dec_nat((m as nat) / 10).push(
                digit_char(((m as nat) % 10) as int),
            ));
            assert(s@ =~= old(s)@ + dec_nat(m as nat));
        } else {
            assert(dec_nat(m as nat) == seq![digit_char(m as int)]);
            assert(s@ =~= old(s)@ + dec_nat(m as nat));
        }
    }
}

/// Appends the decimal rendering of `n` to `s`.
pub fn push_dec_i64(s: &mut String, n: i64)
    ensures
        final(s)@ == old(s)@ + dec_int(n as int),
{
    if n < 0 {
        push_char(s, '-');
        let m: u64 = (-(n as i128)) as u64;
        push_dec_u64(s, m);
        proof {
            assert(s@ =~= old(s)@ + dec_int(n as int));
        }
    } else {
        push_dec_u64(s, n as u64);
    }
}

/// The decimal rendering of `n` as a fresh string.
pub fn int_string(n: i64) -> (s: String)
    ensures
        s@ == dec_int(n as int),
{
    let mut s = String::new();
    push_dec_i64(&mut s, n);
    proof {
        assert(s@ =~= dec_int(n as int));
    }
    s
}

} // verus!
