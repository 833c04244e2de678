//! Building strings.
use vstd::prelude::*;

verus! {

/// Appends `c` to `s`. Calls `String::push`, which the standard library
/// documents as appending the given char to the end of the string; the
/// contract claims exactly that.
#[verifier::external_body]
pub fn push_char(s: &mut String, c: char)
    ensures
        final(s)@ == old(s)@.push(c),
{
    s.push(c);
}

/// The characters that the bytes `b` stand for, one char per byte
/// (bytes above 0x7f become the Latin-1 characters of the same number).
pub open spec fn bytes_chars(b: Seq<u8>) -> Seq<char> {
    b.map_values(|x: u8| x as char)
}


/// The decimal digit character for the last digit of `n`.
pub open spec fn digit_char(n: nat) -> char {
    (((n % 10) + 48) as u8) as char
}

/// The decimal numeral of `n`, without leading zeros.
pub open spec fn decimal(n: nat) -> Seq<char>
    decreases n,
{
    if n < 10 {
        seq![digit_char(n)]
    } else {
        decimal(n / 10).push(digit_char(n))
    }
}

/// Appends the decimal numeral of `n` to `s`.
pub fn push_decimal(s: &mut String, n: u64)
    ensures
        final(s)@ == old(s)@ + decimal(n as nat),
    decreases n,
{
    if n >= 10 {
        push_decimal(s, n / 10);
    }
    let d = (((n % 10) + 48) as u8) as char;
    push_char(s, d);
    assert(final(s)@ =~= old(s)@ + decimal(n as nat));
}

} // verus!
