//! Text: what this crate takes on trust about the standard library's
//! strings, and numbers written in digits.

use vstd::prelude::*;

verus! {

/// `String::push` appends the given character to the end of the string and
/// leaves the characters before it as they were.
pub assume_specification[ String::push ](s: &mut String, c: char)
    ensures
        final(s)@ == old(s)@.push(c),
;

/// The digits of a number, without leading zeros.
pub open spec fn decimal(n: nat) -> Seq<char>
    decreases n,
{
    if n < 10 {
        seq![(n + 48) as char]
    } else {
        decimal(n / 10).push((n % 10 + 48) as char)
    }
}

/// Appends the digits of `n` to `text`.
pub fn push_decimal(text: &mut String, n: u64)
    ensures
        final(text)@ == old(text)@ + decimal(n as nat),
    decreases n,
{
    if n < 10 {
        text.push(((n as u8) + 48) as char);
        proof {
            assert(text@ =~= old(text)@ + decimal(n as nat));
        }
    } else {
        push_decimal(text, n / 10);
        text.push((((n % 10) as u8) + 48) as char);
        proof {
            assert(text@ =~= old(text)@ + decimal(n as nat));
        }
    }
}

} // verus!
