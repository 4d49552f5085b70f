//! Numbers and bytes written as text.

use vstd::prelude::*;
use vstd::string::{StrSliceExecFns, StringExecFns};

verus! {

/// The sixteen digits of hexadecimal numbers, in upper case.
pub open spec fn hex_digits() -> Seq<char> {
    "0123456789ABCDEF"@
}

/// A byte written as two hexadecimal digits in upper case.
pub open spec fn hex_text(v: nat) -> Seq<char> {
    hex_digits().subrange((v / 16) as int, (v / 16) as int + 1) + hex_digits().subrange(
        (v % 16) as int,
        (v % 16) as int + 1,
    )
}

/// A number written in decimal.
pub open spec fn decimal_text(n: nat) -> Seq<char>
    decreases n,
{
    if n < 10 {
        hex_digits().subrange(n as int, n as int + 1)
    } else {
        decimal_text(n / 10) + hex_digits().subrange((n % 10) as int, (n % 10) as int + 1)
    }
}

/// Appends one of the sixteen digits to a text.
pub fn push_digit(text: &mut String, d: usize)
    requires
        d < 16,
    ensures
        final(text)@ == old(text)@ + hex_digits().subrange(d as int, d as int + 1),
{
    proof {
        reveal_strlit("0123456789ABCDEF");
    }
    let digits = "0123456789ABCDEF";
    text.append(digits.substring_char(d, d + 1));
}

/// Appends a byte as two hexadecimal digits in upper case.
pub fn push_hex(text: &mut String, v: usize)
    requires
        v <= 255,
    ensures
        final(text)@ == old(text)@ + hex_text(v as nat),
{
    push_digit(text, v / 16);
    push_digit(text, v % 16);
    assert(text@ =~= old(text)@ + hex_text(v as nat));
}

/// Appends a number in decimal.
pub fn push_decimal(text: &mut String, n: usize)
    ensures
        final(text)@ == old(text)@ + decimal_text(n as nat),
    decreases n,
{
    if n >= 10 {
        push_decimal(text, n / 10);
    }
    push_digit(text, n % 10);
    assert(text@ =~= old(text)@ + decimal_text(n as nat));
}

/// The numbers of the bytes from `from` on, each with a comma and a blank
/// before it unless it is the first of all.
pub open spec fn listed(bytes: Seq<u8>, from: int) -> Seq<char>
    decreases bytes.len() - from,
{
    if from < 0 || from >= bytes.len() {
        Seq::empty()
    } else if from == 0 {
        decimal_text(bytes[from] as nat) + listed(bytes, from + 1)
    } else {
        ", "@ + decimal_text(bytes[from] as nat) + listed(bytes, from + 1)
    }
}

/// Bytes written as a list of numbers in square brackets.
pub open spec fn bytes_text(bytes: Seq<u8>) -> Seq<char> {
    "["@ + listed(bytes, 0) + "]"@
}

/// Appends bytes as a list of numbers in square brackets.
pub fn push_bytes(text: &mut String, bytes: &Vec<u8>)
    ensures
        final(text)@ == old(text)@ + bytes_text(bytes@),
{
    text.append("[");
    let mut i: usize = 0;
    while i < bytes.len()
        invariant
            i <= bytes.len(),
            text@ + listed(bytes@, i as int) == old(text)@ + "["@ + listed(bytes@, 0),
        decreases bytes.len() - i,
    {
        let ghost before = text@;
        if i > 0 {
            text.append(", ");
        }
        push_decimal(text, bytes[i] as usize);
        proof {
            let item = if i == 0 {
                decimal_text(bytes@[i as int] as nat)
            } else {
                ", "@ + decimal_text(bytes@[i as int] as nat)
            };
            assert(text@ =~= before + item);
            assert(listed(bytes@, i as int) =~= item + listed(bytes@, i + 1));
            assert(text@ + listed(bytes@, i + 1) =~= before + listed(bytes@, i as int));
        }
        i = i + 1;
    }
    text.append("]");
    proof {
        assert(listed(bytes@, i as int) =~= Seq::<char>::empty());
        assert(text@ =~= old(text)@ + bytes_text(bytes@));
    }
}

} // verus!
