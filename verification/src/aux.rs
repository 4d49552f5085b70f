//! Auxiliary functions to read length fields.

use vstd::prelude::*;

verus! {

/// The number of bytes that make up a `usize` on the target.
pub open spec fn word_bytes() -> nat {
    (usize::BITS / 8) as nat
}

/// The value of an ASCII digit in the given radix, if it is one.
pub open spec fn digit_value(b: u8, radix: nat) -> Option<nat> {
    let v: int = if 0x30 <= b <= 0x39 {
        b - 0x30
    } else if 0x61 <= b <= 0x7a {
        b - 0x61 + 10
    } else if 0x41 <= b <= 0x5a {
        b - 0x41 + 10
    } else {
        radix as int
    };
    if v < radix {
        Some(v as nat)
    } else {
        None
    }
}

/// Whether every byte is a digit of the given radix.
pub open spec fn all_digits(s: Seq<u8>, radix: nat) -> bool {
    forall|i: int| 0 <= i < s.len() ==> (#[trigger] digit_value(s[i], radix)) is Some
}

/// The number written by a sequence of digits, most significant first.
pub open spec fn digits_value(s: Seq<u8>, radix: nat) -> nat
    decreases s.len(),
{
    if s.len() == 0 {
        0
    } else {
        digits_value(s.drop_last(), radix) * radix + digit_value(s.last(), radix).unwrap_or(0)
    }
}

/// The digits of a number text: the text without one leading plus sign.
pub open spec fn number_digits(s: Seq<u8>) -> Seq<u8> {
    if s.len() > 0 && s[0] == 0x2b {
        s.skip(1)
    } else {
        s
    }
}

/// What reading a text as an unsigned number in the given radix yields: the
/// text is an optional plus sign followed by at least one digit, and the
/// number fits into a `usize`.
pub open spec fn parse_number(s: Seq<u8>, radix: nat) -> Option<usize> {
    let d = number_digits(s);
    if d.len() > 0 && all_digits(d, radix) && digits_value(d, radix) <= usize::MAX {
        Some(digits_value(d, radix) as usize)
    } else {
        None
    }
}

/// The number whose base-256 digits are the given bytes, most significant
/// first.
pub open spec fn big_endian_value(s: Seq<u8>) -> nat
    decreases s.len(),
{
    if s.len() == 0 {
        0
    } else {
        big_endian_value(s.drop_last()) * 256 + s.last() as nat
    }
}

/// The number whose base-256 digits are the given bytes, least significant
/// first.
pub open spec fn little_endian_value(s: Seq<u8>) -> nat
    decreases s.len(),
{
    if s.len() == 0 {
        0
    } else {
        s[0] as nat + 256 * little_endian_value(s.skip(1))
    }
}

/// 256 to the power of `n`.
pub open spec fn pow256(n: nat) -> nat
    decreases n,
{
    if n == 0 {
        1
    } else {
        256 * pow256((n - 1) as nat)
    }
}

/// A number of `n` base-256 digits is below 256 to the `n`.
pub proof fn lemma_big_endian_bound(s: Seq<u8>)
    ensures
        big_endian_value(s) < pow256(s.len()),
    decreases s.len(),
{
    if s.len() > 0 {
        lemma_big_endian_bound(s.drop_last());
    }
}

/// A number of `n` base-256 digits is below 256 to the `n`.
pub proof fn lemma_little_endian_bound(s: Seq<u8>)
    ensures
        little_endian_value(s) < pow256(s.len()),
    decreases s.len(),
{
    if s.len() > 0 {
        lemma_little_endian_bound(s.skip(1));
    }
}

/// Powers of 256 grow with the exponent, and as many digits as a `usize` has
/// bytes stay within a `usize`.
pub proof fn lemma_pow256_word(n: nat)
    requires
        n <= word_bytes(),
    ensures
        pow256(n) <= usize::MAX + 1,
{
    reveal_with_fuel(pow256, 9);
    assert(usize::BITS == 32 || usize::BITS == 64);
    if usize::BITS == 32 {
        assert(usize::MAX == 0xffff_ffff);
    } else {
        assert(usize::MAX == 0xffff_ffff_ffff_ffff);
    }
}

/// Longer digit strings never denote smaller numbers.
pub proof fn lemma_digits_value_prefix(s: Seq<u8>, n: int, radix: nat)
    requires
        0 <= n <= s.len(),
        radix >= 1,
    ensures
        digits_value(s.take(n), radix) <= digits_value(s, radix),
    decreases s.len() - n,
{
    if n == s.len() {
        assert(s.take(n) =~= s);
    } else {
        lemma_digits_value_prefix(s.drop_last(), n, radix);
        assert(s.drop_last().take(n) =~= s.take(n));
        assert(digits_value(s.drop_last(), radix) * radix >= digits_value(s.drop_last(), radix))
            by (nonlinear_arith)
            requires
                radix >= 1,
        ;
    }
}

/// The value of one digit, or `None` for a byte that is no digit of the radix.
fn digit(b: u8, radix: u8) -> (r: Option<u8>)
    requires
        radix <= 36,
    ensures
        r == match digit_value(b, radix as nat) {
            Some(v) => Some(v as u8),
            None => None,
        },
{
    let v: u8 = if 0x30 <= b && b <= 0x39 {
        b - 0x30
    } else if 0x61 <= b && b <= 0x7a {
        b - 0x61 + 10
    } else if 0x41 <= b && b <= 0x5a {
        b - 0x41 + 10
    } else {
        radix
    };
    if v < radix {
        Some(v)
    } else {
        None
    }
}

/// Reads an unsigned number in the given radix from its ASCII text.
pub fn parse_radix(bytes: &[u8], radix: u8) -> (r: Option<usize>)
    requires
        2 <= radix <= 36,
    ensures
        r == parse_number(bytes@, radix as nat),
{
    let len: usize = bytes.len();
    let start: usize = if len > 0 && bytes[0] == 0x2b {
        1
    } else {
        0
    };
    if start == len {
        return None;
    }
    let ghost d = number_digits(bytes@);
    assert(d =~= bytes@.skip(start as int));
    let mut acc: usize = 0;
    let mut i: usize = start;
    while i < len
        invariant
            start <= i <= len,
            len == bytes@.len(),
            d == bytes@.skip(start as int),
            d == number_digits(bytes@),
            d.len() == len - start,
            2 <= radix <= 36,
            all_digits(d.take(i - start), radix as nat),
            acc == digits_value(d.take(i - start), radix as nat),
        decreases len - i,
    {
        let ghost pre = d.take(i - start);
        let ghost cur = d.take(i - start + 1);
        assert(cur.drop_last() =~= pre);
        assert(cur.last() == bytes@[i as int]);
        match digit(bytes[i], radix) {
            None => {
                assert(digit_value(d[i - start], radix as nat) is None);
                return None;
            },
            Some(v) => {
                let next: Option<usize> = match acc.checked_mul(radix as usize) {
                    Some(m) => m.checked_add(v as usize),
                    None => None,
                };
                match next {
                    None => {
                        proof {
                            assert(acc * radix + v > usize::MAX) by (nonlinear_arith)
                                requires
                                    acc * radix > usize::MAX || acc * radix + v > usize::MAX,
                                    v >= 0,
                            ;
                            assert(digits_value(cur, radix as nat) > usize::MAX);
                            lemma_digits_value_prefix(d, i - start + 1, radix as nat);
                        }
                        return None;
                    },
                    Some(n) => {
                        assert forall|j: int| 0 <= j < cur.len() implies (#[trigger] digit_value(
                            cur[j],
                            radix as nat,
                        )) is Some by {
                            if j < pre.len() {
                                assert(cur[j] == pre[j]);
                            }
                        }
                        acc = n;
                    },
                }
            },
        }
        i = i + 1;
    }
    assert(d.take(i - start) =~= d);
    Some(acc)
}

/// Parses a decimal number from a byte array.
pub fn decimal(bytes: &[u8]) -> (r: Option<usize>)
    ensures
        r == parse_number(bytes@, 10),
{
    parse_radix(bytes, 10)
}

/// Parses a hexadecimal number from a byte array.
pub fn hex(bytes: &[u8]) -> (r: Option<usize>)
    ensures
        r == parse_number(bytes@, 16),
{
    parse_radix(bytes, 16)
}

/// Reads raw value from byte array in little-endian format.
pub fn little_endian(bytes: &[u8]) -> (r: Option<usize>)
    ensures
        r == if bytes@.len() > word_bytes() {
            None
        } else {
            Some(little_endian_value(bytes@) as usize)
        },
        bytes@.len() <= word_bytes() ==> little_endian_value(bytes@) <= usize::MAX,
{
    let len: usize = bytes.len();
    let width: u32 = usize::BITS / 8;
    if len > width as usize {
        return None;
    }
    proof {
        lemma_little_endian_bound(bytes@);
        lemma_pow256_word(bytes@.len());
    }
    let mut number: usize = 0;
    let mut i: usize = len;
    while i > 0
        invariant
            0 <= i <= len,
            len == bytes@.len(),
            len <= word_bytes(),
            number == little_endian_value(bytes@.skip(i as int)),
        decreases i,
    {
        i = i - 1;
        let ghost tail = bytes@.skip(i as int);
        proof {
            assert(tail.skip(1) =~= bytes@.skip(i + 1));
            lemma_little_endian_bound(tail);
            lemma_pow256_word(tail.len());
        }
        number = number * 256 + bytes[i] as usize;
    }
    assert(bytes@.skip(0) =~= bytes@);
    Some(number)
}

/// Reads raw value from byte array in big-endian format.
pub fn big_endian(bytes: &[u8]) -> (r: Option<usize>)
    ensures
        r == if bytes@.len() > word_bytes() {
            None
        } else {
            Some(big_endian_value(bytes@) as usize)
        },
        bytes@.len() <= word_bytes() ==> big_endian_value(bytes@) <= usize::MAX,
{
    let len: usize = bytes.len();
    let width: u32 = usize::BITS / 8;
    if len > width as usize {
        return None;
    }
    proof {
        lemma_big_endian_bound(bytes@);
        lemma_pow256_word(bytes@.len());
    }
    let mut number: usize = 0;
    let mut i: usize = 0;
    while i < len
        invariant
            0 <= i <= len,
            len == bytes@.len(),
            len <= word_bytes(),
            number == big_endian_value(bytes@.take(i as int)),
        decreases len - i,
    {
        let ghost head = bytes@.take(i + 1);
        proof {
            assert(head.drop_last() =~= bytes@.take(i as int));
            lemma_big_endian_bound(head);
            lemma_pow256_word(head.len());
        }
        number = number * 256 + bytes[i] as usize;
        i = i + 1;
    }
    assert(bytes@.take(len as int) =~= bytes@);
    Some(number)
}

} // verus!
