//! Text utilities: decimal rendering of numbers, character truncation, and
//! the bridge between `String` values and their UTF-8 bytes.

use vstd::prelude::*;

verus! {

use vstd::utf8::decode_utf8;
use vstd::utf8::valid_utf8;

/// The character for the decimal digit `d`.
pub open spec fn digit_char(d: nat) -> char
    recommends
        d < 10,
{
    ((d + 48) as u8) as char
}

/// Decimal digits of `n`, most significant first; zero is rendered as "0".
pub open spec fn decimal(n: nat) -> Seq<char>
    decreases n,
{
    if n < 10 {
        seq![digit_char(n)]
    } else {
        decimal(n / 10).push(digit_char(n % 10))
    }
}

/// Decimal digit bytes of `n`, least significant first.
spec fn digits_rev(n: nat) -> Seq<u8>
    decreases n,
{
    if n < 10 {
        seq![(n + 48) as u8]
    } else {
        seq![(n % 10 + 48) as u8] + digits_rev(n / 10)
    }
}

/// `decimal` is the reversal of `digits_rev`, digit for digit, and every
/// digit byte is an ASCII digit.
proof fn lemma_decimal_digits_rev(n: nat)
    ensures
        decimal(n) =~= digits_rev(n).reverse().map_values(|b: u8| b as char),
        forall|i: int| 0 <= i < digits_rev(n).len() ==> 48 <= #[trigger] digits_rev(n)[i] <= 57,
    decreases n,
{
    if n < 10 {
        assert(digits_rev(n).reverse() =~= digits_rev(n));
    } else {
        lemma_decimal_digits_rev(n / 10);
        assert(digits_rev(n).reverse() =~= digits_rev(n / 10).reverse().push(
            (n % 10 + 48) as u8,
        ));
    }
}

/// Every byte below 0x80 is its own one-byte UTF-8 encoding, so a sequence
/// of such bytes is valid UTF-8 and decodes byte for byte.
proof fn lemma_ascii_bytes_decode(bytes: Seq<u8>)
    ensures
        (forall|i: int| 0 <= i < bytes.len() ==> #[trigger] bytes[i] < 0x80) ==> valid_utf8(bytes)
            && decode_utf8(bytes) =~= bytes.map_values(|b: u8| b as char),
    decreases bytes.len(),
{
    if forall|i: int| 0 <= i < bytes.len() ==> #[trigger] bytes[i] < 0x80 {
        if bytes.len() > 0 {
            assert(vstd::utf8::is_leading_byte_width_1(bytes[0]));
            assert(vstd::utf8::codepoint_width_1(bytes[0]) == bytes[0] as u32) by {
                let b = bytes[0];
                assert(b < 0x80 ==> (b & 0x7f) == b) by (bit_vector);
            }
            let rest = vstd::utf8::pop_first_scalar(bytes);
            assert(rest =~= bytes.drop_first());
            lemma_ascii_bytes_decode(rest);
            assert((bytes[0] as u32) as char == bytes[0] as char);
        }
    }
}

/// Relies on `String::from_utf8`: it accepts exactly the valid UTF-8 byte
/// sequences and decodes them to the characters they encode.
#[verifier::external_body]
pub(crate) fn string_from_utf8(v: Vec<u8>) -> (r: Option<String>)
    ensures
        r matches Some(s) ==> valid_utf8(v@) && s@ == decode_utf8(v@),
        valid_utf8(v@) ==> r is Some,
{
    String::from_utf8(v).ok()
}

/// Renders `n` in decimal.
pub fn u64_to_string(n: u64) -> (r: String)
    ensures
        r@ == decimal(n as nat),
{
    let mut rev: Vec<u8> = Vec::new();
    if n == 0 {
        rev.push(48u8);
        assert(rev@ =~= digits_rev(n as nat));
    } else {
        let mut m: u64 = n;
        while m > 0
            invariant
                m <= n,
                m == 0 ==> rev@.len() > 0,
                digits_rev(n as nat) =~= rev@ + (if m == 0 {
                    Seq::<u8>::empty()
                } else {
                    digits_rev(m as nat)
                }),
            decreases m,
        {
            rev.push((m % 10) as u8 + 48);
            m = m / 10;
            proof {
                if m > 0 {
                    assert(digits_rev((m * 10 + (rev@.last() - 48)) as nat) =~= seq![rev@.last()]
                        + digits_rev(m as nat));
                }
            }
        }
        assert(rev@ =~= digits_rev(n as nat));
    }
    let ghost drev = digits_rev(n as nat);
    let mut bytes: Vec<u8> = Vec::new();
    let mut i: usize = rev.len();
    while i > 0
        invariant
            i <= rev.len(),
            rev@ == drev,
            bytes@ =~= drev.reverse().take(rev@.len() - i),
        decreases i,
    {
        i = i - 1;
        let b = rev[i];
        bytes.push(b);
        assert(bytes@ =~= drev.reverse().take(rev@.len() - i));
    }
    assert(bytes@ =~= drev.reverse());
    proof {
        lemma_decimal_digits_rev(n as nat);
        lemma_ascii_bytes_decode(bytes@);
    }
    let s = string_from_utf8(bytes);
    match s {
        Some(s) => s,
        None => vstd::pervasive::unreached(),
    }
}

/// Decimal rendering of a signed number: a minus sign before the
/// magnitude of a negative number.
pub open spec fn signed_decimal(n: int) -> Seq<char> {
    if n < 0 {
        seq!['-'] + decimal((-n) as nat)
    } else {
        decimal(n as nat)
    }
}

/// Renders `n` in decimal, with a leading minus sign when negative.
pub fn i64_to_string(n: i64) -> (r: String)
    ensures
        r@ == signed_decimal(n as int),
{
    if n >= 0 {
        u64_to_string(n as u64)
    } else {
        let big: i128 = -(n as i128);
        let mag: u64 = #[verifier::truncate] (big as u64);
        proof {
            assert(big == -(n as int));
            assert(0 < big < 0x1_0000_0000_0000_0000);
        }
        let mut out = String::from_str("-");
        let tail = u64_to_string(mag);
        out.append(tail.as_str());
        proof {
            reveal_strlit("-");
            assert("-"@ =~= seq!['-']);
            assert(out@ =~= signed_decimal(n as int));
        }
        out
    }
}

/// The first `n` characters of `s`; all of `s` when it is shorter.
pub fn truncate_chars(s: &str, n: usize) -> (r: String)
    ensures
        r@ == s@.take(if n <= s@.len() {
            n as int
        } else {
            s@.len() as int
        }),
{
    let len = s.unicode_len();
    let end = if n <= len {
        n
    } else {
        len
    };
    let sub = s.substring_char(0, end);
    let r = String::from_str(sub);
    assert(r@ =~= s@.take(end as int));
    r
}

} // verus!
