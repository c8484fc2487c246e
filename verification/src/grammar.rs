//! The mathematical model of the fragment grammar: which bytes may appear,
//! when a percent-encoded triplet is well formed, what a byte sequence decodes
//! to, and what its canonical spelling is.
//!
//! Bytes are written as hexadecimal ASCII codes throughout: 0x25 is `%`,
//! 0x30..=0x39 are the digits, 0x41..=0x5A and 0x61..=0x7A the letters.

use vstd::prelude::*;

use crate::fragment::InvalidFragment;

verus! {

/// The percent sign, which starts an escape triplet.
pub const PERCENT: u8 = 0x25;

/// An unreserved byte (RFC 3986: ALPHA / DIGIT / "-" / "." / "_" / "~").
/// Canonical form never percent-encodes these.
pub open spec fn is_unreserved(b: u8) -> bool {
    ||| 0x41 <= b && b <= 0x5A  // 'A'..='Z'
    ||| 0x61 <= b && b <= 0x7A  // 'a'..='z'
    ||| 0x30 <= b && b <= 0x39  // '0'..='9'
    ||| b == 0x2D  // '-'
    ||| b == 0x2E  // '.'
    ||| b == 0x5F  // '_'
    ||| b == 0x7E  // '~'
}

/// A byte that may stand unescaped in a fragment, the percent sign aside:
/// pchar / "/" / "?", that is unreserved, sub-delims, ":", "@", "/", "?".
pub open spec fn is_literal_byte(b: u8) -> bool {
    ||| b == 0x21  // '!'
    ||| (0x24 <= b && b <= 0x3B && b != PERCENT)  // '$'..=';' but '%'
    ||| b == 0x3D  // '='
    ||| (0x3F <= b && b <= 0x5A)  // '?', '@', 'A'..='Z'
    ||| b == 0x5F  // '_'
    ||| (0x61 <= b && b <= 0x7A)  // 'a'..='z'
    ||| b == 0x7E  // '~'
}

pub open spec fn is_hex_digit(b: u8) -> bool {
    ||| 0x30 <= b && b <= 0x39  // '0'..='9'
    ||| 0x41 <= b && b <= 0x46  // 'A'..='F'
    ||| 0x61 <= b && b <= 0x66  // 'a'..='f'
}

pub open spec fn is_lower_hex_digit(b: u8) -> bool {
    0x61 <= b && b <= 0x66  // 'a'..='f'
}

pub open spec fn hex_digit_value(b: u8) -> u8 {
    if 0x30 <= b && b <= 0x39 {
        (b - 0x30) as u8
    } else if 0x41 <= b && b <= 0x46 {
        (b - 0x41 + 10) as u8
    } else if 0x61 <= b && b <= 0x66 {
        (b - 0x61 + 10) as u8
    } else {
        0
    }
}

/// The byte a triplet `% hi lo` stands for.
pub open spec fn decode_triplet(hi: u8, lo: u8) -> u8 {
    (hex_digit_value(hi) * 16 + hex_digit_value(lo)) as u8
}

/// Uppercase a hexadecimal digit; other bytes are left as they are.
pub open spec fn to_upper_hex(b: u8) -> u8 {
    if is_lower_hex_digit(b) {
        (b - 0x20) as u8
    } else {
        b
    }
}

/// A triplet is already canonical when neither hex digit is lowercase and the
/// decoded byte is not unreserved: an unreserved byte must stand unescaped,
/// whatever the case of its digits.
pub open spec fn is_canonical_triplet(hi: u8, lo: u8) -> bool {
    &&& !is_lower_hex_digit(hi)
    &&& !is_lower_hex_digit(lo)
    &&& !is_unreserved(decode_triplet(hi, lo))
}

/// The whole byte sequence satisfies the fragment grammar: every byte is
/// legal at its position, and every percent sign starts a well-formed triplet.
pub open spec fn valid_fragment(s: Seq<u8>) -> bool
    decreases s.len(),
{
    if s.len() == 0 {
        true
    } else if s[0] == PERCENT {
        if s.len() >= 3 && is_hex_digit(s[1]) && is_hex_digit(s[2]) {
            valid_fragment(s.skip(3))
        } else {
            false
        }
    } else {
        is_literal_byte(s[0]) && valid_fragment(s.skip(1))
    }
}

/// The error a left-to-right scan reports first. Meaningful only when
/// `valid_fragment(s)` does not hold.
pub open spec fn first_error(s: Seq<u8>) -> InvalidFragment
    decreases s.len(),
{
    if s.len() == 0 {
        InvalidFragment::InvalidCharacter
    } else if s[0] == PERCENT {
        if s.len() >= 3 && is_hex_digit(s[1]) && is_hex_digit(s[2]) {
            first_error(s.skip(3))
        } else {
            InvalidFragment::InvalidPercentEncoding
        }
    } else if is_literal_byte(s[0]) {
        first_error(s.skip(1))
    } else {
        InvalidFragment::InvalidCharacter
    }
}

/// True when every triplet in `s` is already canonical. This is the flag a
/// fragment computes once at validation. Meaningful only when
/// `valid_fragment(s)` holds.
pub open spec fn normalized_flag(s: Seq<u8>) -> bool
    decreases s.len(),
{
    if s.len() == 0 {
        true
    } else if s[0] == PERCENT && s.len() >= 3 && is_hex_digit(s[1]) && is_hex_digit(s[2]) {
        is_canonical_triplet(s[1], s[2]) && normalized_flag(s.skip(3))
    } else {
        normalized_flag(s.skip(1))
    }
}

/// Every percent sign in `s` is followed by two hex digits. Weaker than
/// `valid_fragment`: the bytes between escapes may be anything.
pub open spec fn escapes_wf(s: Seq<u8>) -> bool
    decreases s.len(),
{
    if s.len() == 0 {
        true
    } else if s[0] == PERCENT {
        if s.len() >= 3 && is_hex_digit(s[1]) && is_hex_digit(s[2]) {
            escapes_wf(s.skip(3))
        } else {
            false
        }
    } else {
        escapes_wf(s.skip(1))
    }
}

/// The decoded byte stream: each well-formed triplet becomes the byte it
/// stands for, every other byte is kept as it is. Equality and hashing of
/// fragments go by this stream.
pub open spec fn decoded(s: Seq<u8>) -> Seq<u8>
    decreases s.len(),
{
    if s.len() == 0 {
        Seq::empty()
    } else if s[0] == PERCENT && s.len() >= 3 && is_hex_digit(s[1]) && is_hex_digit(s[2]) {
        seq![decode_triplet(s[1], s[2])] + decoded(s.skip(3))
    } else {
        seq![s[0]] + decoded(s.skip(1))
    }
}

/// The canonical spelling: hex digits of every triplet uppercased, and a
/// triplet that decodes to an unreserved byte replaced by that byte.
pub open spec fn canonical(s: Seq<u8>) -> Seq<u8>
    decreases s.len(),
{
    if s.len() == 0 {
        Seq::empty()
    } else if s[0] == PERCENT && s.len() >= 3 && is_hex_digit(s[1]) && is_hex_digit(s[2]) {
        if is_unreserved(decode_triplet(s[1], s[2])) {
            seq![decode_triplet(s[1], s[2])] + canonical(s.skip(3))
        } else {
            seq![PERCENT, to_upper_hex(s[1]), to_upper_hex(s[2])] + canonical(s.skip(3))
        }
    } else {
        seq![s[0]] + canonical(s.skip(1))
    }
}

/// What the encoding-aware comparison of two byte sequences holds to be true:
/// every escape in both is well formed, and the decoded streams are equal.
pub open spec fn percent_eq(a: Seq<u8>, b: Seq<u8>) -> bool {
    escapes_wf(a) && escapes_wf(b) && decoded(a) == decoded(b)
}

} // verus!
