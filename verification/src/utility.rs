//! Executable helpers shared by every percent-encodable component:
//! classifying bytes, decoding percent-encoded triplets, rewriting a byte
//! sequence into canonical form, and the encoding-aware equality and hash
//! walks over raw bytes.

use vstd::prelude::*;

use crate::grammar::canonical;
use crate::grammar::decode_triplet;
use crate::grammar::decoded;
use crate::grammar::escapes_wf;
use crate::grammar::hex_digit_value;
use crate::grammar::is_hex_digit;
use crate::grammar::is_literal_byte;
use crate::grammar::is_lower_hex_digit;
use crate::grammar::is_unreserved;
use crate::grammar::percent_eq;
use crate::grammar::to_upper_hex;
use crate::grammar::PERCENT;

verus! {

/// The offset basis of the 64-bit FNV-1a hash.
pub const FNV_OFFSET_BASIS: u64 = 0xcbf2_9ce4_8422_2325;

/// The prime of the 64-bit FNV-1a hash.
pub const FNV_PRIME: u64 = 0x100_0000_01b3;

/// One FNV-1a step: fold one byte into the accumulator.
pub open spec fn fnv1a_step(acc: u64, b: u8) -> u64 {
    vstd::wrapping::u64_specs::wrapping_mul(acc ^ (b as u64), FNV_PRIME)
}

/// The FNV-1a hash of a byte sequence, folded left to right.
pub open spec fn hash_fold(s: Seq<u8>) -> u64
    decreases s.len(),
{
    if s.len() == 0 {
        FNV_OFFSET_BASIS
    } else {
        fnv1a_step(hash_fold(s.drop_last()), s.last())
    }
}

/// The value of one hexadecimal digit, or `None` for any other byte.
pub fn hex_digit(b: u8) -> (r: Option<u8>)
    ensures
        r is Some <==> is_hex_digit(b),
        r matches Some(v) ==> v == hex_digit_value(b),
{
    if 0x30 <= b && b <= 0x39 {
        // '0'..='9'
        Some(b - 0x30)
    } else if 0x41 <= b && b <= 0x46 {
        // 'A'..='F'
        Some(b - 0x41 + 10)
    } else if 0x61 <= b && b <= 0x66 {
        // 'a'..='f'
        Some(b - 0x61 + 10)
    } else {
        None
    }
}

/// Whether the byte may stand unescaped in a fragment (the percent sign,
/// which starts a triplet, is not counted here).
pub fn literal_byte(b: u8) -> (r: bool)
    ensures
        r == is_literal_byte(b),
{
    b == 0x21 || (0x24 <= b && b <= 0x3B && b != PERCENT) || b == 0x3D || (0x3F <= b && b <= 0x5A)
        || b == 0x5F || (0x61 <= b && b <= 0x7A) || b == 0x7E
}

/// Whether the byte is unreserved (ALPHA / DIGIT / "-" / "." / "_" / "~").
pub fn unreserved_byte(b: u8) -> (r: bool)
    ensures
        r == is_unreserved(b),
{
    (0x41 <= b && b <= 0x5A) || (0x61 <= b && b <= 0x7A) || (0x30 <= b && b <= 0x39) || b == 0x2D
        || b == 0x2E || b == 0x5F || b == 0x7E
}

/// Uppercase a hexadecimal digit, leaving every other byte alone.
pub fn upper_hex(b: u8) -> (r: u8)
    ensures
        r == to_upper_hex(b),
{
    if 0x61 <= b && b <= 0x66 {
        // 'a'..='f'
        b - 0x20
    } else {
        b
    }
}

/// Decode the two bytes that follow a percent sign, each `None` when the
/// input ended first. On success returns the decoded byte and whether no
/// lowercase hex digit was used.
pub fn get_percent_encoded_value(first: Option<u8>, second: Option<u8>) -> (r: Result<
    (u8, bool),
    (),
>)
    ensures
        r is Ok <==> (first matches Some(hi) && second matches Some(lo) && is_hex_digit(hi)
            && is_hex_digit(lo)),
        r matches Ok(v) ==> (first matches Some(hi) && second matches Some(lo) && v == (
        decode_triplet(hi, lo),
        !is_lower_hex_digit(hi) && !is_lower_hex_digit(lo),
        )),
{
    match (first, second) {
        (Some(hi), Some(lo)) => {
            let hi_value = match hex_digit(hi) {
                Some(v) => v,
                None => {
                    return Err(());
                },
            };
            let lo_value = match hex_digit(lo) {
                Some(v) => v,
                None => {
                    return Err(());
                },
            };
            let uppercase = !(0x61 <= hi && hi <= 0x66) && !(0x61 <= lo && lo <= 0x66);
            Ok((hi_value * 16 + lo_value, uppercase))
        },
        _ => Err(()),
    }
}

/// Rewrite a byte sequence into canonical form: uppercase the hex digits of
/// every well-formed triplet, and replace a triplet that decodes to an
/// unreserved byte by that byte. Other bytes pass through unchanged.
pub fn normalize_bytes(bytes: &[u8]) -> (r: Vec<u8>)
    ensures
        r@ == canonical(bytes@),
{
    let n = bytes.len();
    let mut out: Vec<u8> = Vec::new();
    let mut i: usize = 0;
    proof {
        assert(bytes@.skip(0) =~= bytes@);
        assert(out@ + canonical(bytes@) =~= canonical(bytes@));
    }
    while i < n
        invariant
            i <= n,
            n == bytes@.len(),
            out@ + canonical(bytes@.skip(i as int)) == canonical(bytes@),
        decreases n - i,
    {
        let ghost pre = out@;
        let ghost suf = bytes@.skip(i as int);
        let b = bytes[i];
        if b == PERCENT && n - i >= 3 {
            let hi = bytes[i + 1];
            let lo = bytes[i + 2];
            proof {
                assert(suf[1] == bytes@[i + 1] && suf[2] == bytes@[i + 2]);
            }
            match get_percent_encoded_value(Some(hi), Some(lo)) {
                Ok((value, _)) => {
                    if unreserved_byte(value) {
                        out.push(value);
                        proof {
                            assert(suf.skip(3) =~= bytes@.skip(i + 3));
                            assert(out@ =~= pre + seq![value]);
                            assert((pre + seq![value]) + canonical(suf.skip(3)) =~= pre + (
                            seq![value] + canonical(suf.skip(3))));
                        }
                    } else {
                        let up_hi = upper_hex(hi);
                        let up_lo = upper_hex(lo);
                        out.push(PERCENT);
                        out.push(up_hi);
                        out.push(up_lo);
                        proof {
                            assert(suf.skip(3) =~= bytes@.skip(i + 3));
                            assert(out@ =~= pre + seq![PERCENT, up_hi, up_lo]);
                            assert((pre + seq![PERCENT, up_hi, up_lo]) + canonical(suf.skip(3))
                                =~= pre + (seq![PERCENT, up_hi, up_lo] + canonical(suf.skip(3))));
                        }
                    }
                    i += 3;
                },
                Err(()) => {
                    out.push(b);
                    proof {
                        assert(suf.skip(1) =~= bytes@.skip(i + 1));
                        assert(out@ =~= pre + seq![b]);
                        assert((pre + seq![b]) + canonical(suf.skip(1)) =~= pre + (seq![b]
                            + canonical(suf.skip(1))));
                    }
                    i += 1;
                },
            }
        } else {
            out.push(b);
            proof {
                assert(suf.skip(1) =~= bytes@.skip(i + 1));
                assert(out@ =~= pre + seq![b]);
                assert((pre + seq![b]) + canonical(suf.skip(1)) =~= pre + (seq![b] + canonical(
                suf.skip(1))));
            }
            i += 1;
        }
    }
    proof {
        assert(bytes@.skip(n as int) =~= Seq::<u8>::empty());
        assert(out@ + Seq::<u8>::empty() =~= out@);
    }
    out
}

/// Materialize the decoded byte stream of a byte sequence: each well-formed
/// triplet becomes its decoded byte, every other byte is kept as it is.
pub fn decoded_bytes(bytes: &[u8]) -> (r: Vec<u8>)
    ensures
        r@ == decoded(bytes@),
{
    let n = bytes.len();
    let mut out: Vec<u8> = Vec::new();
    let mut i: usize = 0;
    proof {
        assert(bytes@.skip(0) =~= bytes@);
        assert(out@ + decoded(bytes@) =~= decoded(bytes@));
    }
    while i < n
        invariant
            i <= n,
            n == bytes@.len(),
            out@ + decoded(bytes@.skip(i as int)) == decoded(bytes@),
        decreases n - i,
    {
        let ghost pre = out@;
        let ghost suf = bytes@.skip(i as int);
        let b = bytes[i];
        if b == PERCENT && n - i >= 3 {
            proof {
                assert(suf[1] == bytes@[i + 1] && suf[2] == bytes@[i + 2]);
            }
            match get_percent_encoded_value(Some(bytes[i + 1]), Some(bytes[i + 2])) {
                Ok((value, _)) => {
                    out.push(value);
                    proof {
                        assert(suf.skip(3) =~= bytes@.skip(i + 3));
                        assert(out@ =~= pre + seq![value]);
                        assert((pre + seq![value]) + decoded(suf.skip(3)) =~= pre + (seq![value]
                            + decoded(suf.skip(3))));
                    }
                    i += 3;
                },
                Err(()) => {
                    out.push(b);
                    proof {
                        assert(suf.skip(1) =~= bytes@.skip(i + 1));
                        assert(out@ =~= pre + seq![b]);
                        assert((pre + seq![b]) + decoded(suf.skip(1)) =~= pre + (seq![b] + decoded(
                        suf.skip(1))));
                    }
                    i += 1;
                },
            }
        } else {
            out.push(b);
            proof {
                assert(suf.skip(1) =~= bytes@.skip(i + 1));
                assert(out@ =~= pre + seq![b]);
                assert((pre + seq![b]) + decoded(suf.skip(1)) =~= pre + (seq![b] + decoded(
                suf.skip(1))));
            }
            i += 1;
        }
    }
    proof {
        assert(bytes@.skip(n as int) =~= Seq::<u8>::empty());
        assert(out@ + Seq::<u8>::empty() =~= out@);
    }
    out
}

/// Prepending the same byte to two decoded streams keeps them equal exactly
/// when the streams were equal.
proof fn lemma_cons_eq(x: u8, p: Seq<u8>, q: Seq<u8>)
    ensures
        (seq![x] + p == seq![x] + q) <==> p == q,
{
    if seq![x] + p == seq![x] + q {
        assert(p =~= q) by {
            assert(p.len() == (seq![x] + p).len() - 1);
            assert forall|k: int| 0 <= k < p.len() implies p[k] == q[k] by {
                assert((seq![x] + p)[k + 1] == p[k]);
                assert((seq![x] + q)[k + 1] == q[k]);
            }
        }
    }
    if p == q {
        assert(seq![x] + p =~= seq![x] + q);
    }
}

/// A nonempty byte sequence decodes to a nonempty stream.
proof fn lemma_decoded_nonempty(s: Seq<u8>)
    requires
        s.len() > 0,
    ensures
        decoded(s).len() >= 1,
{
}

/// The next decoded byte at position `i`, with the position that follows it:
/// either one literal byte, or one well-formed triplet. `None` when a percent
/// sign at `i` is not followed by two hex digits.
fn next_decoded_unit(s: &[u8], i: usize) -> (r: Option<(u8, usize)>)
    requires
        i < s@.len(),
    ensures
        r matches Some(u) ==> {
            &&& i < u.1 <= s@.len()
            &&& decoded(s@.skip(i as int)) == seq![u.0] + decoded(s@.skip(u.1 as int))
            &&& escapes_wf(s@.skip(i as int)) == escapes_wf(s@.skip(u.1 as int))
        },
        r is None ==> !escapes_wf(s@.skip(i as int)),
{
    let n = s.len();
    let ghost suf = s@.skip(i as int);
    let b = s[i];
    if b == PERCENT {
        if n - i >= 3 {
            proof {
                assert(suf[1] == s@[i + 1] && suf[2] == s@[i + 2]);
            }
            match get_percent_encoded_value(Some(s[i + 1]), Some(s[i + 2])) {
                Ok((value, _)) => {
                    proof {
                        assert(suf.skip(3) =~= s@.skip(i + 3));
                    }
                    Some((value, i + 3))
                },
                Err(()) => None,
            }
        } else {
            None
        }
    } else {
        proof {
            assert(suf.skip(1) =~= s@.skip(i + 1));
        }
        Some((b, i + 1))
    }
}

/// Encoding-aware equality of two raw byte sequences: walk both in lock step,
/// decoding each well-formed triplet to its byte, and compare the decoded
/// streams. A malformed escape in either operand makes the comparison false.
pub fn percent_encoded_equality(left: &[u8], right: &[u8]) -> (r: bool)
    ensures
        r == percent_eq(left@, right@),
{
    let n = left.len();
    let m = right.len();
    let mut i: usize = 0;
    let mut j: usize = 0;
    proof {
        assert(left@.skip(0) =~= left@);
        assert(right@.skip(0) =~= right@);
    }
    while i < n || j < m
        invariant
            i <= n,
            j <= m,
            n == left@.len(),
            m == right@.len(),
            escapes_wf(left@) == escapes_wf(left@.skip(i as int)),
            escapes_wf(right@) == escapes_wf(right@.skip(j as int)),
            (decoded(left@) == decoded(right@)) <==> (decoded(left@.skip(i as int)) == decoded(
            right@.skip(j as int))),
        decreases n - i + m - j,
    {
        if i >= n {
            proof {
                assert(left@.skip(i as int) =~= Seq::<u8>::empty());
                lemma_decoded_nonempty(right@.skip(j as int));
            }
            return false;
        }
        if j >= m {
            proof {
                assert(right@.skip(j as int) =~= Seq::<u8>::empty());
                lemma_decoded_nonempty(left@.skip(i as int));
            }
            return false;
        }
        let left_unit = next_decoded_unit(left, i);
        let right_unit = next_decoded_unit(right, j);
        match (left_unit, right_unit) {
            (Some(lu), Some(ru)) => {
                if lu.0 != ru.0 {
                    proof {
                        let dl = decoded(left@.skip(i as int));
                        let dr = decoded(right@.skip(j as int));
                        assert(dl[0] == lu.0 && dr[0] == ru.0);
                    }
                    return false;
                }
                proof {
                    lemma_cons_eq(
                        lu.0,
                        decoded(left@.skip(lu.1 as int)),
                        decoded(right@.skip(ru.1 as int)),
                    );
                }
                i = lu.1;
                j = ru.1;
            },
            (None, _) => {
                return false;
            },
            (_, None) => {
                return false;
            },
        }
    }
    proof {
        assert(left@.skip(n as int) =~= Seq::<u8>::empty());
        assert(right@.skip(m as int) =~= Seq::<u8>::empty());
    }
    true
}

/// Relies on String::from_utf8: a sequence of bytes below 0x80 is ASCII and
/// therefore valid UTF-8, and the string it yields holds exactly those bytes,
/// one character per byte.
#[verifier::external_body]
pub(crate) fn ascii_to_string(v: &[u8]) -> (r: String)
    requires
        forall|k: int| 0 <= k < v@.len() ==> v@[k] < 0x80,
    ensures
        r@.len() == v@.len(),
        forall|k: int| 0 <= k < v@.len() ==> r@[k] == v@[k] as char,
{
    match String::from_utf8(v.to_vec()) {
        Ok(s) => s,
        Err(_) => String::new(),
    }
}

/// A character sequence read off ASCII bytes one for one encodes back to
/// exactly those bytes.
pub(crate) proof fn lemma_ascii_chars_encode(chars: Seq<char>, bytes: Seq<u8>)
    requires
        chars.len() == bytes.len(),
        forall|k: int| 0 <= k < bytes.len() ==> bytes[k] < 0x80,
        forall|k: int| 0 <= k < bytes.len() ==> chars[k] == bytes[k] as char,
    ensures
        vstd::utf8::encode_utf8(chars) == bytes,
{
    assert(vstd::utf8::is_ascii_chars(chars)) by {
        assert forall|i: int| 0 <= i < chars.len() implies '\0' <= #[trigger] chars[i]
            <= '\u{7f}' by {
            assert(chars[i] == bytes[i] as char);
            assert(bytes[i] < 0x80);
        }
    }
    vstd::utf8::is_ascii_chars_encode_utf8(chars);
    assert(vstd::utf8::encode_utf8(chars) =~= bytes) by {
        assert forall|k: int| 0 <= k < bytes.len() implies vstd::utf8::encode_utf8(chars)[k]
            == bytes[k] by {
            assert(vstd::utf8::encode_utf8(chars)[k] == chars[k] as u8);
        }
    }
}

/// Encoding-aware hash of a raw byte sequence: fold the decoded byte stream
/// into a 64-bit FNV-1a hash, so that any two spellings with equal decoded
/// streams hash alike.
pub fn percent_encoded_hash(bytes: &[u8]) -> (r: u64)
    ensures
        r == hash_fold(decoded(bytes@)),
{
    let d = decoded_bytes(bytes);
    let n = d.len();
    let mut h: u64 = FNV_OFFSET_BASIS;
    let mut i: usize = 0;
    proof {
        assert(d@.take(0) =~= Seq::<u8>::empty());
    }
    while i < n
        invariant
            i <= n,
            n == d@.len(),
            d@ == decoded(bytes@),
            h == hash_fold(d@.take(i as int)),
        decreases n - i,
    {
        let b = d[i];
        h = (h ^ (b as u64)).wrapping_mul(FNV_PRIME);
        proof {
            assert(d@.take(i + 1).drop_last() =~= d@.take(i as int));
            assert(d@.take(i + 1).last() == d@[i as int]);
        }
        i += 1;
    }
    proof {
        assert(d@.take(n as int) =~= d@);
    }
    h
}

} // verus!
