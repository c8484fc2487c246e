//! Proved properties of the grammar model: validity survives
//! canonicalization, canonicalization is idempotent and preserves the decoded
//! stream, and hashing is consistent with encoding-aware equality.

use vstd::prelude::*;

use crate::grammar::canonical;
use crate::grammar::decoded;
use crate::grammar::escapes_wf;
use crate::grammar::normalized_flag;
use crate::grammar::valid_fragment;
use crate::grammar::PERCENT;
use crate::utility::hash_fold;

verus! {

/// A valid fragment has only well-formed escapes.
pub proof fn lemma_valid_escapes_wf(s: Seq<u8>)
    requires
        valid_fragment(s),
    ensures
        escapes_wf(s),
    decreases s.len(),
{
    if s.len() == 0 {
    } else if s[0] == PERCENT {
        lemma_valid_escapes_wf(s.skip(3));
    } else {
        lemma_valid_escapes_wf(s.skip(1));
    }
}

/// Every byte of a valid fragment is ASCII.
pub proof fn lemma_valid_ascii(s: Seq<u8>)
    requires
        valid_fragment(s),
    ensures
        forall|k: int| 0 <= k < s.len() ==> s[k] < 0x80,
    decreases s.len(),
{
    if s.len() == 0 {
    } else if s[0] == PERCENT {
        lemma_valid_ascii(s.skip(3));
        assert forall|k: int| 0 <= k < s.len() implies s[k] < 0x80 by {
            if k >= 3 {
                assert(s[k] == s.skip(3)[k - 3]);
            }
        }
    } else {
        lemma_valid_ascii(s.skip(1));
        assert forall|k: int| 0 <= k < s.len() implies s[k] < 0x80 by {
            if k >= 1 {
                assert(s[k] == s.skip(1)[k - 1]);
            }
        }
    }
}

/// Canonicalizing a valid fragment yields a valid fragment.
pub proof fn lemma_canonical_valid(s: Seq<u8>)
    requires
        valid_fragment(s),
    ensures
        valid_fragment(canonical(s)),
    decreases s.len(),
{
    if s.len() == 0 {
    } else if s[0] == PERCENT {
        lemma_canonical_valid(s.skip(3));
        let rest = canonical(s.skip(3));
        let b = crate::grammar::decode_triplet(s[1], s[2]);
        if crate::grammar::is_unreserved(b) {
            let t = seq![b] + rest;
            assert(canonical(s) == t);
            assert(t[0] == b && t.skip(1) =~= rest);
        } else {
            let t = seq![PERCENT, crate::grammar::to_upper_hex(s[1]), crate::grammar::to_upper_hex(
                s[2],
            )] + rest;
            assert(canonical(s) == t);
            assert(t[0] == PERCENT && t[1] == crate::grammar::to_upper_hex(s[1]) && t[2]
                == crate::grammar::to_upper_hex(s[2]));
            assert(t.skip(3) =~= rest);
        }
    } else {
        lemma_canonical_valid(s.skip(1));
        let t = seq![s[0]] + canonical(s.skip(1));
        assert(canonical(s) == t);
        assert(t[0] == s[0] && t.skip(1) =~= canonical(s.skip(1)));
    }
}

/// The canonical spelling of a valid fragment carries the normalized flag:
/// every triplet that remains has uppercase digits and a reserved byte.
pub proof fn lemma_canonical_normalized(s: Seq<u8>)
    requires
        valid_fragment(s),
    ensures
        normalized_flag(canonical(s)),
    decreases s.len(),
{
    if s.len() == 0 {
    } else if s[0] == PERCENT {
        lemma_canonical_normalized(s.skip(3));
        let rest = canonical(s.skip(3));
        let b = crate::grammar::decode_triplet(s[1], s[2]);
        if crate::grammar::is_unreserved(b) {
            let t = seq![b] + rest;
            assert(canonical(s) == t);
            assert(t[0] == b && t.skip(1) =~= rest);
        } else {
            let hi = crate::grammar::to_upper_hex(s[1]);
            let lo = crate::grammar::to_upper_hex(s[2]);
            let t = seq![PERCENT, hi, lo] + rest;
            assert(canonical(s) == t);
            assert(t[0] == PERCENT && t[1] == hi && t[2] == lo);
            assert(t.skip(3) =~= rest);
            assert(crate::grammar::decode_triplet(hi, lo) == b);
        }
    } else {
        lemma_canonical_normalized(s.skip(1));
        let t = seq![s[0]] + canonical(s.skip(1));
        assert(canonical(s) == t);
        assert(t[0] == s[0] && t.skip(1) =~= canonical(s.skip(1)));
    }
}

/// A valid fragment whose flag already holds is its own canonical spelling:
/// normalization of a normalized value changes nothing.
pub proof fn lemma_normalized_canonical_identity(s: Seq<u8>)
    requires
        valid_fragment(s),
        normalized_flag(s),
    ensures
        canonical(s) == s,
    decreases s.len(),
{
    if s.len() == 0 {
        assert(canonical(s) =~= s);
    } else if s[0] == PERCENT {
        lemma_normalized_canonical_identity(s.skip(3));
        assert(crate::grammar::to_upper_hex(s[1]) == s[1]);
        assert(crate::grammar::to_upper_hex(s[2]) == s[2]);
        assert(canonical(s) =~= s);
    } else {
        lemma_normalized_canonical_identity(s.skip(1));
        assert(canonical(s) =~= s);
    }
}

/// Normalization is idempotent: canonicalizing a canonical spelling changes
/// nothing, and one pass suffices to make the flag hold.
pub proof fn lemma_canonical_idempotent(s: Seq<u8>)
    requires
        valid_fragment(s),
    ensures
        canonical(canonical(s)) == canonical(s),
        normalized_flag(canonical(s)),
{
    lemma_canonical_valid(s);
    lemma_canonical_normalized(s);
    lemma_normalized_canonical_identity(canonical(s));
}

/// Normalization preserves decoded meaning: the canonical spelling decodes to
/// the same byte stream, so equality and hashing cannot tell them apart.
pub proof fn lemma_canonical_preserves_decoded(s: Seq<u8>)
    requires
        valid_fragment(s),
    ensures
        decoded(canonical(s)) == decoded(s),
    decreases s.len(),
{
    if s.len() == 0 {
    } else if s[0] == PERCENT {
        lemma_canonical_preserves_decoded(s.skip(3));
        let rest = canonical(s.skip(3));
        let b = crate::grammar::decode_triplet(s[1], s[2]);
        if crate::grammar::is_unreserved(b) {
            let t = seq![b] + rest;
            assert(canonical(s) == t);
            assert(t[0] == b && t.skip(1) =~= rest);
            assert(decoded(s) =~= decoded(t));
        } else {
            let hi = crate::grammar::to_upper_hex(s[1]);
            let lo = crate::grammar::to_upper_hex(s[2]);
            let t = seq![PERCENT, hi, lo] + rest;
            assert(canonical(s) == t);
            assert(t[0] == PERCENT && t[1] == hi && t[2] == lo);
            assert(t.skip(3) =~= rest);
            assert(crate::grammar::decode_triplet(hi, lo) == b);
            assert(decoded(s) =~= decoded(t));
        }
    } else {
        lemma_canonical_preserves_decoded(s.skip(1));
        let t = seq![s[0]] + canonical(s.skip(1));
        assert(canonical(s) == t);
        assert(t[0] == s[0] && t.skip(1) =~= canonical(s.skip(1)));
        assert(decoded(s) =~= decoded(t));
    }
}

/// Hashing is consistent with encoding-aware equality: two byte sequences
/// with equal decoded streams hash alike, whatever spellings they used.
pub proof fn lemma_equal_decoded_equal_hash(a: Seq<u8>, b: Seq<u8>)
    requires
        decoded(a) == decoded(b),
    ensures
        hash_fold(decoded(a)) == hash_fold(decoded(b)),
{
}

/// Hash and equality agree on fragments: when two fragments compare equal
/// (their decoded streams are the same, which is exactly what `==` returns),
/// the values [`Fragment::hash_value`] returns for them are equal.
pub proof fn lemma_fragment_hash_consistency(a: &crate::fragment::Fragment, b: &crate::fragment::Fragment)
    requires
        decoded(a@) == decoded(b@),
    ensures
        hash_fold(decoded(a@)) == hash_fold(decoded(b@)),
{
    lemma_equal_decoded_equal_hash(a@, b@);
}

} // verus!
