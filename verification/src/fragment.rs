//! The fragment component itself: a validated value that keeps its text byte
//! for byte, knows whether it is already canonical, and compares and hashes
//! by its decoded byte stream.

use vstd::prelude::*;
use vstd::string::StringSliceAdditionalSpecFns;
use vstd::utf8::encode_utf8;

use crate::grammar::canonical;
use crate::grammar::decoded;
use crate::grammar::first_error;
use crate::grammar::normalized_flag;
use crate::grammar::percent_eq;
use crate::grammar::valid_fragment;
use crate::grammar::PERCENT;
use crate::laws::lemma_canonical_normalized;
use crate::laws::lemma_canonical_valid;
use crate::laws::lemma_normalized_canonical_identity;
use crate::laws::lemma_valid_ascii;
use crate::laws::lemma_valid_escapes_wf;
use crate::utility::ascii_to_string;
use crate::utility::get_percent_encoded_value;
use crate::utility::hash_fold;
use crate::utility::lemma_ascii_chars_encode;
use crate::utility::literal_byte;
use crate::utility::normalize_bytes;
use crate::utility::percent_encoded_equality;
use crate::utility::percent_encoded_hash;
use crate::utility::unreserved_byte;

verus! {

/// An error found while validating a candidate fragment. Validation scans
/// left to right and reports the first error it meets.
#[derive(Clone, Copy, Debug, Eq, Hash, PartialEq, Structural)]
pub enum InvalidFragment {
    /// A byte outside the allowed set appeared outside any percent-encoding.
    InvalidCharacter,
    /// A percent sign was not followed by two hexadecimal digits.
    InvalidPercentEncoding,
}

impl InvalidFragment {
    /// A short, stable description of the error kind.
    pub fn description(&self) -> (r: &'static str)
        ensures
            *self is InvalidCharacter ==> r@ == "invalid fragment character"@,
            *self is InvalidPercentEncoding ==> r@ == "invalid fragment percent encoding"@,
    {
        match self {
            InvalidFragment::InvalidCharacter => "invalid fragment character",
            InvalidFragment::InvalidPercentEncoding => "invalid fragment percent encoding",
        }
    }
}

/// The fragment component of a URI (RFC 3986, section 3.5).
///
/// The stored text is kept byte for byte as it was validated: no decoding or
/// case change happens behind the caller's back, only an explicit
/// [`normalize`](Fragment::normalize) call rewrites it. Equality and hashing
/// look through percent-encoding, so `"fragment"` and `"fr%61gment"` are the
/// same fragment, while case outside an escape stays significant.
///
/// The view of a fragment (`self@`) is the byte sequence of its stored text.
#[derive(Debug)]
pub struct Fragment {
    fragment: String,
    normalized: bool,
}

impl Fragment {
    /// The stored text always satisfies the grammar, and the flag always
    /// says whether that text is already canonical.
    #[verifier::type_invariant]
    spec fn wf(self) -> bool {
        &&& valid_fragment(encode_utf8(self.fragment@))
        &&& self.normalized == normalized_flag(encode_utf8(self.fragment@))
    }

    /// Validate a candidate fragment given as raw bytes. Scans left to right
    /// once and fails on the first illegal byte or malformed triplet; on
    /// success the value stores exactly the input bytes, together with the
    /// flag that says whether they are already canonical.
    pub fn try_from_bytes(value: &[u8]) -> (r: Result<Fragment, InvalidFragment>)
        ensures
            r is Ok <==> valid_fragment(value@),
            r matches Ok(f) ==> f@ == value@,
            r matches Err(e) ==> e == first_error(value@),
    {
        let n = value.len();
        let mut normalized = true;
        let mut i: usize = 0;
        proof {
            assert(value@.skip(0) =~= value@);
        }
        while i < n
            invariant
                i <= n,
                n == value@.len(),
                valid_fragment(value@) == valid_fragment(value@.skip(i as int)),
                normalized_flag(value@) == (normalized && normalized_flag(value@.skip(i as int))),
                !valid_fragment(value@.skip(i as int)) ==> first_error(value@) == first_error(
                    value@.skip(i as int),
                ),
            decreases n - i,
        {
            let ghost suf = value@.skip(i as int);
            let b = value[i];
            if b == PERCENT {
                if n - i >= 3 {
                    proof {
                        assert(suf[1] == value@[i + 1] && suf[2] == value@[i + 2]);
                    }
                    match get_percent_encoded_value(Some(value[i + 1]), Some(value[i + 2])) {
                        Ok((hex_value, uppercase)) => {
                            if !uppercase || unreserved_byte(hex_value) {
                                normalized = false;
                            }
                            proof {
                                assert(suf.skip(3) =~= value@.skip(i + 3));
                            }
                            i += 3;
                        },
                        Err(()) => {
                            return Err(InvalidFragment::InvalidPercentEncoding);
                        },
                    }
                } else {
                    return Err(InvalidFragment::InvalidPercentEncoding);
                }
            } else if literal_byte(b) {
                proof {
                    assert(suf.skip(1) =~= value@.skip(i + 1));
                }
                i += 1;
            } else {
                return Err(InvalidFragment::InvalidCharacter);
            }
        }
        proof {
            assert(value@.skip(n as int) =~= Seq::<u8>::empty());
            lemma_valid_ascii(value@);
        }
        let text = ascii_to_string(value);
        proof {
            lemma_ascii_chars_encode(text@, value@);
        }
        Ok(Fragment { fragment: text, normalized })
    }

    /// Validate a candidate fragment given as text. The same scan as
    /// [`try_from_bytes`](Fragment::try_from_bytes), over the text's bytes.
    pub fn try_from(value: &str) -> (r: Result<Fragment, InvalidFragment>)
        ensures
            r is Ok <==> valid_fragment(value.spec_bytes()),
            r matches Ok(f) ==> f@ == value.spec_bytes(),
            r matches Err(e) ==> e == first_error(value.spec_bytes()),
    {
        Fragment::try_from_bytes(value.as_bytes())
    }

    /// The stored text, exactly as validated.
    pub fn as_str(&self) -> (r: &str)
        ensures
            r.spec_bytes() == self@,
            valid_fragment(self@),
    {
        proof {
            use_type_invariant(&*self);
        }
        self.fragment.as_str()
    }

    /// The stored bytes, exactly as validated.
    pub fn as_bytes(&self) -> (r: &[u8])
        ensures
            r@ == self@,
            valid_fragment(self@),
    {
        proof {
            use_type_invariant(&*self);
        }
        self.fragment.as_str().as_bytes()
    }

    /// Returns a fragment that owns its text outright, with identical
    /// content and normalization state. A fragment always owns its text, so
    /// the value is returned unchanged.
    pub fn into_owned(self) -> (r: Fragment)
        ensures
            r == self,
    {
        self
    }

    /// The stored text as an owned string, byte for byte.
    pub fn into_string(self) -> (r: String)
        ensures
            encode_utf8(r@) == self@,
    {
        self.fragment
    }

    /// Whether the stored text is already canonical: no triplet uses a
    /// lowercase hex digit, and no triplet encodes an unreserved byte.
    pub fn is_normalized(&self) -> (r: bool)
        ensures
            r == normalized_flag(self@),
            valid_fragment(self@),
    {
        proof {
            use_type_invariant(&*self);
        }
        self.normalized
    }

    /// Rewrite the stored text into canonical form: uppercase the hex digits
    /// of every triplet and unescape every triplet that encodes an
    /// unreserved byte. Does nothing when the text is already canonical.
    pub fn normalize(&mut self)
        ensures
            final(self)@ == canonical(old(self)@),
            normalized_flag(final(self)@),
    {
        proof {
            use_type_invariant(&*self);
        }
        if !self.normalized {
            proof {
                lemma_canonical_valid(self@);
                lemma_canonical_normalized(self@);
                lemma_valid_ascii(canonical(self@));
            }
            let out = normalize_bytes(self.fragment.as_str().as_bytes());
            let text = ascii_to_string(out.as_slice());
            proof {
                lemma_ascii_chars_encode(text@, out@);
            }
            *self = Fragment { fragment: text, normalized: true };
        } else {
            proof {
                lemma_normalized_canonical_identity(self@);
            }
        }
    }

    /// Encoding-aware comparison against raw bytes: true when every escape
    /// in `other` is well formed and the decoded streams are equal.
    pub fn eq_bytes(&self, other: &[u8]) -> (r: bool)
        ensures
            r == percent_eq(self@, other@),
    {
        percent_encoded_equality(self.fragment.as_str().as_bytes(), other)
    }

    /// Encoding-aware comparison against text, over the text's bytes.
    pub fn eq_str(&self, other: &str) -> (r: bool)
        ensures
            r == percent_eq(self@, other.spec_bytes()),
    {
        percent_encoded_equality(self.fragment.as_str().as_bytes(), other.as_bytes())
    }

    /// The encoding-aware hash of this fragment: the 64-bit FNV-1a hash of
    /// its decoded byte stream. Fragments that compare equal hash alike,
    /// whatever percent-encoding spelling each one uses.
    pub fn hash_value(&self) -> (r: u64)
        ensures
            r == hash_fold(decoded(self@)),
    {
        percent_encoded_hash(self.fragment.as_str().as_bytes())
    }
}

impl View for Fragment {
    type V = Seq<u8>;

    /// The bytes of the stored text.
    closed spec fn view(&self) -> Seq<u8> {
        encode_utf8(self.fragment@)
    }
}

impl Clone for Fragment {
    /// A clone keeps the text and the normalization flag.
    fn clone(&self) -> (r: Fragment)
        ensures
            r == *self,
    {
        proof {
            use_type_invariant(&*self);
        }
        Fragment { fragment: self.fragment.clone(), normalized: self.normalized }
    }
}

impl PartialEq for Fragment {
    /// Two fragments are equal exactly when their decoded byte streams are
    /// equal: percent-encoding spelling plays no role, case outside an
    /// escape does.
    fn eq(&self, other: &Fragment) -> (r: bool)
        ensures
            r == (decoded(self@) == decoded(other@)),
    {
        proof {
            use_type_invariant(&*self);
            use_type_invariant(&*other);
            lemma_valid_escapes_wf(self@);
            lemma_valid_escapes_wf(other@);
        }
        percent_encoded_equality(
            self.fragment.as_str().as_bytes(),
            other.fragment.as_str().as_bytes(),
        )
    }
}

impl vstd::std_specs::cmp::PartialEqSpecImpl for Fragment {
    open spec fn obeys_eq_spec() -> bool {
        true
    }

    open spec fn eq_spec(&self, other: &Fragment) -> bool {
        decoded(self@) == decoded(other@)
    }
}

impl<'a> PartialEq<&'a str> for Fragment {
    /// Encoding-aware comparison against text, as an operator.
    fn eq(&self, other: &&'a str) -> (r: bool)
        ensures
            r == percent_eq(self@, other.spec_bytes()),
    {
        self.eq_str(*other)
    }
}

impl<'a> vstd::std_specs::cmp::PartialEqSpecImpl<&'a str> for Fragment {
    open spec fn obeys_eq_spec() -> bool {
        true
    }

    open spec fn eq_spec(&self, other: &&'a str) -> bool {
        percent_eq(self@, other.spec_bytes())
    }
}

impl<'a> PartialEq<&'a [u8]> for Fragment {
    /// Encoding-aware comparison against raw bytes, as an operator.
    fn eq(&self, other: &&'a [u8]) -> (r: bool)
        ensures
            r == percent_eq(self@, other@),
    {
        self.eq_bytes(*other)
    }
}

impl<'a> vstd::std_specs::cmp::PartialEqSpecImpl<&'a [u8]> for Fragment {
    open spec fn obeys_eq_spec() -> bool {
        true
    }

    open spec fn eq_spec(&self, other: &&'a [u8]) -> bool {
        percent_eq(self@, other@)
    }
}

impl Eq for Fragment {}

} // verus!
