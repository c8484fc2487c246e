//! Validation, canonicalization, and encoding-aware comparison for the
//! fragment component of a URI (RFC 3986, section 3.5).
//!
//! A [`Fragment`] stores the text it was validated from byte for byte, plus a
//! flag that says whether the text is already in canonical form. Equality and
//! hashing look through percent-encoding: `"fragment"` and `"fr%61gment"` are
//! the same fragment, while `"Fragment"` and `"fragment"` are not.

pub mod fragment;
pub mod grammar;
pub mod laws;
pub mod utility;

pub use crate::fragment::Fragment;
pub use crate::fragment::InvalidFragment;
