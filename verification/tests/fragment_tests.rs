use uri_fragment::Fragment;
use uri_fragment::InvalidFragment;

#[test]
fn verbatim_preservation() {
    let fragment = Fragment::try_from("fr%61gment").unwrap();
    assert_eq!(fragment.as_str(), "fr%61gment");
    assert_eq!(fragment.as_bytes(), b"fr%61gment");
    assert!(fragment.as_str() != "fragment");
}

#[test]
fn empty_fragment_is_valid_and_normalized() {
    let fragment = Fragment::try_from("").unwrap();
    assert_eq!(fragment.as_str(), "");
    assert!(fragment.is_normalized());
}

#[test]
fn encoding_invariant_equality() {
    let plain = Fragment::try_from("fragment").unwrap();
    let escaped = Fragment::try_from("fr%61gment").unwrap();
    assert_eq!(plain, escaped);
    assert_eq!(escaped, plain);
    let capitalized = Fragment::try_from("Fragment").unwrap();
    assert_ne!(plain, capitalized);
    assert_ne!(capitalized, plain);
}

#[test]
fn equality_against_text_and_bytes() {
    let fragment = Fragment::try_from("fr%61gment").unwrap();
    assert!(fragment.eq_str("fragment"));
    assert!(fragment.eq_str("fr%61gment"));
    assert!(fragment.eq_bytes(b"fragment"));
    assert!(fragment.eq_bytes(b"fr%61gment"));
    assert!(!fragment.eq_str("Fragment"));
    assert!(!fragment.eq_bytes(b"fr%zzgment"));
    assert!(fragment == "fragment");
    assert!(fragment == "fr%61gment");
    assert!(fragment != "Fragment");
    assert!(fragment == b"fragment".as_slice());
    assert!(fragment != b"Fragment".as_slice());
}

#[test]
fn hash_equality_consistency() {
    let plain = Fragment::try_from("fragment").unwrap();
    let escaped = Fragment::try_from("fr%61gment").unwrap();
    assert_eq!(plain, escaped);
    assert_eq!(plain.hash_value(), escaped.hash_value());

    let upper = Fragment::try_from("%2F").unwrap();
    let lower = Fragment::try_from("%2f").unwrap();
    assert_eq!(upper, lower);
    assert_eq!(upper.hash_value(), lower.hash_value());
}

#[test]
fn normalization_idempotence() {
    let mut fragment = Fragment::try_from("fr%61gment%2f").unwrap();
    assert!(!fragment.is_normalized());
    fragment.normalize();
    assert!(fragment.is_normalized());
    let once = String::from(fragment.as_str());
    fragment.normalize();
    assert!(fragment.is_normalized());
    assert_eq!(fragment.as_str(), once);
}

#[test]
fn normalization_preserves_decoded_meaning() {
    let fragment = Fragment::try_from("fr%61gment%2f").unwrap();
    let mut normalized = fragment.clone();
    normalized.normalize();
    assert_eq!(fragment, normalized);
    assert_eq!(fragment.hash_value(), normalized.hash_value());
}

#[test]
fn unreserved_byte_unescaping() {
    let mut fragment = Fragment::try_from("fr%61gment").unwrap();
    assert!(!fragment.is_normalized());
    fragment.normalize();
    assert_eq!(fragment.as_str(), "fragment");
    assert!(fragment.is_normalized());
}

#[test]
fn unreserved_escape_with_uppercase_hex_is_not_normalized() {
    // An escape of an unreserved byte is never canonical, whatever the case
    // of its hex digits.
    let mut fragment = Fragment::try_from("%2E").unwrap();
    assert!(!fragment.is_normalized());
    fragment.normalize();
    assert_eq!(fragment.as_str(), ".");
}

#[test]
fn case_only_hex_normalization() {
    let mut fragment = Fragment::try_from("%2f").unwrap();
    assert!(!fragment.is_normalized());
    fragment.normalize();
    assert_eq!(fragment.as_str(), "%2F");

    let already = Fragment::try_from("%2F").unwrap();
    assert!(already.is_normalized());
}

#[test]
fn malformed_escape_rejection() {
    assert_eq!(
        Fragment::try_from("fr%zzgment").unwrap_err(),
        InvalidFragment::InvalidPercentEncoding
    );
    assert_eq!(
        Fragment::try_from("fr%6").unwrap_err(),
        InvalidFragment::InvalidPercentEncoding
    );
    assert_eq!(
        Fragment::try_from("%").unwrap_err(),
        InvalidFragment::InvalidPercentEncoding
    );
}

#[test]
fn illegal_character_rejection() {
    assert_eq!(
        Fragment::try_from("frag ment").unwrap_err(),
        InvalidFragment::InvalidCharacter
    );
    assert_eq!(
        Fragment::try_from("frag#ment").unwrap_err(),
        InvalidFragment::InvalidCharacter
    );
    assert_eq!(
        Fragment::try_from("caf\u{e9}").unwrap_err(),
        InvalidFragment::InvalidCharacter
    );
}

#[test]
fn first_error_wins() {
    // The scan is left to right: the space comes before the bad escape.
    assert_eq!(
        Fragment::try_from("a b%zz").unwrap_err(),
        InvalidFragment::InvalidCharacter
    );
    assert_eq!(
        Fragment::try_from("a%zzb ").unwrap_err(),
        InvalidFragment::InvalidPercentEncoding
    );
}

#[test]
fn validation_is_total_over_single_bytes() {
    // Every single byte either validates or yields one of the two error
    // kinds; no byte can panic the scan.
    let mut accepted = 0u32;
    for b in 0u8..=255 {
        match Fragment::try_from_bytes(&[b]) {
            Ok(fragment) => {
                assert_eq!(fragment.as_bytes(), &[b]);
                accepted += 1;
            }
            Err(InvalidFragment::InvalidCharacter) => {}
            Err(InvalidFragment::InvalidPercentEncoding) => {
                assert_eq!(b, b'%');
            }
        }
    }
    // RFC 3986 allows 81 bare fragment bytes: unreserved (66), sub-delims
    // (11), and ":", "@", "/", "?"; a lone "%" is a truncated escape.
    assert_eq!(accepted, 81);
}

#[test]
fn into_owned_keeps_content_and_state() {
    let fragment = Fragment::try_from("fr%61gment").unwrap();
    let copy = fragment.clone();
    let owned = fragment.into_owned();
    assert_eq!(owned.as_str(), "fr%61gment");
    assert_eq!(owned.is_normalized(), copy.is_normalized());
    assert_eq!(owned, copy);
}

#[test]
fn into_string_materializes_the_text() {
    let fragment = Fragment::try_from("fr%61gment").unwrap();
    let text = fragment.into_string();
    assert_eq!(text, "fr%61gment");
}

#[test]
fn error_descriptions_are_stable() {
    assert_eq!(
        InvalidFragment::InvalidCharacter.description(),
        "invalid fragment character"
    );
    assert_eq!(
        InvalidFragment::InvalidPercentEncoding.description(),
        "invalid fragment percent encoding"
    );
}
