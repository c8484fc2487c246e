use uri_fragment::utility::decoded_bytes;
use uri_fragment::utility::get_percent_encoded_value;
use uri_fragment::utility::normalize_bytes;
use uri_fragment::utility::percent_encoded_equality;
use uri_fragment::utility::percent_encoded_hash;

#[test]
fn triplet_decoding() {
    assert_eq!(get_percent_encoded_value(Some(b'4'), Some(b'1')), Ok((0x41, true)));
    assert_eq!(get_percent_encoded_value(Some(b'2'), Some(b'0')), Ok((0x20, true)));
    assert_eq!(get_percent_encoded_value(Some(b'6'), Some(b'a')), Ok((0x6A, false)));
    assert_eq!(get_percent_encoded_value(Some(b'A'), Some(b'f')), Ok((0xAF, false)));
    assert_eq!(get_percent_encoded_value(Some(b'z'), Some(b'1')), Err(()));
    assert_eq!(get_percent_encoded_value(Some(b'4'), None), Err(()));
    assert_eq!(get_percent_encoded_value(None, Some(b'4')), Err(()));
    assert_eq!(get_percent_encoded_value(None, None), Err(()));
}

#[test]
fn normalize_bytes_uppercases_and_unescapes() {
    assert_eq!(normalize_bytes(b"%2f%61x"), b"%2Fax".to_vec());
    assert_eq!(normalize_bytes(b"abc"), b"abc".to_vec());
    assert_eq!(normalize_bytes(b"%7e%2D"), b"~-".to_vec());
}

#[test]
fn decoded_bytes_resolves_triplets() {
    assert_eq!(decoded_bytes(b"fr%61%2Fx"), b"fra/x".to_vec());
    assert_eq!(decoded_bytes(b""), b"".to_vec());
    // A malformed escape is kept literally by the decoded stream.
    assert_eq!(decoded_bytes(b"%zz"), b"%zz".to_vec());
}

#[test]
fn lockstep_equality_decodes_both_sides() {
    assert!(percent_encoded_equality(b"a%20b", b"a b"));
    assert!(percent_encoded_equality(b"%41", b"A"));
    assert!(percent_encoded_equality(b"%2f", b"%2F"));
    assert!(!percent_encoded_equality(b"%41", b"a"));
    assert!(!percent_encoded_equality(b"a", b"ab"));
    // A malformed escape makes the comparison false even for itself.
    assert!(!percent_encoded_equality(b"%zz", b"%zz"));
}

#[test]
fn hash_follows_the_decoded_stream() {
    assert_eq!(percent_encoded_hash(b"%61"), percent_encoded_hash(b"a"));
    assert_eq!(percent_encoded_hash(b"fr%61gment"), percent_encoded_hash(b"fragment"));
    assert_ne!(percent_encoded_hash(b"a"), percent_encoded_hash(b"b"));
}
