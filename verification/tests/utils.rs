use git_objects::errors::{DecodeError, FormatError};
use git_objects::types::{Header, ObjectId, ObjectType};
use git_objects::utils::{
    ensure_valid_sha1, get_path_from_hash, parse_content_raw_bytes, strip_header, zlib_decode,
};

#[test]
fn should_pass_sha1_is_correct() {
    let result = ensure_valid_sha1("e3cf93f814459d888602bea15035f348f6208e8c");
    assert!(result.is_ok());
}

#[test]
fn should_fail_sha1_is_too_short() {
    let result = ensure_valid_sha1("e3cf93f814459d888602bea15035f348f6208e8");
    assert!(result.is_err());
}

#[test]
fn should_fail_sha1_is_too_long() {
    let result = ensure_valid_sha1("e3cf93f814459d888602bea15035f348f6208e8ce");
    assert!(result.is_err());
}

#[test]
fn should_fail_sha1_contains_non_hex_char() {
    let result = ensure_valid_sha1("g3cf93f814459d888602bea15035f348f6208e8");
    assert!(result.is_err());
}

#[test]
fn sha1_with_non_hex_char_at_full_length_fails() {
    let result = ensure_valid_sha1("g88f7a929cd70b0274c4ea33b209c97fa845fdbc");
    assert!(result.is_err());
}

#[test]
fn sha1_refusal_quotes_the_text() {
    let error = ensure_valid_sha1("e88f7a").unwrap_err();
    assert_eq!(error.text, "e88f7a");
    assert_eq!(error.message(), "invalid object id 'e88f7a'");
}

#[test]
fn sha1_may_be_of_either_case() {
    assert!(ensure_valid_sha1("E88F7A929CD70B0274C4EA33B209C97FA845FDBC").is_ok());
    assert!(ensure_valid_sha1("e88f7a929cd70b0274c4EA33B209C97FA845FDBC").is_ok());
    assert!(ensure_valid_sha1("0123456789abcdefABCDEF0123456789abcdefAB").is_ok());
}

#[test]
fn sha1_with_a_character_next_to_the_digits_fails() {
    assert!(ensure_valid_sha1("/88f7a929cd70b0274c4ea33b209c97fa845fdbc").is_err());
    assert!(ensure_valid_sha1(":88f7a929cd70b0274c4ea33b209c97fa845fdbc").is_err());
    assert!(ensure_valid_sha1("@88f7a929cd70b0274c4ea33b209c97fa845fdbc").is_err());
    assert!(ensure_valid_sha1("G88f7a929cd70b0274c4ea33b209c97fa845fdbc").is_err());
    assert!(ensure_valid_sha1("`88f7a929cd70b0274c4ea33b209c97fa845fdbc").is_err());
    assert!(ensure_valid_sha1("e88f7a929cd70b0274c4ea33b209c97fa845fdb ").is_err());
}

#[test]
fn sha1_of_forty_bytes_that_are_not_forty_characters_fails() {
    // thirty-eight digits and one character of two bytes
    let text = "e88f7a929cd70b0274c4ea33b209c97fa845fd\u{e9}";
    assert_eq!(text.len(), 40);
    assert!(ensure_valid_sha1(text).is_err());
}

#[test]
fn empty_sha1_fails() {
    assert!(ensure_valid_sha1("").is_err());
}

#[test]
fn path_has_two_levels() {
    let id = ObjectId::validate("e88f7a929cd70b0274c4ea33b209c97fa845fdbc").unwrap();
    let path = get_path_from_hash(&id).unwrap();
    assert_eq!(path, ".git/objects/e8/8f7a929cd70b0274c4ea33b209c97fa845fdbc");
}

#[test]
fn path_of_another_object() {
    let id = ObjectId::validate("0123456789abcdef0123456789abcdef01234567").unwrap();
    let path = get_path_from_hash(&id).unwrap();
    assert_eq!(path, ".git/objects/01/23456789abcdef0123456789abcdef01234567");
}

#[test]
fn decode_reads_a_zlib_stream() {
    let stream: [u8; 19] =
        [120, 156, 75, 202, 201, 79, 82, 48, 97, 72, 76, 74, 78, 1, 0, 21, 92, 3, 126];
    assert_eq!(zlib_decode(&stream), Ok(b"blob 4\0abcd".to_vec()));
}

#[test]
fn decode_of_a_stream_cut_short_is_truncated() {
    let stream: [u8; 19] =
        [120, 156, 75, 202, 201, 79, 82, 48, 97, 72, 76, 74, 78, 1, 0, 21, 92, 3, 126];
    assert_eq!(zlib_decode(&stream[..10]), Err(DecodeError::Truncated));
    assert_eq!(zlib_decode(&stream[..2]), Err(DecodeError::Truncated));
}

#[test]
fn decode_of_nothing_is_truncated() {
    assert_eq!(zlib_decode(&[]), Err(DecodeError::Truncated));
}

#[test]
fn decode_of_other_bytes_is_corrupt() {
    assert_eq!(zlib_decode(b"this is no zlib stream"), Err(DecodeError::Corrupt));
}

#[test]
fn decode_of_a_stream_with_a_wrong_checksum_is_corrupt() {
    let stream: [u8; 19] =
        [120, 156, 75, 202, 201, 79, 82, 48, 97, 72, 76, 74, 78, 1, 0, 21, 92, 3, 127];
    assert_eq!(zlib_decode(&stream), Err(DecodeError::Corrupt));
}

#[test]
fn strip_header_gives_what_follows_the_first_nul() {
    assert_eq!(strip_header("blob 4\0abcd"), Ok(String::from("abcd")));
    assert_eq!(strip_header("blob 5\0ab\0cd"), Ok(String::from("ab\0cd")));
    assert_eq!(strip_header("\0"), Ok(String::new()));
}

#[test]
fn strip_header_counts_characters_not_bytes() {
    assert_eq!(strip_header("bl\u{e9}b\0\u{e9}t\u{e9}"), Ok(String::from("\u{e9}t\u{e9}")));
}

#[test]
fn strip_header_without_nul_fails() {
    assert_eq!(strip_header("blob 4 abcd"), Err(FormatError::MissingHeader));
    assert_eq!(strip_header(""), Err(FormatError::MissingHeader));
}

#[test]
fn envelope_is_parted_into_header_and_payload() {
    let (header, payload) = parse_content_raw_bytes(b"blob 4\0abcd").unwrap();
    assert_eq!(header, Header::new(ObjectType::Blob, 4));
    assert_eq!(header.object_type, ObjectType::Blob);
    assert_eq!(header.size, 4);
    assert_eq!(payload, b"abcd".to_vec());
}

#[test]
fn envelope_of_a_tree() {
    let (header, payload) = parse_content_raw_bytes(b"tree 0\0").unwrap();
    assert_eq!(header, Header { object_type: ObjectType::Tree, size: 0 });
    assert!(payload.is_empty());
}

#[test]
fn payload_may_hold_nul_bytes() {
    let (header, payload) = parse_content_raw_bytes(b"blob 5\0a\0b\0c").unwrap();
    assert_eq!(header.size, 5);
    assert_eq!(payload, b"a\0b\0c".to_vec());
}

#[test]
fn declared_size_is_not_held_against_the_payload() {
    let (header, payload) = parse_content_raw_bytes(b"blob 100\0abcd").unwrap();
    assert_eq!(header.size, 100);
    assert_eq!(payload, b"abcd".to_vec());
}

#[test]
fn size_may_have_leading_zeros() {
    let (header, _) = parse_content_raw_bytes(b"blob 007\0abcdefg").unwrap();
    assert_eq!(header.size, 7);
}

#[test]
fn size_may_have_a_plus_sign() {
    let (header, payload) = parse_content_raw_bytes(b"blob +4\0abcd").unwrap();
    assert_eq!(header.size, 4);
    assert_eq!(payload, b"abcd".to_vec());
}

#[test]
fn envelope_without_nul_has_no_header() {
    assert_eq!(parse_content_raw_bytes(b"blob 4 abcd"), Err(FormatError::MissingHeader));
    assert_eq!(parse_content_raw_bytes(b""), Err(FormatError::MissingHeader));
}

#[test]
fn header_without_space_is_malformed() {
    assert_eq!(parse_content_raw_bytes(b"blob4\0abcd"), Err(FormatError::MalformedHeader));
    assert_eq!(parse_content_raw_bytes(b"\0abcd"), Err(FormatError::MalformedHeader));
}

#[test]
fn header_with_a_size_that_is_no_number_is_malformed() {
    assert_eq!(parse_content_raw_bytes(b"blob four\0abcd"), Err(FormatError::MalformedHeader));
    assert_eq!(parse_content_raw_bytes(b"blob \0abcd"), Err(FormatError::MalformedHeader));
    assert_eq!(parse_content_raw_bytes(b"blob -4\0abcd"), Err(FormatError::MalformedHeader));
    assert_eq!(parse_content_raw_bytes(b"blob +\0abcd"), Err(FormatError::MalformedHeader));
    assert_eq!(parse_content_raw_bytes(b"blob ++4\0abcd"), Err(FormatError::MalformedHeader));
    assert_eq!(parse_content_raw_bytes(b"blob 4+\0abcd"), Err(FormatError::MalformedHeader));
    assert_eq!(parse_content_raw_bytes(b"blob 0x4\0abcd"), Err(FormatError::MalformedHeader));
    assert_eq!(parse_content_raw_bytes(b"blob 4_0\0abcd"), Err(FormatError::MalformedHeader));
    assert_eq!(parse_content_raw_bytes(b"blob 4 \0abcd"), Err(FormatError::MalformedHeader));
    assert_eq!(parse_content_raw_bytes(b"blob  4\0abcd"), Err(FormatError::MalformedHeader));
}

#[test]
fn header_with_a_size_that_does_not_fit_is_malformed() {
    assert_eq!(
        parse_content_raw_bytes(b"blob 340282366920938463463374607431768211456\0"),
        Err(FormatError::MalformedHeader)
    );
}

#[test]
fn header_with_the_largest_size_is_read() {
    let text = format!("blob {}\0", usize::MAX);
    let (header, _) = parse_content_raw_bytes(text.as_bytes()).unwrap();
    assert_eq!(header.size, usize::MAX);
}

#[test]
fn header_of_another_kind_is_unknown() {
    assert_eq!(parse_content_raw_bytes(b"commit 4\0abcd"), Err(FormatError::UnknownKind));
    assert_eq!(parse_content_raw_bytes(b"Blob 4\0abcd"), Err(FormatError::UnknownKind));
    assert_eq!(parse_content_raw_bytes(b" 4\0abcd"), Err(FormatError::UnknownKind));
}

#[test]
fn unknown_kind_is_reported_before_a_bad_size() {
    assert_eq!(parse_content_raw_bytes(b"tag x\0abcd"), Err(FormatError::UnknownKind));
}
