use chimy2::demo::parse_size;
use chimy2::gltf::base64::decode_base64;
use chimy2::json::{parse, MAX_DEPTH};

#[test]
fn size_rejects_zero_and_junk() {
    assert!(parse_size("0x600").is_err());
    assert!(parse_size("800x0").is_err());
    assert!(parse_size("nope").is_err());
}

#[test]
fn gltf_base64_vectors_decode_without_a_crate() {
    assert_eq!(decode_base64(""), Ok(Vec::new()));
    assert_eq!(decode_base64("SGVsbG8="), Ok(b"Hello".to_vec()));
    assert_eq!(decode_base64("AAEC"), Ok(vec![0, 1, 2]));
    assert!(decode_base64("A===").is_err());
}

#[test]
fn tests_base64_vectors_decode_without_a_crate() {
    assert_eq!(decode_base64(""), Ok(Vec::new()));
    assert_eq!(decode_base64("SGVsbG8="), Ok(b"Hello".to_vec()));
    assert_eq!(decode_base64("AAEC"), Ok(vec![0, 1, 2]));
    assert!(decode_base64("A===").is_err());
}

#[test]
fn malformed_input_returns_offsets() {
    for source in ["", "[", "{\"x\":", "\"\\q\"", "1.", "01", "[1,]"] {
        assert!(parse(source).is_err(), "{source}");
    }
    assert_eq!(parse("[}").unwrap_err().offset, 1);
}

#[test]
fn rejects_deep_nesting_and_huge_numbers() {
    let source = "[".repeat(MAX_DEPTH + 2) + &"]".repeat(MAX_DEPTH + 2);
    assert!(parse(&source).is_err());
    assert!(parse("1e9999").is_err());
}

#[test]
fn nesting_is_counted_by_lists_and_objects() {
    let nested = |levels: usize, inner: &str| "[".repeat(levels) + inner + &"]".repeat(levels);
    assert!(parse(&nested(MAX_DEPTH, "")).is_ok());
    assert!(parse(&nested(MAX_DEPTH, "1")).is_ok());
    let error = parse(&nested(MAX_DEPTH + 1, "")).unwrap_err();
    assert_eq!(error.offset, MAX_DEPTH);
    assert!(parse(&nested(MAX_DEPTH - 1, "{\"a\":1}")).is_ok());
    assert!(parse(&nested(MAX_DEPTH, "{}")).is_err());
}

#[test]
fn base64_texts_are_unique_and_can_be_continued() {
    assert_eq!(decode_base64("AAECSGVsbG8="), Ok(vec![0, 1, 2, 72, 101, 108, 108, 111]));
    assert!(decode_base64("SGVsbG8=AAEC").is_err());
    assert_eq!(decode_base64("AA=="), Ok(vec![0]));
    for other in ["AB==", "AP==", "AAB=", "A", "AAAAA"] {
        assert_ne!(decode_base64(other), Ok(vec![0]));
    }
    assert!(decode_base64("AB==").is_err());
    assert!(decode_base64("AAB=").is_err());
}
