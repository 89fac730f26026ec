use coreoverlay::algs;
use coreoverlay::hash::{
    calculate_sha1, from_hex, gen_sha1, generate_key_from_string, parse_key, sha1, to_hex, KeyError,
};
use coreoverlay::types::NodeId;

#[test]
fn sha1_test_empty_string() {
    let empty = "";
    assert_eq!(
        calculate_sha1(empty.as_bytes()),
        "da39a3ee5e6b4b0d3255bfef95601890afd80709"
    );
}

#[test]
fn sha1_test_basic_string() {
    let text = "Hello, World!";
    assert_eq!(
        calculate_sha1(text.as_bytes()),
        "0a0a9f2a6772942557ab5355d76af442f8f65e01"
    );
}

#[test]
fn sha1_test_string_type() {
    let text = String::from("Hello, World!");
    assert_eq!(
        calculate_sha1(text.as_bytes()),
        "0a0a9f2a6772942557ab5355d76af442f8f65e01"
    );
}

#[test]
fn sha1_test_different_inputs_produce_different_hashes() {
    let hash1 = calculate_sha1("Hello".as_bytes());
    let hash2 = calculate_sha1("Hello!".as_bytes());
    assert_ne!(hash1, hash2);
}

#[test]
fn sha1_test_same_inputs_produce_same_hashes() {
    let hash1 = calculate_sha1("Hello, World!".as_bytes());
    let hash2 = calculate_sha1("Hello, World!".as_bytes());
    assert_eq!(hash1, hash2);
}

#[test]
fn test_calculate_sha1() {
    let text = "test";
    let hash = algs::calculate_sha1(text);
    assert_eq!(hash, "a94a8fe5ccb19ba61c4c0873d391e987982fbbd3");
}

#[test]
fn test_gen_sha1() {
    let data = "example data";
    let digest = gen_sha1(data);
    assert_eq!(digest, "9fc42adac31303d68b444e6129f13f6093a0e045");
}

#[test]
fn digest_of_five_bytes() {
    let bytes = vec![1u8, 2, 3, 4, 5];
    assert_eq!(
        calculate_sha1(&bytes),
        "11966ab9c099f8fabefac54c08d5be2bd8c903af"
    );
    assert_eq!(
        calculate_sha1(&bytes[..]),
        "11966ab9c099f8fabefac54c08d5be2bd8c903af"
    );
}

#[test]
fn digest_of_a_thousand_letters() {
    let text = "a".repeat(1000);
    assert_eq!(
        calculate_sha1(text.as_bytes()),
        "291e9a6c66994949b57ba5e650361e98fc36b1ba"
    );
}

#[test]
fn digest_of_text_beyond_ascii() {
    let text = "こんにちは、世界！";
    assert_eq!(
        calculate_sha1(text.as_bytes()),
        "0bc1d9f42b737dfeb27949a260b2af7bf26c4727"
    );
    assert_eq!(gen_sha1(text), "0bc1d9f42b737dfeb27949a260b2af7bf26c4727");
}

#[test]
fn digest_has_twenty_bytes_and_is_not_its_input() {
    let data = [7u8; 20];
    let digest = sha1(&data);
    assert_eq!(digest.len(), 20);
    assert_ne!(digest, data);
    assert_eq!(to_hex(&digest), calculate_sha1(&data));
}

#[test]
fn hex_text_of_bytes() {
    assert_eq!(to_hex(&[]), "");
    assert_eq!(to_hex(&[0x00, 0x0f, 0x10, 0xde, 0xad, 0xff]), "000f10deadff");
    assert_eq!(to_hex(&[1, 2, 3, 15, 16]), "0102030f10");
}

#[test]
fn bytes_of_hex_text() {
    assert_eq!(from_hex(b"000f10deadff"), Some(vec![0x00, 0x0f, 0x10, 0xde, 0xad, 0xff]));
    assert_eq!(from_hex(b"DEADbeef"), Some(vec![0xde, 0xad, 0xbe, 0xef]));
    assert_eq!(from_hex(b""), Some(vec![]));
    assert_eq!(from_hex(b"abc"), None);
    assert_eq!(from_hex(b"zz"), None);
    assert_eq!(from_hex(b"0g"), None);
}

#[test]
fn hex_text_read_back_is_the_bytes() {
    let bytes: Vec<u8> = (0..=255u8).collect();
    let text = to_hex(&bytes);
    assert_eq!(text.len(), 512);
    assert_eq!(from_hex(text.as_bytes()), Some(bytes));
}

#[test]
fn key_from_text_is_its_digest() {
    let key = generate_key_from_string("test");
    assert_eq!(to_hex(key.as_bytes()), "a94a8fe5ccb19ba61c4c0873d391e987982fbbd3");
    assert_eq!(key, generate_key_from_string("test"));
    assert_ne!(key, generate_key_from_string("test-2"));
}

#[test]
fn key_from_forty_digits() {
    let key = parse_key("a94a8fe5ccb19ba61c4c0873d391e987982fbbd3").unwrap();
    assert_eq!(key, generate_key_from_string("test"));
    let upper = parse_key("A94A8FE5CCB19BA61C4C0873D391E987982FBBD3").unwrap();
    assert_eq!(upper, key);
    let mut bytes = [0u8; 20];
    bytes[19] = 0x2a;
    assert_eq!(
        parse_key("000000000000000000000000000000000000002a"),
        Ok(NodeId::new(bytes))
    );
}

#[test]
fn key_from_bad_text() {
    assert_eq!(parse_key("xyz"), Err(KeyError::InvalidHex));
    assert_eq!(parse_key("abc"), Err(KeyError::InvalidHex));
    assert_eq!(
        parse_key("a94a8fe5ccb19ba61c4c0873d391e987982fbbdg"),
        Err(KeyError::InvalidHex)
    );
    assert_eq!(parse_key(""), Err(KeyError::InvalidLength));
    assert_eq!(parse_key("abcd"), Err(KeyError::InvalidLength));
    assert_eq!(
        parse_key("a94a8fe5ccb19ba61c4c0873d391e987982fbbd3ff"),
        Err(KeyError::InvalidLength)
    );
}

#[test]
fn test_empty_string() {
    let empty = "";
    assert_eq!(
        calculate_sha1(empty.as_bytes()),
        "da39a3ee5e6b4b0d3255bfef95601890afd80709"
    );
}

#[test]
fn test_different_inputs_produce_different_hashes() {
    let hash1 = calculate_sha1("Hello".as_bytes());
    let hash2 = calculate_sha1("Hello!".as_bytes());
    assert_ne!(hash1, hash2);
}

#[test]
fn test_same_inputs_produce_same_hashes() {
    let hash1 = calculate_sha1("Hello, World!".as_bytes());
    let hash2 = calculate_sha1("Hello, World!".as_bytes());
    assert_eq!(hash1, hash2);
}
