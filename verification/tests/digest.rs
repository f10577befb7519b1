use blip::blob::Blob;
use blip::digest::{hash_at, hash_bytes, hex_digit, DIGEST_INPUT_LIMIT, HASH_LEN};

#[test]
fn hash_of_known_inputs() {
    assert_eq!(hash_bytes(b"hello"), "aaf4c61ddcc5e8a2dabede0f3b482cd9aea9434d");
    assert_eq!(hash_bytes(b"world"), "7c211433f02071597741e6ff5a8ea34789abbf43");
    assert_eq!(hash_bytes(b"abc"), "a9993e364706816aba3e25717850c26c9cd0d89d");
    assert_eq!(hash_bytes(b"hello world"), "2aae6c35c94fcfb415dbe95f408b9ce91ee846ed");
}

#[test]
fn hash_of_no_bytes() {
    assert_eq!(hash_bytes(b""), "da39a3ee5e6b4b0d3255bfef95601890afd80709");
}

#[test]
fn hash_is_not_its_input() {
    let input = b"aaf4c61ddcc5e8a2dabede0f3b482cd9aea9434d";
    assert_ne!(hash_bytes(input).as_bytes(), input);
}

#[test]
fn hash_has_forty_lowercase_hex_digits() {
    for input in [&b""[..], &b"a"[..], &[0u8, 255, 17][..], &b"some longer content\n"[..]] {
        let hash = hash_bytes(input);
        assert_eq!(hash.chars().count(), HASH_LEN);
        assert!(hash.chars().all(hex_digit));
    }
}

#[test]
fn equal_bytes_have_equal_hashes() {
    let a = vec![1u8, 2, 3, 4];
    let b = vec![1u8, 2, 3, 4];
    assert_eq!(hash_bytes(&a), hash_bytes(&b));
    assert_eq!(Blob::new(a).hash(), Blob::new(b).hash());
}

#[test]
fn different_bytes_have_different_hashes() {
    assert_ne!(hash_bytes(b"hello"), hash_bytes(b"hello "));
    assert_ne!(hash_bytes(b"hello"), hash_bytes(b"Hello"));
    assert_ne!(hash_bytes(&[0u8]), hash_bytes(&[0u8, 0u8]));
}

#[test]
fn blob_keeps_its_bytes_and_names_them() {
    let blob = Blob::new(b"hello".to_vec());
    assert_eq!(blob.data(), &b"hello".to_vec());
    assert_eq!(blob.hash(), "aaf4c61ddcc5e8a2dabede0f3b482cd9aea9434d");
}

#[test]
fn hex_digits_are_lowercase() {
    for c in "0123456789abcdef".chars() {
        assert!(hex_digit(c));
    }
    for c in "ABCDEFg/:`G xz\n".chars() {
        assert!(!hex_digit(c));
    }
}

#[test]
fn hash_at_finds_forty_digits() {
    let text: Vec<char> = "xxaaf4c61ddcc5e8a2dabede0f3b482cd9aea9434dyy".chars().collect();
    assert!(hash_at(&text, 2));
    assert!(hash_at(&text, 1) == false);
    assert!(!hash_at(&text, 3));
    assert!(!hash_at(&text, 5));
    assert!(!hash_at(&text, 44));
    assert!(!hash_at(&text, 100));
}

#[test]
fn hash_at_refuses_uppercase_and_short_text() {
    let upper: Vec<char> = "AAF4C61DDCC5E8A2DABEDE0F3B482CD9AEA9434D".chars().collect();
    assert!(!hash_at(&upper, 0));
    let short: Vec<char> = "aaf4c61ddcc5e8a2dabede0f3b482cd9aea9434".chars().collect();
    assert!(!hash_at(&short, 0));
    let exact: Vec<char> = "aaf4c61ddcc5e8a2dabede0f3b482cd9aea9434d".chars().collect();
    assert!(hash_at(&exact, 0));
}

#[test]
fn digest_limit_is_two_to_the_sixty_one() {
    assert_eq!(DIGEST_INPUT_LIMIT, 1u64 << 61);
}
