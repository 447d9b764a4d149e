use base64::engine::general_purpose::STANDARD;
use base64::Engine;
use hmac::{Mac, SimpleHmac};
use session_token::claim::Claim;
use session_token::codec::{sign_claim, verify_token, TokenError};
use session_token::store::Key;

const EXPECTED: &str = "AQIDBAUGBwgJCgsMDQ4PEAECAwQFBgcIAQ==.iVe5P0Y3NynT3hsvuiQYcOP195fKDCg1WJqnHmwg+8o=";

fn sample() -> Claim {
    Claim {
        id: [1, 2, 3, 4, 5, 6, 7, 8, 9, 10, 11, 12, 13, 14, 15, 16],
        expires: 0x0102030405060708,
        is_admin: true,
    }
}

fn key(fill: u8, expires: u64) -> Key {
    Key { bytes: [fill; 32], expires }
}

#[test]
fn sign_claim_exact_token() {
    assert_eq!(sign_claim(&sample(), &[7u8; 32]), EXPECTED);
}

#[test]
fn verify_token_accepts_signed() {
    let keys = vec![key(7, 1000)];
    assert_eq!(verify_token(EXPECTED, &keys, 999), Ok(sample()));
}

#[test]
fn verify_token_tries_every_unexpired_key() {
    let keys = vec![key(7, 1000), key(8, 2000), key(9, 3000)];
    assert_eq!(verify_token(EXPECTED, &keys, 999), Ok(sample()));
    let newest_first = sign_claim(&sample(), &[9u8; 32]);
    assert_eq!(verify_token(&newest_first, &keys, 999), Ok(sample()));
}

#[test]
fn verify_token_skips_expired_key() {
    let keys = vec![key(7, 1000), key(8, 2000)];
    assert_eq!(verify_token(EXPECTED, &keys, 1000), Err(TokenError::BadSignature));
}

#[test]
fn verify_token_wrong_key() {
    let keys = vec![key(8, 1000)];
    assert_eq!(verify_token(EXPECTED, &keys, 10), Err(TokenError::BadSignature));
    assert_eq!(verify_token(EXPECTED, &Vec::new(), 10), Err(TokenError::BadSignature));
}

#[test]
fn verify_token_expired_claim() {
    let c = Claim { id: [3; 16], expires: 500, is_admin: false };
    let keys = vec![key(7, 1000)];
    let t = sign_claim(&c, &[7u8; 32]);
    assert_eq!(verify_token(&t, &keys, 499), Ok(c));
    assert_eq!(verify_token(&t, &keys, 500), Err(TokenError::Expired));
    assert_eq!(verify_token(&t, &keys, 501), Err(TokenError::Expired));
}

#[test]
fn verify_token_malformed_shapes() {
    let keys = vec![key(7, 1000)];
    for t in ["", "abc", "AQID", "a.b.c", "..", &format!("{}.", EXPECTED), &format!(".{}", EXPECTED)] {
        assert_eq!(verify_token(t, &keys, 10), Err(TokenError::Malformed), "{}", t);
    }
    // Two empty segments are valid (empty) base64: only the signature fails.
    assert_eq!(verify_token(".", &keys, 10), Err(TokenError::BadSignature));
}

#[test]
fn verify_token_bad_base64() {
    let keys = vec![key(7, 1000)];
    let (a, b) = EXPECTED.split_once('.').unwrap();
    assert_eq!(verify_token(&format!("{}!.{}", a, b), &keys, 10), Err(TokenError::Malformed));
    assert_eq!(verify_token(&format!("{}.{}=", a, b), &keys, 10), Err(TokenError::Malformed));
    assert_eq!(verify_token(&format!("{}.{}", a, &b[..b.len() - 1]), &keys, 10), Err(TokenError::Malformed));
}

#[test]
fn verify_token_signed_garbage_claim() {
    // A correctly signed payload that is not the binary form of a claim.
    let payload = b"not a claim";
    let mut mac = SimpleHmac::<sha2::Sha256>::new_from_slice(&[7u8; 32]).unwrap();
    mac.update(payload);
    let sig = mac.finalize().into_bytes();
    let t = format!("{}.{}", STANDARD.encode(payload), STANDARD.encode(sig));
    let keys = vec![key(7, 1000)];
    assert_eq!(verify_token(&t, &keys, 10), Err(TokenError::Malformed));
}

fn flip_bit(s: &str, index: usize, bit: u8) -> String {
    let mut bytes = s.as_bytes().to_vec();
    bytes[index] ^= 1 << bit;
    String::from_utf8_lossy(&bytes).into_owned()
}

#[test]
fn signature_bit_flips_refused() {
    let keys = vec![key(7, 1000)];
    let dot = EXPECTED.find('.').unwrap();
    for index in dot + 1..EXPECTED.len() {
        for bit in 0..8 {
            let t = flip_bit(EXPECTED, index, bit);
            assert!(verify_token(&t, &keys, 10).is_err(), "{}", t);
        }
    }
}

#[test]
fn payload_bit_flips_refused() {
    let keys = vec![key(7, 1000)];
    let dot = EXPECTED.find('.').unwrap();
    for index in 0..dot {
        for bit in 0..8 {
            let t = flip_bit(EXPECTED, index, bit);
            assert!(verify_token(&t, &keys, 10).is_err(), "{}", t);
        }
    }
}
