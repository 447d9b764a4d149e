use session_token::store::{Key, Secret, KEY_LIFETIME};

const T0: u64 = 1_700_000_000;
const DAY: u64 = 86400;

#[test]
fn key_lifetime_is_four_days() {
    assert_eq!(KEY_LIFETIME, 345600);
}

#[test]
fn key_generate_sets_expiry() {
    let a = Key::generate(42);
    let b = Key::generate(42);
    assert_eq!(a.expires, 42);
    assert_ne!(a.bytes, b.bytes);
}

#[test]
fn secret_new_is_empty() {
    assert!(Secret::new().keys.is_empty());
}

#[test]
fn rotate_mints_first_key() {
    let mut s = Secret::new();
    let k = s.rotate(T0, T0 + 2 * DAY);
    assert_eq!(k.expires, T0 + KEY_LIFETIME);
    assert_eq!(s.keys.len(), 1);
    assert_eq!(s.keys[0].bytes, k.bytes);
}

#[test]
fn rotate_reuses_covering_key() {
    let mut s = Secret::new();
    let k1 = s.rotate(T0, T0 + 2 * DAY);
    let k2 = s.rotate(T0 + DAY, T0 + 3 * DAY);
    assert_eq!(k1.bytes, k2.bytes);
    assert_eq!(s.keys.len(), 1);
}

#[test]
fn rotate_mints_when_claim_outlives_key() {
    let mut s = Secret::new();
    let k1 = s.rotate(T0, T0 + 2 * DAY);
    let k2 = s.rotate(T0 + DAY, T0 + 5 * DAY);
    assert_ne!(k1.bytes, k2.bytes);
    assert_eq!(k2.expires, T0 + DAY + KEY_LIFETIME);
    assert_eq!(s.keys.len(), 2);
    assert_eq!(s.keys[0].bytes, k1.bytes);
    assert_eq!(s.keys[1].bytes, k2.bytes);
}

#[test]
fn rotate_keeps_key_that_outlasts_any_fresh_one() {
    let mut s = Secret::new();
    let k1 = s.rotate(T0, T0 + 2 * DAY);
    // No fresh key would expire later than the current one: keep it.
    let k2 = s.rotate(T0, T0 + 10 * DAY);
    assert_eq!(k1.bytes, k2.bytes);
    assert_eq!(s.keys.len(), 1);
}

#[test]
fn rotate_prunes_expired_keys() {
    let mut s = Secret::new();
    let k1 = s.rotate(T0, T0 + 2 * DAY);
    let k2 = s.rotate(T0 + DAY, T0 + 5 * DAY);
    let k3 = s.rotate(T0 + 4 * DAY, T0 + 5 * DAY);
    assert_eq!(k3.bytes, k2.bytes);
    assert_eq!(s.keys.len(), 1);
    assert_ne!(s.keys[0].bytes, k1.bytes);
    let k4 = s.rotate(T0 + 10 * DAY, T0 + 11 * DAY);
    assert_eq!(s.keys.len(), 1);
    assert_eq!(k4.expires, T0 + 10 * DAY + KEY_LIFETIME);
}

#[test]
fn snapshot_copies_keys_in_order() {
    let mut s = Secret::new();
    s.rotate(T0, T0 + 2 * DAY);
    s.rotate(T0 + DAY, T0 + 5 * DAY);
    let snap = s.snapshot();
    assert_eq!(snap.len(), 2);
    assert_eq!(snap[0].expires, T0 + KEY_LIFETIME);
    assert_eq!(snap[1].expires, T0 + DAY + KEY_LIFETIME);
}
