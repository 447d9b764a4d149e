use session_token::claim::{Claim, CLAIM_LEN, TOKEN_DURATION};

fn sample() -> Claim {
    Claim {
        id: [1, 2, 3, 4, 5, 6, 7, 8, 9, 10, 11, 12, 13, 14, 15, 16],
        expires: 0x0102030405060708,
        is_admin: true,
    }
}

#[test]
fn claim_bytes_layout() {
    let bytes = sample().to_bytes();
    assert_eq!(bytes.len(), CLAIM_LEN);
    assert_eq!(
        bytes,
        vec![1, 2, 3, 4, 5, 6, 7, 8, 9, 10, 11, 12, 13, 14, 15, 16, 1, 2, 3, 4, 5, 6, 7, 8, 1]
    );
}

#[test]
fn claim_bytes_round_trip() {
    let c = sample();
    assert_eq!(Claim::from_bytes(&c.to_bytes()), Some(c));
    let guest = Claim { id: [0xff; 16], expires: u64::MAX, is_admin: false };
    let bytes = guest.to_bytes();
    assert_eq!(bytes[24], 0);
    assert_eq!(Claim::from_bytes(&bytes), Some(guest));
}

#[test]
fn claim_bytes_refuses_bad_input() {
    let mut bytes = sample().to_bytes();
    bytes[24] = 2;
    assert_eq!(Claim::from_bytes(&bytes), None);
    assert_eq!(Claim::from_bytes(&bytes[..24]), None);
    assert_eq!(Claim::from_bytes(&[]), None);
    let mut longer = sample().to_bytes();
    longer.push(0);
    assert_eq!(Claim::from_bytes(&longer), None);
}

#[test]
fn token_duration_is_two_days() {
    assert_eq!(TOKEN_DURATION, 172800);
}
