use base64::engine::general_purpose::STANDARD;
use base64::Engine;
use hmac::{Mac, SimpleHmac};
use sha2::Sha256;
use vstd::prelude::*;

use crate::claim::{claim_bytes, claim_from_bytes, lemma_claim_bytes_round_trip, Claim};
use crate::store::Key;

verus! {

/// Why a token was refused.
#[derive(Clone, Copy, Debug, PartialEq, Eq, Structural)]
pub enum TokenError {
    /// Not two base64 segments joined by one `.`, or no claim inside.
    Malformed,
    /// No retained, unexpired key produced this signature.
    BadSignature,
    /// The signature holds, but the claim itself has expired.
    Expired,
}

/// What base64's standard engine writes for `b`.
pub uninterp spec fn b64_of(b: Seq<u8>) -> Seq<char>;

/// What base64's standard engine reads from `s`, if it accepts it.
pub uninterp spec fn b64_decode_of(s: Seq<char>) -> Option<Seq<u8>>;

/// HMAC-SHA256 of `msg` under `key`.
pub uninterp spec fn hmac_of(key: Seq<u8>, msg: Seq<u8>) -> Seq<u8>;

/// A character of base64's standard alphabet, or its padding.
pub open spec fn is_b64_char(c: char) -> bool {
    ('A' <= c && c <= 'Z') || ('a' <= c && c <= 'z') || ('0' <= c && c <= '9') || c == '+' || c
        == '/' || c == '='
}

pub open spec fn is_b64_text(s: Seq<char>) -> bool {
    forall|i: int| 0 <= i < s.len() ==> is_b64_char(#[trigger] s[i])
}

/// Relies on `base64::engine::general_purpose::STANDARD.encode`: padded text over
/// the standard alphabet, which the same engine decodes back to `b`.
#[verifier::external_body]
fn b64_encode(b: &[u8]) -> (r: String)
    ensures
        r@ == b64_of(b@),
        b64_decode_of(r@) == Some(b@),
        is_b64_text(r@),
{
    STANDARD.encode(b)
}

/// Relies on `base64::engine::general_purpose::STANDARD.decode`: with canonical
/// padding required and trailing bits refused, it accepts exactly the text that
/// its `encode` writes for the bytes it returns.
#[verifier::external_body]
fn b64_decode(s: &str) -> (r: Option<Vec<u8>>)
    ensures
        r matches Some(v) ==> b64_decode_of(s@) == Some(v@) && s@ == b64_of(v@),
        r is None ==> b64_decode_of(s@) is None,
{
    STANDARD.decode(s).ok()
}

/// Relies on `hmac::SimpleHmac::<Sha256>`: `new_from_slice` takes a key of any
/// length, so this always returns the 32-byte tag of `msg`.
#[verifier::external_body]
fn hmac_sha256(key: &[u8; 32], msg: &[u8]) -> (r: Option<Vec<u8>>)
    ensures
        r is Some,
        r matches Some(v) ==> v@ == hmac_of(key@, msg@),
{
    let mut mac = match SimpleHmac::<Sha256>::new_from_slice(key) {
        Ok(mac) => mac,
        Err(_) => return None,
    };
    mac.update(msg);
    Some(mac.finalize().into_bytes().to_vec())
}

/// Relies on `hmac::Mac::verify_slice` for `SimpleHmac::<Sha256>`: a constant-time
/// comparison of `tag` with the whole tag of `msg`.
#[verifier::external_body]
fn hmac_sha256_verify(key: &[u8; 32], msg: &[u8], tag: &[u8]) -> (r: bool)
    ensures
        r == (tag@ == hmac_of(key@, msg@)),
{
    match SimpleHmac::<Sha256>::new_from_slice(key) {
        Ok(mut mac) => {
            mac.update(msg);
            mac.verify_slice(tag).is_ok()
        },
        Err(_) => false,
    }
}

/// `s` holds no `.`.
pub open spec fn no_dot(s: Seq<char>) -> bool {
    forall|i: int| 0 <= i < s.len() ==> s[i] != '.'
}

/// Whether `t` has its one and only `.` at position `i`.
pub open spec fn sole_dot_at(t: Seq<char>, i: int) -> bool {
    0 <= i < t.len() && t[i] == '.' && no_dot(t.take(i)) && no_dot(t.skip(i + 1))
}

/// The two segments of a token: the text before and after its only `.`;
/// `None` where `t` holds no `.` or more than one.
pub open spec fn segments(t: Seq<char>) -> Option<(Seq<char>, Seq<char>)> {
    if exists|i: int| sole_dot_at(t, i) {
        let i = choose|i: int| sole_dot_at(t, i);
        Some((t.take(i), t.skip(i + 1)))
    } else {
        None
    }
}

/// The number of `.` in `s`.
pub open spec fn dot_count(s: Seq<char>) -> nat
    decreases s.len(),
{
    if s.len() == 0 {
        0
    } else {
        dot_count(s.drop_last()) + if s.last() == '.' {
            1nat
        } else {
            0nat
        }
    }
}

/// The wire form of claim bytes `m` with signature `s`.
pub open spec fn token_text(m: Seq<u8>, s: Seq<u8>) -> Seq<char> {
    b64_of(m) + seq!['.'] + b64_of(s)
}

/// What the base64 engine guarantees of the two encodings in `token_text(m, s)`.
pub open spec fn framed(m: Seq<u8>, s: Seq<u8>) -> bool {
    &&& b64_decode_of(b64_of(m)) == Some(m)
    &&& b64_decode_of(b64_of(s)) == Some(s)
    &&& is_b64_text(b64_of(m))
    &&& is_b64_text(b64_of(s))
}

/// `t` is the token of claim `c` signed with the secret `key`.
pub open spec fn signed_token(t: Seq<char>, key: Seq<u8>, c: Claim) -> bool {
    let m = claim_bytes(c);
    let s = hmac_of(key, m);
    t == token_text(m, s) && framed(m, s)
}

/// Some key of `keys` that is unexpired at `now` gives `s` as the MAC of `m`.
pub open spec fn accepted(keys: Seq<Key>, now: u64, m: Seq<u8>, s: Seq<u8>) -> bool {
    exists|i: int| 0 <= i < keys.len() && keys[i].expires > now && hmac_of(keys[i].bytes@, m) == s
}

/// The outcome of verifying token `t` at time `now` against the keys `keys`.
pub open spec fn decode_spec(keys: Seq<Key>, now: u64, t: Seq<char>) -> Result<Claim, TokenError> {
    match segments(t) {
        None => Err(TokenError::Malformed),
        Some((a, b)) => match (b64_decode_of(a), b64_decode_of(b)) {
            (Some(m), Some(s)) => {
                if a != b64_of(m) || b != b64_of(s) {
                    Err(TokenError::Malformed)
                } else if !accepted(keys, now, m, s) {
                    Err(TokenError::BadSignature)
                } else {
                    match claim_from_bytes(m) {
                        None => Err(TokenError::Malformed),
                        Some(c) => if c.expires <= now {
                            Err(TokenError::Expired)
                        } else {
                            Ok(c)
                        },
                    }
                }
            },
            _ => Err(TokenError::Malformed),
        },
    }
}

proof fn lemma_sole_dot_unique(t: Seq<char>, i: int, j: int)
    requires
        sole_dot_at(t, i),
        0 <= j < t.len(),
        t[j] == '.',
    ensures
        j == i,
{
    if j < i {
        assert(t.take(i)[j] == '.');
    } else if j > i {
        assert(t.skip(i + 1)[j - i - 1] == '.');
    }
}

proof fn lemma_segments_at(t: Seq<char>, i: int)
    requires
        sole_dot_at(t, i),
    ensures
        segments(t) == Some((t.take(i), t.skip(i + 1))),
{
    let k = choose|k: int| sole_dot_at(t, k);
    lemma_sole_dot_unique(t, i, k);
}

/// Splits a token at its only `.`.
fn split_token(t: &str) -> (r: Option<(&str, &str)>)
    ensures
        match r {
            Some((a, b)) => segments(t@) == Some((a@, b@)),
            None => segments(t@) is None,
        },
{
    let n = t.unicode_len();
    let mut found: Option<usize> = None;
    let mut i: usize = 0;
    while i < n
        invariant
            n == t@.len(),
            i <= n,
            match found {
                None => no_dot(t@.take(i as int)),
                Some(p) => p < i && t@[p as int] == '.' && no_dot(t@.take(p as int)) && no_dot(
                    t@.subrange(p + 1, i as int),
                ),
            },
        decreases n - i,
    {
        let c = t.get_char(i);
        if c == '.' {
            match found {
                Some(p) => {
                    proof {
                        assert forall|j: int| !sole_dot_at(t@, j) by {
                            if sole_dot_at(t@, j) {
                                lemma_sole_dot_unique(t@, j, p as int);
                                lemma_sole_dot_unique(t@, j, i as int);
                            }
                        }
                    }
                    return None;
                },
                None => {
                    found = Some(i);
                },
            }
        }
        proof {
            match found {
                None => {
                    assert(t@.take(i + 1) =~= t@.take(i as int).push(c));
                },
                Some(p) => {
                    assert(t@.subrange(p + 1, i + 1) =~= t@.subrange(p + 1, i as int).push(c)
                        || p == i);
                    if p == i {
                        assert(t@.subrange(p + 1, i + 1).len() == 0);
                    }
                },
            }
        }
        i = i + 1;
    }
    match found {
        None => {
            proof {
                assert(t@.take(n as int) =~= t@);
                assert forall|j: int| !sole_dot_at(t@, j) by {
                    if sole_dot_at(t@, j) {
                        assert(t@.take(n as int)[j] == '.');
                    }
                }
            }
            None
        },
        Some(p) => {
            proof {
                assert(t@.subrange(p + 1, n as int) =~= t@.skip(p + 1));
                lemma_segments_at(t@, p as int);
            }
            let a = t.substring_char(0, p);
            let b = t.substring_char(p + 1, n);
            proof {
                assert(a@ =~= t@.take(p as int));
                assert(b@ =~= t@.skip(p + 1));
            }
            Some((a, b))
        },
    }
}

/// Signs claim `c` with the secret `key`: the base64 form of the claim's
/// bytes, a `.`, and the base64 form of their HMAC-SHA256 under `key`.
pub fn sign_claim(c: &Claim, key: &[u8; 32]) -> (r: String)
    ensures
        signed_token(r@, key@, *c),
{
    let m = c.to_bytes();
    let s = hmac_sha256(key, m.as_slice()).unwrap();
    let mut t = b64_encode(m.as_slice());
    let e = b64_encode(s.as_slice());
    proof {
        reveal_strlit(".");
    }
    t.append(".");
    t.append(e.as_str());
    proof {
        assert(t@ =~= token_text(m@, s@));
    }
    t
}

/// Verifies token `t` at time `now` against `keys`, newest key first, and
/// returns the claim it carries.
pub fn verify_token(t: &str, keys: &Vec<Key>, now: u64) -> (r: Result<Claim, TokenError>)
    ensures
        r == decode_spec(keys@, now, t@),
{
    let (a, b) = match split_token(t) {
        Some(p) => p,
        None => return Err(TokenError::Malformed),
    };
    let m = match b64_decode(a) {
        Some(m) => m,
        None => return Err(TokenError::Malformed),
    };
    let s = match b64_decode(b) {
        Some(s) => s,
        None => return Err(TokenError::Malformed),
    };
    let mut i: usize = keys.len();
    let mut ok = false;
    while i > 0 && !ok
        invariant
            i <= keys@.len(),
            ok ==> accepted(keys@, now, m@, s@),
            !ok ==> forall|j: int|
                i <= j < keys@.len() ==> !(keys@[j].expires > now && hmac_of(
                    keys@[j].bytes@,
                    m@,
                ) == s@),
        decreases i,
    {
        i = i - 1;
        let k = &keys[i];
        if k.expires > now && hmac_sha256_verify(&k.bytes, m.as_slice(), s.as_slice()) {
            ok = true;
        }
    }
    if !ok {
        return Err(TokenError::BadSignature);
    }
    match Claim::from_bytes(m.as_slice()) {
        None => Err(TokenError::Malformed),
        Some(c) => if c.expires <= now {
            Err(TokenError::Expired)
        } else {
            Ok(c)
        },
    }
}

proof fn lemma_b64_text_no_dot(s: Seq<char>)
    requires
        is_b64_text(s),
    ensures
        no_dot(s),
{
    assert forall|i: int| 0 <= i < s.len() implies s[i] != '.' by {
        assert(is_b64_char(s[i]));
    }
}

/// `a + "." + b` with no `.` in `a` splits at that `.`; it has two segments
/// exactly when `b` holds no `.` either.
proof fn lemma_segments_join(a: Seq<char>, b: Seq<char>)
    requires
        no_dot(a),
    ensures
        no_dot(b) ==> segments(a + seq!['.'] + b) == Some((a, b)),
        !no_dot(b) ==> segments(a + seq!['.'] + b) is None,
{
    let t = a + seq!['.'] + b;
    let i = a.len() as int;
    assert(t[i] == '.');
    assert(t.take(i) =~= a);
    assert(t.skip(i + 1) =~= b);
    if no_dot(b) {
        lemma_segments_at(t, i);
    } else {
        let p = choose|p: int| 0 <= p < b.len() && b[p] == '.';
        assert(t[i + 1 + p] == '.');
        assert forall|j: int| !sole_dot_at(t, j) by {
            if sole_dot_at(t, j) {
                lemma_sole_dot_unique(t, j, i);
                lemma_sole_dot_unique(t, j, i + 1 + p);
            }
        }
    }
}

/// The segments of a signed token are the encodings of its claim bytes and
/// of its signature.
pub proof fn lemma_signed_segments(t: Seq<char>, key: Seq<u8>, c: Claim)
    requires
        signed_token(t, key, c),
    ensures
        segments(t) == Some((b64_of(claim_bytes(c)), b64_of(hmac_of(key, claim_bytes(c))))),
{
    let m = claim_bytes(c);
    lemma_b64_text_no_dot(b64_of(m));
    lemma_b64_text_no_dot(b64_of(hmac_of(key, m)));
    lemma_segments_join(b64_of(m), b64_of(hmac_of(key, m)));
}

/// Round trip: a token signed with a key of the store that is unexpired at
/// `now` decodes to the claim it was signed for, while that claim is unexpired.
pub proof fn lemma_round_trip(keys: Seq<Key>, now: u64, key: Key, c: Claim, t: Seq<char>)
    requires
        keys.contains(key),
        key.expires > now,
        c.expires > now,
        signed_token(t, key.bytes@, c),
    ensures
        decode_spec(keys, now, t) == Ok::<Claim, TokenError>(c),
{
    lemma_signed_segments(t, key.bytes@, c);
    lemma_claim_bytes_round_trip(c);
    let i = choose|i: int| 0 <= i < keys.len() && keys[i] == key;
    assert(accepted(keys, now, claim_bytes(c), hmac_of(key.bytes@, claim_bytes(c))));
}

/// Expiry: a claim that has expired at `now` is refused as expired, even in
/// a token signed with a valid key of the store.
pub proof fn lemma_expired_claim_refused(keys: Seq<Key>, now: u64, key: Key, c: Claim, t: Seq<char>)
    requires
        keys.contains(key),
        key.expires > now,
        c.expires <= now,
        signed_token(t, key.bytes@, c),
    ensures
        decode_spec(keys, now, t) == Err::<Claim, TokenError>(TokenError::Expired),
{
    lemma_signed_segments(t, key.bytes@, c);
    lemma_claim_bytes_round_trip(c);
    let i = choose|i: int| 0 <= i < keys.len() && keys[i] == key;
    assert(accepted(keys, now, claim_bytes(c), hmac_of(key.bytes@, claim_bytes(c))));
}

/// Tampered signature: replacing the signature segment of a token signed with
/// `key` by any other text (a single flipped bit among them) makes it fail,
/// unless a key with another secret happens to sign the claim as that text.
pub proof fn lemma_signature_tamper_refused(
    keys: Seq<Key>,
    now: u64,
    key: Key,
    c: Claim,
    t: Seq<char>,
    forged: Seq<char>,
)
    requires
        signed_token(t, key.bytes@, c),
        forged != b64_of(hmac_of(key.bytes@, claim_bytes(c))),
        forall|i: int|
            0 <= i < keys.len() && keys[i].bytes@ != key.bytes@ ==> b64_of(
                hmac_of(keys[i].bytes@, claim_bytes(c)),
            ) != forged,
    ensures
        decode_spec(keys, now, b64_of(claim_bytes(c)) + seq!['.'] + forged) is Err,
{
    let m = claim_bytes(c);
    let t2 = b64_of(m) + seq!['.'] + forged;
    lemma_b64_text_no_dot(b64_of(m));
    lemma_segments_join(b64_of(m), forged);
    if no_dot(forged) {
        if let Some(s2) = b64_decode_of(forged) {
            if forged == b64_of(s2) {
                assert forall|i: int|
                    0 <= i < keys.len() && keys[i].expires > now implies hmac_of(keys[i].bytes@, m)
                    != s2 by {
                    if keys[i].bytes@ == key.bytes@ {
                        assert(hmac_of(keys[i].bytes@, m) == hmac_of(key.bytes@, m));
                    }
                }
                assert(!accepted(keys, now, m, s2));
            }
        }
    }
}

/// Tampered claim: replacing the claim segment of a token signed with `key`
/// by any other text (a single flipped bit among them) makes it fail, unless
/// some key of the store happens to give the token's signature for the bytes
/// that the new text encodes.
pub proof fn lemma_payload_tamper_refused(
    keys: Seq<Key>,
    now: u64,
    key: Key,
    c: Claim,
    t: Seq<char>,
    forged: Seq<char>,
)
    requires
        signed_token(t, key.bytes@, c),
        forged != b64_of(claim_bytes(c)),
        forall|i: int, m2: Seq<u8>|
            0 <= i < keys.len() && b64_of(m2) == forged ==> #[trigger] hmac_of(keys[i].bytes@, m2)
                != hmac_of(key.bytes@, claim_bytes(c)),
    ensures
        decode_spec(keys, now, forged + seq!['.'] + b64_of(hmac_of(key.bytes@, claim_bytes(c))))
            is Err,
{
    let m = claim_bytes(c);
    let s = hmac_of(key.bytes@, m);
    let t2 = forged + seq!['.'] + b64_of(s);
    lemma_b64_text_no_dot(b64_of(s));
    if no_dot(forged) {
        lemma_segments_join(forged, b64_of(s));
        if let Some(m2) = b64_decode_of(forged) {
            if forged == b64_of(m2) {
                assert forall|i: int|
                    0 <= i < keys.len() && keys[i].expires > now implies hmac_of(keys[i].bytes@, m2)
                    != s by {}
                assert(!accepted(keys, now, m2, s));
            }
        }
    } else {
        let p = choose|p: int| 0 <= p < forged.len() && forged[p] == '.';
        let i = forged.len() as int;
        assert(t2[i] == '.');
        assert(t2[p] == '.');
        assert forall|j: int| !sole_dot_at(t2, j) by {
            if sole_dot_at(t2, j) {
                lemma_sole_dot_unique(t2, j, i);
                lemma_sole_dot_unique(t2, j, p);
            }
        }
    }
}

proof fn lemma_dot_count_concat(x: Seq<char>, y: Seq<char>)
    ensures
        dot_count(x + y) == dot_count(x) + dot_count(y),
    decreases y.len(),
{
    if y.len() == 0 {
        assert(x + y =~= x);
    } else {
        lemma_dot_count_concat(x, y.drop_last());
        assert((x + y).drop_last() =~= x + y.drop_last());
    }
}

proof fn lemma_no_dot_count(x: Seq<char>)
    requires
        no_dot(x),
    ensures
        dot_count(x) == 0,
    decreases x.len(),
{
    if x.len() > 0 {
        lemma_no_dot_count(x.drop_last());
    }
}

/// Malformed shape: a token with no `.` or with more than one (one segment,
/// or three and more) is refused as malformed.
pub proof fn lemma_malformed_shape_refused(keys: Seq<Key>, now: u64, t: Seq<char>)
    requires
        dot_count(t) != 1,
    ensures
        decode_spec(keys, now, t) == Err::<Claim, TokenError>(TokenError::Malformed),
{
    if exists|i: int| sole_dot_at(t, i) {
        let i = choose|i: int| sole_dot_at(t, i);
        assert(t =~= t.take(i) + seq!['.'] + t.skip(i + 1));
        lemma_no_dot_count(t.take(i));
        lemma_no_dot_count(t.skip(i + 1));
        lemma_dot_count_concat(t.take(i), seq!['.']);
        lemma_dot_count_concat(t.take(i) + seq!['.'], t.skip(i + 1));
        let one = seq!['.'];
        assert(one.drop_last() =~= Seq::<char>::empty());
        assert(dot_count(Seq::<char>::empty()) == 0);
        assert(one.last() == '.');
        assert(dot_count(one) == 1);
    }
}

} // verus!
