use vstd::prelude::*;

verus! {

/// The longest lifetime, in seconds, that an issued claim may have: two days.
pub const TOKEN_DURATION: u64 = 172800;

/// Number of bytes in the binary form of a claim.
pub const CLAIM_LEN: usize = 25;

/// The authenticated identity carried inside a token.
#[derive(Clone, Copy, Debug, PartialEq, Eq)]
pub struct Claim {
    /// The principal's identifier (the sixteen bytes of its UUID).
    pub id: [u8; 16],
    /// UNIX time, in seconds, after which the claim is no longer valid.
    pub expires: u64,
    pub is_admin: bool,
}

/// The eight big-endian bytes of `x`.
pub open spec fn u64_be(x: u64) -> Seq<u8> {
    seq![
        (x >> 56u64) as u8,
        (x >> 48u64) as u8,
        (x >> 40u64) as u8,
        (x >> 32u64) as u8,
        (x >> 24u64) as u8,
        (x >> 16u64) as u8,
        (x >> 8u64) as u8,
        x as u8,
    ]
}

/// The integer whose big-endian bytes are `b[start..start + 8]`.
pub open spec fn be_u64(b: Seq<u8>, start: int) -> u64 {
    ((b[start] as u64) << 56u64) | ((b[start + 1] as u64) << 48u64) | ((b[start + 2] as u64)
        << 40u64) | ((b[start + 3] as u64) << 32u64) | ((b[start + 4] as u64) << 24u64) | ((b[start
        + 5] as u64) << 16u64) | ((b[start + 6] as u64) << 8u64) | (b[start + 7] as u64)
}

/// The binary form of a claim: the identifier, the expiry as a big-endian
/// `u64`, and one byte for the privilege flag.
pub open spec fn claim_bytes(c: Claim) -> Seq<u8> {
    c.id@ + u64_be(c.expires) + seq![if c.is_admin { 1u8 } else { 0u8 }]
}

/// The claim whose binary form is `b`, if there is one.
pub open spec fn claim_from_bytes(b: Seq<u8>) -> Option<Claim> {
    if b.len() == CLAIM_LEN && b[24] <= 1 {
        Some(Claim { id: arr16(b.subrange(0, 16)), expires: be_u64(b, 16), is_admin: b[24] == 1 })
    } else {
        None
    }
}

/// The array of sixteen bytes whose view is `s`.
pub open spec fn arr16(s: Seq<u8>) -> [u8; 16] {
    choose|a: [u8; 16]| a@ == s
}

proof fn lemma_be_u64_of_u64_be(x: u64)
    ensures
        be_u64(u64_be(x), 0) == x,
{
    let b = u64_be(x);
    let b0 = (x >> 56u64) as u8;
    let b1 = (x >> 48u64) as u8;
    let b2 = (x >> 40u64) as u8;
    let b3 = (x >> 32u64) as u8;
    let b4 = (x >> 24u64) as u8;
    let b5 = (x >> 16u64) as u8;
    let b6 = (x >> 8u64) as u8;
    let b7 = x as u8;
    assert(b[0] == b0 && b[1] == b1 && b[2] == b2 && b[3] == b3);
    assert(b[4] == b4 && b[5] == b5 && b[6] == b6 && b[7] == b7);
    assert(((b0 as u64) << 56u64) | ((b1 as u64) << 48u64) | ((b2 as u64) << 40u64) | ((b3 as u64)
        << 32u64) | ((b4 as u64) << 24u64) | ((b5 as u64) << 16u64) | ((b6 as u64) << 8u64) | (
    b7 as u64) == x) by (bit_vector)
        requires
            b0 == (x >> 56u64) as u8,
            b1 == (x >> 48u64) as u8,
            b2 == (x >> 40u64) as u8,
            b3 == (x >> 32u64) as u8,
            b4 == (x >> 24u64) as u8,
            b5 == (x >> 16u64) as u8,
            b6 == (x >> 8u64) as u8,
            b7 == x as u8,
    ;
}

/// Reading back the binary form of a claim gives the claim.
pub proof fn lemma_claim_bytes_round_trip(c: Claim)
    ensures
        claim_from_bytes(claim_bytes(c)) == Some(c),
{
    let b = claim_bytes(c);
    let e = u64_be(c.expires);
    assert(b.len() == CLAIM_LEN);
    assert(b.subrange(0, 16) =~= c.id@);
    assert(b.subrange(16, 24) =~= e);
    lemma_be_u64_of_u64_be(c.expires);
    assert(be_u64(b, 16) == be_u64(e, 0));
    let a = arr16(b.subrange(0, 16));
    assert(a@ == c.id@);
    assert(a == c.id);
}

impl Claim {
    /// Writes the claim in its binary form.
    pub fn to_bytes(&self) -> (r: Vec<u8>)
        ensures
            r@ == claim_bytes(*self),
    {
        let mut r: Vec<u8> = Vec::with_capacity(CLAIM_LEN);
        let mut i: usize = 0;
        while i < 16
            invariant
                i <= 16,
                r@ == self.id@.subrange(0, i as int),
            decreases 16 - i,
        {
            r.push(self.id[i]);
            i = i + 1;
        }
        let x = self.expires;
        r.push((x >> 56u64) as u8);
        r.push((x >> 48u64) as u8);
        r.push((x >> 40u64) as u8);
        r.push((x >> 32u64) as u8);
        r.push((x >> 24u64) as u8);
        r.push((x >> 16u64) as u8);
        r.push((x >> 8u64) as u8);
        r.push(x as u8);
        r.push(if self.is_admin { 1u8 } else { 0u8 });
        assert(r@ =~= claim_bytes(*self));
        r
    }

    /// Reads a claim back from its binary form; `None` where `b` is not the
    /// binary form of any claim.
    pub fn from_bytes(b: &[u8]) -> (r: Option<Claim>)
        ensures
            r == claim_from_bytes(b@),
    {
        if b.len() != CLAIM_LEN || b[24] > 1 {
            return None;
        }
        let mut id: [u8; 16] = [0u8; 16];
        let mut i: usize = 0;
        while i < 16
            invariant
                i <= 16,
                b@.len() == CLAIM_LEN,
                forall|j: int| 0 <= j < i ==> id@[j] == b@[j],
            decreases 16 - i,
        {
            id[i] = b[i];
            i = i + 1;
        }
        assert(id@ =~= b@.subrange(0, 16));
        let expires: u64 = ((b[16] as u64) << 56u64) | ((b[17] as u64) << 48u64) | ((b[18] as u64)
            << 40u64) | ((b[19] as u64) << 32u64) | ((b[20] as u64) << 24u64) | ((b[21] as u64)
            << 16u64) | ((b[22] as u64) << 8u64) | (b[23] as u64);
        let c = Claim { id, expires, is_admin: b[24] == 1 };
        proof {
            let a = arr16(b@.subrange(0, 16));
            assert(a@ == id@);
            assert(a == id);
        }
        Some(c)
    }
}

} // verus!
