use rand::rngs::OsRng;
use rand::RngCore;
use std::collections::VecDeque;
use vstd::prelude::*;

use crate::claim::{claim_bytes, Claim, TOKEN_DURATION};
use crate::codec::{
    accepted, decode_spec, hmac_of, lemma_round_trip, lemma_signed_segments, signed_token,
    TokenError,
};

verus! {

/// How long, in seconds, a key stays usable: twice the longest claim lifetime,
/// so that every claim signed before the key's own expiry outlives no key.
pub const KEY_LIFETIME: u64 = 2 * TOKEN_DURATION;

/// A signing secret and the UNIX time at which it stops being usable.
#[derive(Clone, Copy)]
pub struct Key {
    pub bytes: [u8; 32],
    pub expires: u64,
}

/// Relies on `rand::rngs::OsRng::fill_bytes`: 32 bytes from the operating
/// system's secure random source (it panics only where that source fails).
#[verifier::external_body]
fn os_random_secret() -> (r: [u8; 32]) {
    let mut bytes = [0u8; 32];
    OsRng.fill_bytes(&mut bytes);
    bytes
}

impl Key {
    /// A fresh random key that expires at `expires`.
    pub fn generate(expires: u64) -> (k: Key)
        ensures
            k.expires == expires,
    {
        Key { bytes: os_random_secret(), expires }
    }
}

/// Keys in strictly ascending order of expiry.
pub open spec fn sorted_keys(ks: Seq<Key>) -> bool {
    forall|i: int, j: int| 0 <= i < j < ks.len() ==> ks[i].expires < ks[j].expires
}

/// `ks` without the keys at its front that have expired at `now`.
pub open spec fn pruned(ks: Seq<Key>, now: u64) -> Seq<Key>
    decreases ks.len(),
{
    if ks.len() > 0 && ks[0].expires <= now {
        pruned(ks.drop_first(), now)
    } else {
        ks
    }
}

/// A new key is due when there is none, or when the current one expires
/// before the claim about to be signed and a fresh key would outlast it.
pub open spec fn needs_new_key(ks: Seq<Key>, now: u64, needed: u64) -> bool {
    ks.len() == 0 || (ks.last().expires < needed && ks.last().expires < now + KEY_LIFETIME)
}

/// `new` is what rotation at `now`, for a claim expiring at `needed`, makes
/// of the key sequence `old`: expired keys pruned from the front, then a key
/// that expires at `now + KEY_LIFETIME` appended if one is due.
pub open spec fn rotated(old: Seq<Key>, new: Seq<Key>, now: u64, needed: u64) -> bool {
    let kept = pruned(old, now);
    if needs_new_key(kept, now, needed) {
        &&& new.len() == kept.len() + 1
        &&& new.drop_last() == kept
        &&& new.last().expires == now + KEY_LIFETIME
    } else {
        new == kept
    }
}

/// The rotating set of signing keys, oldest first; the last one signs.
pub struct Secret {
    pub keys: VecDeque<Key>,
}

impl View for Secret {
    type V = Seq<Key>;

    open spec fn view(&self) -> Seq<Key> {
        self.keys@
    }
}

proof fn lemma_pruned_keeps(ks: Seq<Key>, now: u64, k: Key)
    requires
        ks.contains(k),
        k.expires > now,
    ensures
        pruned(ks, now).contains(k),
    decreases ks.len(),
{
    if ks.len() > 0 && ks[0].expires <= now {
        let i = choose|i: int| 0 <= i < ks.len() && ks[i] == k;
        assert(ks.drop_first()[i - 1] == k);
        lemma_pruned_keeps(ks.drop_first(), now, k);
    }
}

proof fn lemma_pruned_unexpired(ks: Seq<Key>, now: u64)
    requires
        sorted_keys(ks),
    ensures
        forall|i: int| 0 <= i < pruned(ks, now).len() ==> pruned(ks, now)[i].expires > now,
    decreases ks.len(),
{
    if ks.len() > 0 && ks[0].expires <= now {
        assert(sorted_keys(ks.drop_first())) by {
            assert forall|i: int, j: int| 0 <= i < j < ks.drop_first().len() implies
                ks.drop_first()[i].expires < ks.drop_first()[j].expires by {
                assert(ks[i + 1].expires < ks[j + 1].expires);
            }
        }
        lemma_pruned_unexpired(ks.drop_first(), now);
        assert(pruned(ks, now) == pruned(ks.drop_first(), now));
    } else if ks.len() > 0 {
        assert(pruned(ks, now) == ks);
        assert forall|i: int| 0 <= i < ks.len() implies ks[i].expires > now by {
            if i > 0 {
                assert(ks[0].expires < ks[i].expires);
            }
        }
    }
}

/// Rotation overlap: a key stays in the store through every rotation made
/// before it expires, so a token signed with it still verifies after newer
/// keys have been minted, while the key and the claim are unexpired.
pub proof fn lemma_rotation_overlap(
    before: Seq<Key>,
    after: Seq<Key>,
    at: u64,
    needed: u64,
    key: Key,
    c: Claim,
    t: Seq<char>,
    now: u64,
)
    requires
        before.contains(key),
        rotated(before, after, at, needed),
        at < key.expires,
        signed_token(t, key.bytes@, c),
        now < key.expires,
        now < c.expires,
    ensures
        after.contains(key),
        decode_spec(after, now, t) == Ok::<Claim, TokenError>(c),
{
    let kept = pruned(before, at);
    lemma_pruned_keeps(before, at, key);
    if needs_new_key(kept, at, needed) {
        let i = choose|i: int| 0 <= i < kept.len() && kept[i] == key;
        assert(after[i] == after.drop_last()[i]);
    }
    lemma_round_trip(after, now, key, c, t);
}

/// Pruning: rotation at or after a key's expiry drops it from the store, and
/// a token signed with it is refused, unless a key still unexpired happens to
/// give the same signature.
pub proof fn lemma_expired_key_pruned(
    before: Seq<Key>,
    after: Seq<Key>,
    now: u64,
    needed: u64,
    key: Key,
    c: Claim,
    t: Seq<char>,
)
    requires
        sorted_keys(before),
        rotated(before, after, now, needed),
        key.expires <= now,
        signed_token(t, key.bytes@, c),
        forall|i: int|
            0 <= i < after.len() && after[i].expires > now ==> hmac_of(
                after[i].bytes@,
                claim_bytes(c),
            ) != hmac_of(key.bytes@, claim_bytes(c)),
    ensures
        !after.contains(key),
        decode_spec(after, now, t) == Err::<Claim, TokenError>(TokenError::BadSignature),
{
    let kept = pruned(before, now);
    lemma_pruned_unexpired(before, now);
    assert forall|i: int| 0 <= i < after.len() implies after[i].expires > now by {
        if i < kept.len() {
            assert(after[i] == after.drop_last()[i] || after == kept);
        }
    }
    lemma_signed_segments(t, key.bytes@, c);
    assert(!accepted(after, now, claim_bytes(c), hmac_of(key.bytes@, claim_bytes(c))));
}

impl Secret {
    pub open spec fn wf(&self) -> bool {
        sorted_keys(self@)
    }

    /// An empty store.
    pub fn new() -> (s: Secret)
        ensures
            s@ == Seq::<Key>::empty(),
            s.wf(),
    {
        Secret { keys: VecDeque::new() }
    }

    /// Prunes the keys that have expired at `now` and mints a new one if the
    /// claim about to be signed, expiring at `needed`, calls for it; returns
    /// the key to sign with.
    pub fn rotate(&mut self, now: u64, needed: u64) -> (k: Key)
        requires
            old(self).wf(),
            now <= u64::MAX - KEY_LIFETIME,
        ensures
            final(self).wf(),
            rotated(old(self)@, final(self)@, now, needed),
            final(self)@.len() > 0,
            k == final(self)@.last(),
            k.expires > now,
    {
        let ghost ks0 = self@;
        while self.keys.len() > 0 && self.keys[0].expires <= now
            invariant
                pruned(self@, now) == pruned(ks0, now),
                sorted_keys(self@),
            decreases self@.len(),
        {
            let ghost before = self@;
            self.keys.pop_front();
            assert(self@ =~= before.drop_first());
        }
        assert(pruned(self@, now) == self@);
        let len = self.keys.len();
        if len == 0 || (self.keys[len - 1].expires < needed && self.keys[len - 1].expires < now
            + KEY_LIFETIME) {
            self.keys.push_back(Key::generate(now + KEY_LIFETIME));
            assert(self@.drop_last() =~= pruned(ks0, now));
        } else {
            assert(self@[0].expires <= self@.last().expires);
        }
        self.keys[self.keys.len() - 1]
    }

    /// A copy of the keys, for verification outside the lock.
    pub fn snapshot(&self) -> (r: Vec<Key>)
        ensures
            r@ == self@,
    {
        let mut r: Vec<Key> = Vec::with_capacity(self.keys.len());
        let mut i: usize = 0;
        while i < self.keys.len()
            invariant
                i <= self@.len(),
                r@ == self@.take(i as int),
            decreases self@.len() - i,
        {
            r.push(self.keys[i]);
            i = i + 1;
            assert(r@ =~= self@.take(i as int));
        }
        assert(self@.take(i as int) =~= self@);
        r
    }
}

} // verus!
