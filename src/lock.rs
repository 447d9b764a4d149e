use std::sync::Arc;
use vstd::prelude::*;
use vstd::rwlock::{RwLock, RwLockPredicate};

use crate::claim::Claim;
use crate::codec::{decode_spec, sign_claim, signed_token, verify_token, TokenError};
use crate::store::{sorted_keys, Key, Secret, KEY_LIFETIME};

verus! {

/// What every holder of the lock finds in the store: keys in ascending
/// order of expiry.
pub struct WellFormed;

impl RwLockPredicate<Secret> for WellFormed {
    open spec fn inv(self, s: Secret) -> bool {
        s.wf()
    }
}

/// The key store shared by every worker: rotation takes it exclusively,
/// verification takes it shared and only to copy the keys out.
#[derive(Clone)]
pub struct AuthRwLock(pub Arc<RwLock<Secret, WellFormed>>);

impl AuthRwLock {
    /// A lock around an empty store.
    pub fn new() -> (r: AuthRwLock)
        ensures
            r.0.pred() == WellFormed,
    {
        AuthRwLock(Arc::new(RwLock::new(Secret::new(), Ghost(WellFormed))))
    }
}

impl Claim {
    /// Signs the claim at time `now` with the store's current key, rotating
    /// the store first; the MAC is computed after the lock is released.
    pub fn to_token(&self, lock: &AuthRwLock, now: u64) -> (r: String)
        requires
            now <= u64::MAX - KEY_LIFETIME,
        ensures
            exists|k: Key| k.expires > now && signed_token(r@, k.bytes@, *self),
    {
        let (mut secret, handle) = lock.0.acquire_write();
        let key = secret.rotate(now, self.expires);
        handle.release_write(secret);
        let t = sign_claim(self, &key.bytes);
        assert(key.expires > now && signed_token(t@, key.bytes@, *self));
        t
    }

    /// Verifies `s` at time `now` against the keys in the store; the lock is
    /// held only while the keys are copied out.
    pub fn from_token(s: &str, lock: &AuthRwLock, now: u64) -> (r: Result<Claim, TokenError>)
        ensures
            exists|ks: Seq<Key>| sorted_keys(ks) && r == decode_spec(ks, now, s@),
    {
        let handle = lock.0.acquire_read();
        let keys = handle.borrow().snapshot();
        handle.release_read();
        verify_token(s, &keys, now)
    }
}

} // verus!
