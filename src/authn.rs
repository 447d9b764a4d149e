use vstd::prelude::*;

use crate::claim::Claim;
use crate::codec::{decode_spec, TokenError};
use crate::lock::AuthRwLock;
use crate::store::{sorted_keys, Key};

verus! {

/// How an endpoint treats a request without a valid token.
#[derive(Clone, Copy, Debug, PartialEq, Eq)]
pub enum AuthMode {
    /// The request is refused before it reaches the endpoint.
    Required,
    /// The request goes on as a guest.
    Optional,
}

/// Who the request runs as, if it runs at all.
#[derive(Clone, Copy, Debug, PartialEq, Eq)]
pub enum AuthOutcome {
    Authenticated(Claim),
    Guest,
    Rejected,
}

/// What the boundary does with a request: the outcome, and whether the client
/// must discard the token it sent.
#[derive(Clone, Copy, Debug, PartialEq, Eq)]
pub struct AuthDecision {
    pub outcome: AuthOutcome,
    pub clear_token: bool,
}

/// A token that is well formed but can never verify again (forged, signed
/// with a key since dropped, or expired) is to be discarded by the client.
pub open spec fn must_clear(e: TokenError) -> bool {
    e == TokenError::BadSignature || e == TokenError::Expired
}

/// The decision for a request under `mode`, given the result of verifying
/// the token it carried (`None`: it carried none).
pub open spec fn decision_of(mode: AuthMode, verified: Option<Result<Claim, TokenError>>) -> AuthDecision {
    match verified {
        Some(Ok(c)) => AuthDecision { outcome: AuthOutcome::Authenticated(c), clear_token: false },
        _ => AuthDecision {
            outcome: if mode == AuthMode::Required {
                AuthOutcome::Rejected
            } else {
                AuthOutcome::Guest
            },
            clear_token: verified matches Some(Err(e)) && must_clear(e),
        },
    }
}

/// Decides a request under `mode` from the result of verifying its token.
pub fn decide(mode: AuthMode, verified: Option<Result<Claim, TokenError>>) -> (r: AuthDecision)
    ensures
        r == decision_of(mode, verified),
{
    match verified {
        Some(Ok(c)) => AuthDecision { outcome: AuthOutcome::Authenticated(c), clear_token: false },
        _ => {
            let outcome = match mode {
                AuthMode::Required => AuthOutcome::Rejected,
                AuthMode::Optional => AuthOutcome::Guest,
            };
            let clear_token = match verified {
                Some(Err(TokenError::BadSignature)) | Some(Err(TokenError::Expired)) => true,
                _ => false,
            };
            AuthDecision { outcome, clear_token }
        },
    }
}

impl AuthRwLock {
    /// Authenticates a request that carried `token` (or none) at time `now`.
    pub fn authenticate(&self, token: Option<&str>, mode: AuthMode, now: u64) -> (r: AuthDecision)
        ensures
            exists|ks: Seq<Key>|
                sorted_keys(ks) && r == decision_of(
                    mode,
                    match token {
                        Some(t) => Some(decode_spec(ks, now, t@)),
                        None => None,
                    },
                ),
    {
        match token {
            Some(t) => decide(mode, Some(Claim::from_token(t, self, now))),
            None => {
                assert(sorted_keys(Seq::<Key>::empty()));
                decide(mode, None)
            },
        }
    }
}

} // verus!
