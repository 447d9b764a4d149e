//! Stateless session tokens signed with a rotating set of keys.
//!
//! A claim is written in a fixed binary form, signed with HMAC-SHA256 under
//! the store's current key, and carried as `base64(claim) "." base64(mac)`.
//! Verification tries every retained, unexpired key, so keys can be rotated
//! without invalidating tokens already handed out.

pub mod authn;
pub mod claim;
pub mod codec;
pub mod lock;
pub mod store;
