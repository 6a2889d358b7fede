//! Token claims and the issued token pair for the user RPC service.

use vstd::prelude::*;

verus! {

/// How long an access token lives, in seconds.
pub const EXPIRES: i64 = 60 * 60 * 4;

/// How much longer a refresh token lives than an access token, in
/// seconds.
pub const REFRESH_EXPIRES: i64 = 24 * 60 * 60;

/// The claims carried by an issued token.
#[derive(Debug, Clone)]
pub struct Claims {
    pub user_id: String,
    /// Expiry, in seconds since the epoch.
    pub exp: i64,
    /// Issued-at, in seconds since the epoch.
    pub iat: i64,
}

/// The token pair issued at login.
#[derive(Debug, Clone)]
pub struct JwtToken {
    pub user_id: String,
    pub token: String,
    pub refresh_token: String,
}

impl Claims {
    /// Claims issued at instant `now` (seconds since the epoch, read by
    /// the caller), expiring one access-token lifetime later.
    pub fn new(user_id: String, now: i64) -> (c: Claims)
        requires
            now + EXPIRES <= i64::MAX,
        ensures
            c.user_id == user_id,
            c.iat == now,
            c.exp == now + EXPIRES,
    {
        Claims { user_id, exp: now + EXPIRES, iat: now }
    }

    /// The same claims pushed out by the refresh-token lifetime.
    pub fn refresh(&self) -> (c: Claims)
        requires
            self.exp + REFRESH_EXPIRES <= i64::MAX,
        ensures
            c.user_id == self.user_id,
            c.iat == self.iat,
            c.exp == self.exp + REFRESH_EXPIRES,
    {
        Claims { user_id: self.user_id.clone(), exp: self.exp + REFRESH_EXPIRES, iat: self.iat }
    }
}

} // verus!
