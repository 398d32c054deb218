//! Shapes of the login flow: the redirect parameters handed back by the
//! authorization server, and the client credentials used to exchange them.

use vstd::prelude::*;

verus! {

/// The code parameter of the redirect back from the authorization server.
#[derive(Debug)]
pub struct OAuthRedirect {
    pub code: String,
}

/// The application's credentials for the token exchange.
#[derive(Debug, Clone)]
pub struct OAuthState {
    pub client_id: String,
    pub client_secret: String,
}

} // verus!
