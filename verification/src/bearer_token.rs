//! The token that authorises requests to the music service.

use vstd::prelude::*;

verus! {

/// An access token, sent as a bearer credential.
#[derive(Clone)]
pub struct BearerToken(pub String);

} // verus!
