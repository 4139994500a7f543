//! The hub's credential for the cloud: shown, or replaced.

use crate::domain::Hub;
use vstd::prelude::*;

verus! {

/// What a request about the token came to.
#[derive(Debug)]
pub enum TokenOutcome {
    /// Nothing was to be set: this is the token as it stands.
    Shown { token: String },
    /// The token was replaced.
    Replaced,
}

/// Shows the hub's token where `set` is empty, and replaces it by `set`
/// where it is not.
pub fn token(set: &str, hub: &mut Hub) -> (r: TokenOutcome)
    ensures
        final(hub).id == old(hub).id,
        final(hub).cloud_last_access_event_at == old(hub).cloud_last_access_event_at,
        if set@.len() == 0 {
            &&& final(hub).api_token == old(hub).api_token
            &&& r matches TokenOutcome::Shown { token }
            &&& token@ == old(hub).api_token@
        } else {
            final(hub).api_token@ == set@ && r is Replaced
        },
{
    if set.is_empty() {
        TokenOutcome::Shown { token: hub.api_token.clone() }
    } else {
        hub.api_token = set.to_owned();
        TokenOutcome::Replaced
    }
}

} // verus!
