//! The authorization check: a static shared secret compared to a request header.

use vstd::prelude::*;
use crate::text::str_equal;

verus! {

/// What the check decides for one request.
#[derive(Clone, Copy, Debug, PartialEq, Eq, Structural)]
pub enum AuthDecision {
    /// The request goes on to its handler.
    Proceed,
    /// The request is answered with 401 and goes no further.
    Unauthorized,
}

/// Whether anything is checked: a secret is configured and is not empty.
pub open spec fn auth_enforced(secret: Option<Seq<char>>) -> bool {
    secret matches Some(s) && s.len() > 0
}

/// The decision as a function of the configured secret and the header sent.
pub open spec fn auth_decision(secret: Option<Seq<char>>, header: Option<Seq<char>>) -> AuthDecision {
    if auth_enforced(secret) && header != secret {
        AuthDecision::Unauthorized
    } else {
        AuthDecision::Proceed
    }
}

/// Decides whether a request may pass.
///
/// `secret` is the configured shared secret, if any; `header` is the value of
/// the request's `Authorization` header, if it was sent and is readable text.
/// With no secret, or an empty one, every request passes. Otherwise the header
/// must be present and equal to the secret, character for character.
pub fn auth_middleware(secret: Option<&str>, header: Option<&str>) -> (decision: AuthDecision)
    ensures
        decision == auth_decision(
            match secret { Some(s) => Some(s@), None => None },
            match header { Some(h) => Some(h@), None => None },
        ),
{
    match secret {
        None => AuthDecision::Proceed,
        Some(expected) => {
            if expected.is_empty() {
                AuthDecision::Proceed
            } else {
                match header {
                    None => AuthDecision::Unauthorized,
                    Some(sent) => {
                        if str_equal(sent, expected) {
                            AuthDecision::Proceed
                        } else {
                            AuthDecision::Unauthorized
                        }
                    }
                }
            }
        }
    }
}

} // verus!
