//! The authorization check on concrete secrets and headers.

use shortener::middleware::{auth_middleware, AuthDecision};

#[test]
fn test_auth_middleware_enabled_valid_token() {
    let decision = auth_middleware(Some("secret_token"), Some("secret_token"));
    assert_eq!(decision, AuthDecision::Proceed);
}

#[test]
fn test_auth_middleware_enabled_invalid_token() {
    let decision = auth_middleware(Some("secret_token"), Some("wrong_token"));
    assert_eq!(decision, AuthDecision::Unauthorized);
}

#[test]
fn test_auth_middleware_enabled_no_token() {
    let decision = auth_middleware(Some("secret_token"), None);
    assert_eq!(decision, AuthDecision::Unauthorized);
}

#[test]
fn test_auth_middleware_disabled() {
    assert_eq!(auth_middleware(None, None), AuthDecision::Proceed);
    assert_eq!(auth_middleware(None, Some("anything")), AuthDecision::Proceed);
}

#[test]
fn empty_secret_checks_nothing() {
    assert_eq!(auth_middleware(Some(""), None), AuthDecision::Proceed);
    assert_eq!(auth_middleware(Some(""), Some("whatever")), AuthDecision::Proceed);
}

#[test]
fn header_must_match_character_for_character() {
    assert_eq!(auth_middleware(Some("secret"), Some("Secret")), AuthDecision::Unauthorized);
    assert_eq!(auth_middleware(Some("secret"), Some("secret ")), AuthDecision::Unauthorized);
    assert_eq!(auth_middleware(Some("secret"), Some("")), AuthDecision::Unauthorized);
    assert_eq!(auth_middleware(Some("sécret"), Some("sécret")), AuthDecision::Proceed);
    assert_eq!(auth_middleware(Some("sécret"), Some("secret")), AuthDecision::Unauthorized);
}
