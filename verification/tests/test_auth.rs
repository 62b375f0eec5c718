use toro::{bearer_token, check_token, issue_token, token_to_issue, AuthFailure};

#[test]
fn bearer_token_strips_the_prefix() {
    assert_eq!(bearer_token(Some("Bearer test-token-abc123")), Some("test-token-abc123"));
    assert_eq!(bearer_token(Some("Bearer ")), Some(""));
    assert_eq!(bearer_token(Some("Basic abc")), None);
    assert_eq!(bearer_token(Some("bearer abc")), None);
    assert_eq!(bearer_token(Some("Bearer")), None);
    assert_eq!(bearer_token(None), None);
}

#[test]
fn issued_token_is_hex_and_verifies() {
    let issued = issue_token().expect("hash failed");
    assert_eq!(issued.token.len(), 64);
    assert!(issued.token.chars().all(|c| c.is_ascii_digit() || ('a'..='f').contains(&c)));
    assert!(issued.token_hash.starts_with("$2b$12$"), "got {}", issued.token_hash);
    assert_eq!(issued.token_hash.len(), 60);
    assert!(check_token(&issued.token, &Some(issued.token_hash.clone())).is_ok());
}

#[test]
fn wrong_or_unchecked_tokens_are_refused() {
    let issued = issue_token().expect("hash failed");
    let hash = Some(issued.token_hash.clone());
    assert_eq!(check_token("wrong-token", &hash).err(), Some(AuthFailure::Unauthorized));
    assert_eq!(check_token(&issued.token, &None).err(), Some(AuthFailure::ServerError));
    assert_eq!(
        check_token(&issued.token, &Some("not a hash".to_string())).err(),
        Some(AuthFailure::Unauthorized)
    );
}

#[test]
fn token_is_issued_only_once() {
    let first = token_to_issue(&None).expect("hash failed").expect("a token");
    assert!(first.token_hash.starts_with("$2b$"));
    let again = token_to_issue(&Some(first.token_hash.clone())).expect("no error");
    assert!(again.is_none());
}

#[test]
fn two_issued_tokens_differ() {
    let a = issue_token().expect("hash failed");
    let b = issue_token().expect("hash failed");
    assert_ne!(a.token, b.token);
    assert!(check_token(&a.token, &Some(b.token_hash.clone())).is_err());
}

/// The guard's decision for one request, with the hash stored in the database.
fn authenticate(header: Option<&str>, stored_hash: &Option<String>) -> Result<(), AuthFailure> {
    match bearer_token(header) {
        None => Err(AuthFailure::Unauthorized),
        Some(token) => check_token(token, stored_hash).map(|_| ()),
    }
}

fn seeded_hash() -> Option<String> {
    Some(bcrypt::hash("test-token-abc123", bcrypt::DEFAULT_COST).expect("hash failed"))
}

#[test]
fn valid_token_is_accepted() {
    let hash = seeded_hash();
    assert_eq!(authenticate(Some("Bearer test-token-abc123"), &hash), Ok(()));
}

#[test]
fn missing_token_is_rejected() {
    let hash = seeded_hash();
    assert_eq!(authenticate(None, &hash), Err(AuthFailure::Unauthorized));
}

#[test]
fn wrong_token_is_rejected() {
    let hash = seeded_hash();
    assert_eq!(authenticate(Some("Bearer wrong-token"), &hash), Err(AuthFailure::Unauthorized));
}
