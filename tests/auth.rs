use sseplex::auth::{check_claims, AuthError, JWTAuthorizer, Method, MethodPolicy};

fn token(secret: &str, sub: Option<&str>, exp: Option<i64>) -> String {
    let mut m = serde_json::Map::new();
    if let Some(s) = sub {
        m.insert("sub".to_string(), serde_json::Value::String(s.to_string()));
    }
    if let Some(e) = exp {
        m.insert("exp".to_string(), serde_json::Value::from(e));
    }
    let claims = serde_json::Value::Object(m);
    jsonwebtoken::encode(
        &jsonwebtoken::Header::default(),
        &claims,
        &jsonwebtoken::EncodingKey::from_secret(secret.as_bytes()),
    )
    .unwrap()
}

fn authorizer() -> JWTAuthorizer<MethodPolicy> {
    JWTAuthorizer::new(MethodPolicy::new(
        "foo".to_string(),
        "sseplex".to_string(),
        "foofoo".to_string(),
        "sseplexx".to_string(),
    ))
}

const NOW: i64 = 1_700_000_000;

#[test]
fn valid_token_passes() {
    let t = token("foo", Some("sseplex"), Some(NOW + 100));
    assert_eq!(authorizer().start(Method::Get, "/news", Some(t.as_str()), NOW), Ok(()));
    let t = token("foofoo", Some("sseplexx"), Some(NOW));
    assert_eq!(authorizer().start(Method::Post, "/news", Some(t.as_str()), NOW), Ok(()));
}

#[test]
fn expired_token_is_rejected() {
    let t = token("foo", Some("sseplex"), Some(NOW - 1));
    assert_eq!(authorizer().start(Method::Get, "/news", Some(t.as_str()), NOW), Err(AuthError::Expired));
}

#[test]
fn wrong_subject_is_rejected() {
    let t = token("foo", Some("someone"), Some(NOW + 100));
    assert_eq!(
        authorizer().start(Method::Get, "/news", Some(t.as_str()), NOW),
        Err(AuthError::SubjectMismatch)
    );
    let t = token("foofoo", Some("sseplex"), Some(NOW + 100));
    assert_eq!(
        authorizer().start(Method::Post, "/news", Some(t.as_str()), NOW),
        Err(AuthError::SubjectMismatch)
    );
}

#[test]
fn bad_signature_is_rejected() {
    let t = token("other", Some("sseplex"), Some(NOW + 100));
    assert_eq!(authorizer().start(Method::Get, "/news", Some(t.as_str()), NOW), Err(AuthError::InvalidToken));
    assert_eq!(
        authorizer().start(Method::Get, "/news", Some("not.a.token"), NOW),
        Err(AuthError::InvalidToken)
    );
}

#[test]
fn missing_token_is_rejected() {
    assert_eq!(authorizer().start(Method::Get, "/news", None, NOW), Err(AuthError::MissingToken));
}

#[test]
fn token_without_subject_is_rejected() {
    let t = token("foo", None, Some(NOW + 100));
    assert_eq!(authorizer().start(Method::Get, "/news", Some(t.as_str()), NOW), Err(AuthError::MissingClaims));
}

#[test]
fn token_without_expiry_is_rejected() {
    let t = token("foo", Some("sseplex"), None);
    assert_eq!(authorizer().start(Method::Get, "/news", Some(t.as_str()), NOW), Err(AuthError::InvalidToken));
}

#[test]
fn other_methods_use_empty_credentials() {
    let t = token("foo", Some("sseplex"), Some(NOW + 100));
    assert_eq!(authorizer().start(Method::Other, "/news", Some(t.as_str()), NOW), Err(AuthError::InvalidToken));
}

#[test]
fn claims_verdicts() {
    assert_eq!(check_claims(Some(10), Some("s".to_string()), "s", 10), Ok(()));
    assert_eq!(check_claims(Some(9), Some("s".to_string()), "s", 10), Err(AuthError::Expired));
    assert_eq!(
        check_claims(Some(20), Some("t".to_string()), "s", 10),
        Err(AuthError::SubjectMismatch)
    );
    assert_eq!(check_claims(None, Some("s".to_string()), "s", 10), Err(AuthError::MissingClaims));
    assert_eq!(check_claims(Some(20), None, "s", 10), Err(AuthError::MissingClaims));
}
