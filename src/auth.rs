//! The authorization check in front of every session: a bearer token must carry a valid
//! signature, the subject the route expects, and an expiry that has not
//! passed.
use vstd::prelude::*;
use vstd::string::StringExecFns;

verus! {

/// The request methods that a policy tells apart.
#[derive(Clone, Copy, Debug, PartialEq, Eq, Structural)]
pub enum Method {
    Get,
    Post,
    Other,
}

/// Why a request was refused.
#[derive(Clone, Copy, Debug, PartialEq, Eq, Structural)]
pub enum AuthError {
    /// No bearer token came with the request.
    MissingToken,
    /// The token is malformed, its signature does not check out, or it
    /// lacks an `exp` claim.
    InvalidToken,
    /// The token's signature checks out, but it has no string `sub` claim,
    /// or its `exp` claim does not fit in an `i64`.
    MissingClaims,
    /// The token's subject is not the one the route expects.
    SubjectMismatch,
    /// The token's expiry has passed.
    Expired,
}

/// Whether `token` is a well-formed HS256 token whose signature checks out
/// with `secret`, whose `exp` claim is present as a non-negative integer,
/// and which carries no `aud` claim.
pub uninterp spec fn token_accepted(token: Seq<char>, secret: Seq<char>) -> bool;

/// The `exp` claim in the payload of `token`, where it is an integer that
/// fits in an `i64`.
pub uninterp spec fn token_exp(token: Seq<char>) -> Option<i64>;

/// The `sub` claim in the payload of `token`, where it is a string.
pub uninterp spec fn token_sub(token: Seq<char>) -> Option<Seq<char>>;

/// jsonwebtoken's error: why a token was refused, opaque here.
#[verifier::external_type_specification]
#[verifier::external_body]
pub struct ExJwtError(jsonwebtoken::errors::Error);

/// Relies on `jsonwebtoken::decode`, with HS256, the secret as an HMAC key,
/// and no check that depends on the clock (`exp` must be present, but its
/// value is left to the caller), decoding the claims as a JSON value; and on
/// serde_json's `Value::pointer`, `Value::as_i64` and `Value::as_str` to read
/// its `exp` and `sub` claims. The outcome then depends on the token and the
/// secret alone, and the claims on the token alone.
#[verifier::external_body]
fn decode_claims(token: &str, secret: &str) -> (r: Result<
    (Option<i64>, Option<String>),
    jsonwebtoken::errors::Error,
>)
    ensures
        r is Ok <==> token_accepted(token@, secret@),
        r is Ok ==> r->Ok_0.0 == token_exp(token@) && opt_view(r->Ok_0.1) == token_sub(token@),
{
    let mut validation = jsonwebtoken::Validation::new(jsonwebtoken::Algorithm::HS256);
    validation.validate_exp = false;
    let key = jsonwebtoken::DecodingKey::from_secret(secret.as_bytes());
    let data = jsonwebtoken::decode::<serde_json::Value>(token, &key, &validation)?;
    let exp = data.claims.pointer("/exp").and_then(serde_json::Value::as_i64);
    let sub = data.claims.pointer("/sub").and_then(serde_json::Value::as_str).map(String::from);
    Ok((exp, sub))
}

/// The verdict on a token whose signature checked out, from its `exp` and
/// `sub` claims: the subject must be the expected one and the expiry must
/// not lie before `now`.
pub open spec fn claims_verdict(
    exp: Option<i64>,
    sub: Option<Seq<char>>,
    expected_sub: Seq<char>,
    now: i64,
) -> Result<(), AuthError> {
    match (exp, sub) {
        (Some(e), Some(s)) => if s != expected_sub {
            Err(AuthError::SubjectMismatch)
        } else if e < now {
            Err(AuthError::Expired)
        } else {
            Ok(())
        },
        _ => Err(AuthError::MissingClaims),
    }
}

/// The view of an optional string.
pub open spec fn opt_view(s: Option<String>) -> Option<Seq<char>> {
    match s {
        Some(t) => Some(t@),
        None => None,
    }
}

/// Checks the claims of a token whose signature checked out.
pub fn check_claims(exp: Option<i64>, sub: Option<String>, expected_sub: &str, now: i64) -> (r:
    Result<(), AuthError>)
    ensures
        r == claims_verdict(exp, opt_view(sub), expected_sub@, now),
        exp.is_some() && sub.is_some() && exp.unwrap() < now ==> r.is_err(),
        sub.is_some() && sub.unwrap()@ != expected_sub@ ==> r.is_err(),
{
    match (exp, sub) {
        (Some(e), Some(s)) => {
            if !str_eq(s.as_str(), expected_sub) {
                Err(AuthError::SubjectMismatch)
            } else if e < now {
                Err(AuthError::Expired)
            } else {
                Ok(())
            }
        },
        _ => Err(AuthError::MissingClaims),
    }
}

fn str_eq(a: &str, b: &str) -> (r: bool)
    ensures
        r == (a@ == b@),
{
    let x = String::from_str(a);
    let y = String::from_str(b);
    x == y
}

/// Supplies, for each request, the secret that its token must be signed
/// with and the subject that it must carry.
pub trait AuthPolicy {
    /// The secret and subject for a request.
    spec fn spec_credentials(&self, method: Method, path: Seq<char>) -> (Seq<char>, Seq<char>);

    /// The secret and subject for a request.
    fn credentials(&self, method: Method, path: &str) -> (r: (String, String))
        ensures
            r.0@ == self.spec_credentials(method, path@).0,
            r.1@ == self.spec_credentials(method, path@).1;
}

/// A policy that depends on the method alone: one secret and subject for
/// reading, one for posting, and empty ones for anything else.
pub struct MethodPolicy {
    pub get_secret: String,
    pub get_subject: String,
    pub post_secret: String,
    pub post_subject: String,
}

impl MethodPolicy {
    /// A policy from the secret and subject for reading and for posting.
    pub fn new(get_secret: String, get_subject: String, post_secret: String, post_subject: String) -> (r:
        MethodPolicy)
        ensures
            r.get_secret@ == get_secret@,
            r.get_subject@ == get_subject@,
            r.post_secret@ == post_secret@,
            r.post_subject@ == post_subject@,
    {
        MethodPolicy { get_secret, get_subject, post_secret, post_subject }
    }
}

impl AuthPolicy for MethodPolicy {
    open spec fn spec_credentials(&self, method: Method, path: Seq<char>) -> (Seq<char>, Seq<char>) {
        match method {
            Method::Get => (self.get_secret@, self.get_subject@),
            Method::Post => (self.post_secret@, self.post_subject@),
            Method::Other => (Seq::empty(), Seq::empty()),
        }
    }

    fn credentials(&self, method: Method, path: &str) -> (r: (String, String)) {
        match method {
            Method::Get => (self.get_secret.clone(), self.get_subject.clone()),
            Method::Post => (self.post_secret.clone(), self.post_subject.clone()),
            Method::Other => (String::new(), String::new()),
        }
    }
}

/// The authorizer: checks each request's bearer token against what its policy
/// asks of that request.
pub struct JWTAuthorizer<P: AuthPolicy> {
    handler_func: P,
}

impl<P: AuthPolicy> JWTAuthorizer<P> {
    /// An authorizer that asks of each request what `f` gives for it.
    pub fn new(f: P) -> (r: Self)
        ensures
            r.policy() == f,
    {
        JWTAuthorizer { handler_func: f }
    }

    /// The policy of the authorizer.
    pub closed spec fn policy(&self) -> P {
        self.handler_func
    }

    /// Checks the bearer token `token` of a request with `method` on `path`
    /// at the time `now` (seconds since the Unix epoch). Without a token the
    /// request is refused; a token whose signature does not check out with
    /// the policy's secret is invalid; otherwise the verdict is that of its
    /// claims against the policy's subject.
    pub fn start(&self, method: Method, path: &str, token: Option<&str>, now: i64) -> (r: Result<
        (),
        AuthError,
    >)
        ensures
            ({
                let (secret, subject) = self.policy().spec_credentials(method, path@);
                match token {
                    None => r == Err::<(), AuthError>(AuthError::MissingToken),
                    Some(t) => if !token_accepted(t@, secret) {
                        r == Err::<(), AuthError>(AuthError::InvalidToken)
                    } else {
                        r == claims_verdict(token_exp(t@), token_sub(t@), subject, now)
                    },
                }
            }),
    {
        let (secret, subject) = self.handler_func.credentials(method, path);
        match token {
            None => Err(AuthError::MissingToken),
            Some(t) => match decode_claims(t, secret.as_str()) {
                Err(_) => Err(AuthError::InvalidToken),
                Ok((exp, sub)) => check_claims(exp, sub, subject.as_str(), now),
            },
        }
    }
}

} // verus!
