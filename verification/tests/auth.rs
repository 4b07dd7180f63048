use authfetch::Authorizer;
use authfetch::BasicAuth;
use authfetch::BearerTokenAuthorizer;
use authfetch::Request;

fn fresh_request() -> Request {
    Request::get(String::from("http://example.test/resource"))
}

#[test]
fn request_get_starts_bare() {
    let r = fresh_request();
    assert_eq!(r.url, "http://example.test/resource");
    assert!(r.authorization.is_none());
}

#[test]
fn bearer_sets_exact_header() {
    let a = BearerTokenAuthorizer::new("key", "value");
    let r = a.authorize_request(fresh_request());
    assert_eq!(r.url, "http://example.test/resource");
    assert_eq!(r.authorization.as_deref(), Some("Bearer value"));
}

#[test]
fn bearer_overwrites_existing_header() {
    let a = BearerTokenAuthorizer::new("key", "value");
    let mut r = fresh_request();
    r.authorization = Some(String::from("Bearer stale"));
    let r = a.authorize_request(r);
    assert_eq!(r.authorization.as_deref(), Some("Bearer value"));
}

#[test]
fn bearer_key_is_inert() {
    let a = BearerTokenAuthorizer::new("key", "value");
    let b = BearerTokenAuthorizer::new("a-wholly-different-key", "value");
    let ra = a.authorize_request(fresh_request());
    let rb = b.authorize_request(fresh_request());
    assert_eq!(ra.authorization, rb.authorization);
}

#[test]
fn bearer_idempotent() {
    let a = BearerTokenAuthorizer::new("key", "value");
    let once = a.authorize_request(fresh_request());
    let twice = a.authorize_request(a.authorize_request(fresh_request()));
    assert_eq!(once.url, twice.url);
    assert_eq!(once.authorization, twice.authorization);
}

#[test]
fn bearer_deterministic() {
    let a = BearerTokenAuthorizer::new("key", "value");
    let b = BearerTokenAuthorizer::new("key", "value");
    let ra = a.authorize_request(fresh_request());
    let rb = b.authorize_request(fresh_request());
    assert_eq!(ra.authorization, rb.authorization);
}

#[test]
fn basic_sets_exact_header() {
    let a = BasicAuth::new("user", "password");
    let r = a.authorize_request(fresh_request());
    assert_eq!(r.url, "http://example.test/resource");
    assert_eq!(r.authorization.as_deref(), Some("Basic dXNlcjpwYXNzd29yZA=="));
}

#[test]
fn basic_empty_credentials() {
    let a = BasicAuth::new("", "");
    let r = a.authorize_request(fresh_request());
    assert_eq!(r.authorization.as_deref(), Some("Basic Og=="));
}

#[test]
fn basic_non_ascii_credentials() {
    let a = BasicAuth::new("a\u{e9}", "\u{2603}");
    let r = a.authorize_request(fresh_request());
    assert_eq!(r.authorization.as_deref(), Some("Basic YcOpOuKYgw=="));
}

#[test]
fn basic_idempotent() {
    let a = BasicAuth::new("user", "password");
    let once = a.authorize_request(fresh_request());
    let twice = a.authorize_request(a.authorize_request(fresh_request()));
    assert_eq!(once.authorization, twice.authorization);
}

#[test]
fn enum_dispatches_to_each_scheme() {
    let bearer = Authorizer::Bearer(BearerTokenAuthorizer::new("key", "value"));
    let basic = Authorizer::Basic(BasicAuth::new("user", "password"));
    let rb = bearer.authorize_request(fresh_request());
    let ra = basic.authorize_request(fresh_request());
    assert_eq!(rb.authorization.as_deref(), Some("Bearer value"));
    assert_eq!(ra.authorization.as_deref(), Some("Basic dXNlcjpwYXNzd29yZA=="));
}

#[test]
fn authorized_get_builds_and_stamps() {
    let auth = Authorizer::Bearer(BearerTokenAuthorizer::new("key", "value"));
    let r = auth.authorized_get(String::from("http://example.test/protected"));
    assert_eq!(r.url, "http://example.test/protected");
    assert_eq!(r.authorization.as_deref(), Some("Bearer value"));
}

#[test]
fn clone_keeps_credentials() {
    let auth = Authorizer::Basic(BasicAuth::new("user", "password"));
    let copy = auth.clone();
    let ra = auth.authorize_request(fresh_request());
    let rc = copy.authorize_request(fresh_request());
    assert_eq!(ra.authorization, rc.authorization);
}
