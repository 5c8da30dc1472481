use netgol::auth::{
    identify, provider_list, session_for, user_for, LoginFailure, PendingLogins, PENDING_TTL_NANOS,
    SESSION_MAX_AGE_SECS,
};
use netgol::config::OidcProvider;
use netgol::user_store::{digest_id, digest_key, UserStore};

fn begin(t: &mut PendingLogins, state: &str, provider: &str, now: u64) {
    t.begin(state.to_string(), format!("verifier of {state}"), provider.to_string(), now);
}

#[test]
fn logins_are_finished_once() {
    let mut t = PendingLogins::new();
    begin(&mut t, "s1", "google", 0);
    begin(&mut t, "s2", "github", 5);
    assert_eq!(t.finish("s1", "google", 10), Some("verifier of s1".to_string()));
    assert_eq!(t.finish("s1", "google", 10), None);
    assert_eq!(t.finish("s3", "google", 10), None);
    assert_eq!(t.finish("s2", "github", 10), Some("verifier of s2".to_string()));
    assert!(t.entries.is_empty());
}

#[test]
fn logins_are_bound_to_their_provider() {
    let mut t = PendingLogins::new();
    begin(&mut t, "s", "google", 0);
    assert_eq!(t.finish("s", "github", 1), None);
    assert_eq!(t.finish("s", "google", 1), None);
}

#[test]
fn logins_expire() {
    let mut t = PendingLogins::new();
    begin(&mut t, "a", "p", 100);
    begin(&mut t, "b", "p", 100);
    assert!(t.finish("a", "p", 99 + PENDING_TTL_NANOS).is_some());
    assert!(t.finish("b", "p", 100 + PENDING_TTL_NANOS).is_none());
    begin(&mut t, "c", "p", 100);
    begin(&mut t, "d", "p", 100 + PENDING_TTL_NANOS);
    assert_eq!(t.entries.len(), 1);
    assert_eq!(t.entries[0].state, "d");
}

#[test]
fn beginning_again_replaces() {
    let mut t = PendingLogins::new();
    begin(&mut t, "a", "p", 0);
    begin(&mut t, "a", "q", 1);
    assert_eq!(t.entries.len(), 1);
    assert!(t.finish("a", "q", 2).is_some());
}

#[test]
fn names_fall_back() {
    let s = |t: &str| Some(t.to_string());
    let pair = |a: &str, b: &str| Ok((a.to_string(), b.to_string()));
    assert_eq!(identify(s("e@x"), s("Full"), s("login")), pair("e@x", "Full"));
    assert_eq!(identify(s("e@x"), None, s("login")), pair("e@x", "login"));
    assert_eq!(identify(s("e@x"), None, None), pair("e@x", "e@x"));
    assert_eq!(identify(None, s("Full"), None), Err(LoginFailure::NoEmail));
}

#[test]
fn failures_have_statuses() {
    assert_eq!(LoginFailure::NotPending.status(), 400);
    assert_eq!(LoginFailure::UnknownProvider.status(), 404);
    assert_eq!(LoginFailure::Exchange.status(), 401);
    assert_eq!(LoginFailure::Userinfo.status(), 500);
    assert_eq!(LoginFailure::NoEmail.status(), 500);
    assert_eq!(LoginFailure::Store.status(), 500);
    assert_eq!(LoginFailure::Token.status(), 500);
}

#[test]
fn keys_and_ids_are_of_the_digest() {
    // SHA-256 of "abc".
    let key = "ba7816bf8f01cfea414140de5dae2223b00361a396177a9cb410ff61f20015ad";
    assert_eq!(UserStore::email_key("abc"), key);
    assert_eq!(UserStore::email_id("abc"), 0xbf16_78ba);
    assert_eq!(UserStore::file_name("k"), "k.json");
    assert_eq!(UserStore::tmp_name("k"), "k.tmp");
    let mut d = [0u8; 32];
    d[0] = 0x0f;
    d[3] = 0xa0;
    assert_eq!(digest_id(&d), 0xa000_000f);
    assert_eq!(digest_key(&d)[..8], *"0f0000a0");
}

#[test]
fn sessions_last_thirty_days() {
    assert_eq!(SESSION_MAX_AGE_SECS, 30 * 24 * 3600);
    let s = session_for("abc", 1_000);
    assert_eq!(s.exp, 1_000 + 30 * 24 * 3600);
    assert_eq!(s.uid, UserStore::email_id("abc"));
    assert_eq!(s.sub, UserStore::email_key("abc"));
}

#[test]
fn users_are_known_by_email() {
    let u = user_for(&"abc".to_string(), "A".to_string(), "google".to_string());
    assert_eq!(u.id, UserStore::email_id("abc"));
    assert_eq!((u.subject.as_str(), u.email.as_str()), ("abc", "abc"));
    assert_eq!((u.name.as_str(), u.provider.as_str()), ("A", "google"));
}

fn provider(label: Option<&str>) -> OidcProvider {
    OidcProvider {
        client_id: None,
        client_secret: None,
        issuer_url: None,
        auth_url: None,
        token_url: None,
        userinfo_url: None,
        display_name: label.map(|l| l.to_string()),
    }
}

#[test]
fn providers_are_listed_by_slug() {
    let configured = vec![
        ("google".to_string(), provider(Some("Google"))),
        ("github".to_string(), provider(None)),
        ("gitlab".to_string(), provider(None)),
        ("Auth0".to_string(), provider(Some("Auth0"))),
    ];
    let active: Vec<String> = ["google", "Auth0", "github"].iter().map(|s| s.to_string()).collect();
    let list = provider_list(&configured, &active);
    let expected: Vec<(String, String)> = [("Auth0", "Auth0"), ("github", "github"), ("google", "Google")]
        .iter()
        .map(|(a, b)| (a.to_string(), b.to_string()))
        .collect();
    assert_eq!(list, expected);
}
