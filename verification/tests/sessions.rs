use murmur::auth::{
    check, initial_credentials, login, logout, require_auth, session_cookie, AuthConfig, LoginBody,
};

fn body(username: &str, password: &str) -> LoginBody {
    LoginBody { username: username.into(), password: password.into() }
}

#[test]
fn a_session_lasts_from_login_to_logout() {
    let mut auth = AuthConfig::new("admin".into(), "pw".into());
    assert_eq!(check(&auth, None).status, 401);
    let r = login(&mut auth, &body("admin", "pw"));
    assert_eq!(r.status, 200);
    let set = r.set_cookie.unwrap();
    assert!(set.starts_with("session="));
    assert!(set.ends_with("; HttpOnly; Path=/; SameSite=Strict"));
    let cookie = set.split(';').next().unwrap().to_string();
    assert!(require_auth(&auth, Some(&cookie)).is_none());
    assert_eq!(check(&auth, Some(&cookie)).status, 200);
    let other = format!("a=b; {} ; c=d", cookie);
    assert!(require_auth(&auth, Some(&other)).is_none());
    let r = logout(&mut auth, Some(&cookie));
    assert_eq!(r.set_cookie.as_deref(), Some("session=; HttpOnly; Path=/; Max-Age=0; SameSite=Strict"));
    let refused = require_auth(&auth, Some(&cookie)).unwrap();
    assert_eq!((refused.status, refused.error.as_deref()), (401, Some("unauthorized")));
}

#[test]
fn wrong_credentials_are_refused() {
    let mut auth = AuthConfig::new("admin".into(), "pw".into());
    for (u, p) in [("admin", "PW"), ("Admin", "pw"), ("", ""), ("admin", "pw ")] {
        let r = login(&mut auth, &body(u, p));
        assert_eq!((r.status, r.error.as_deref()), (401, Some("invalid credentials")));
        assert!(r.set_cookie.is_none());
    }
    assert!(auth.create_session("admin", "no").is_none());
    assert!(!auth.is_valid(""));
}

#[test]
fn sessions_are_independent() {
    let mut auth = AuthConfig::new("admin".into(), "pw".into());
    let a = auth.create_session("admin", "pw").unwrap();
    let b = auth.create_session("admin", "pw").unwrap();
    assert_ne!(a, b);
    assert_eq!(a.len(), 36);
    assert_eq!(a.chars().filter(|c| *c == '-').count(), 4);
    auth.revoke(&a);
    assert!(!auth.is_valid(&a));
    assert!(auth.is_valid(&b));
    auth.revoke("unknown");
    assert!(auth.is_valid(&b));
}

#[test]
fn tokens_are_valid_until_they_are_revoked() {
    let mut auth = AuthConfig::new("admin".into(), "pw".into());
    let a = auth.create_session("admin", "pw").unwrap();
    assert!(auth.create_session("admin", "no").is_none());
    let b = auth.create_session("admin", "pw").unwrap();
    logout(&mut auth, Some(&format!("session={}", a)));
    let c = auth.create_session("admin", "pw").unwrap();
    logout(&mut auth, None);
    logout(&mut auth, Some("session=unknown"));
    assert_eq!((auth.is_valid(&a), auth.is_valid(&b), auth.is_valid(&c)), (false, true, true));
    auth.revoke(&a);
    auth.revoke(&c);
    assert_eq!((auth.is_valid(&a), auth.is_valid(&b), auth.is_valid(&c)), (false, true, false));
    assert!(!auth.is_valid("unknown"));
}

#[test]
fn tokens_in_cookie_headers() {
    assert_eq!(session_cookie("session=abc").as_deref(), Some("abc"));
    assert_eq!(session_cookie(" x=1;  session=abc ;y=2").as_deref(), Some("abc"));
    assert_eq!(session_cookie("session=a; session=b").as_deref(), Some("a"));
    assert_eq!(session_cookie("mysession=a").as_deref(), None);
    assert_eq!(session_cookie("Session=a").as_deref(), None);
    assert_eq!(session_cookie("session=").as_deref(), Some(""));
    assert_eq!(session_cookie("").as_deref(), None);
}

#[test]
fn passwords_are_made_up_where_none_is_set() {
    let (user, password, generated) = initial_credentials(None, None);
    assert_eq!(user, "admin");
    assert!(generated);
    assert_eq!(password.chars().count(), 12);
    assert_eq!(password.chars().nth(8), Some('-'));
    let (_, again, _) = initial_credentials(None, None);
    assert_ne!(password, again);
    let (user, password, generated) = initial_credentials(Some("u".into()), Some("p".into()));
    assert_eq!((user.as_str(), password.as_str(), generated), ("u", "p", false));
}
