//! Registration and login: the rules, with the user store in memory.

use rust_exchange::auth::{
    authenticate, bearer_token, check_registration, decide_login, hash_password, login_key, user_of_claims,
    user_of_subject, verify_password, AuthError, AuthUser, AuthUserCredential, Claims, UserStore,
    JWT_EXPIRY_HOURS, JWT_EXPIRY_SECONDS,
};
use uuid::Uuid;

/// Registers a user as the exchange does: check, hash, store.
fn register(store: &mut UserStore, username: &str, password: &str) -> Result<(u128, String), AuthError> {
    let reg = check_registration(store, username, password)?;
    let password_hash = hash_password(&reg.password)?;
    let user_id = Uuid::new_v4().as_u128();
    let credential = AuthUserCredential { user_id, username: reg.username.clone(), password_hash };
    store.insert(reg.key, credential);
    Ok((user_id, reg.username))
}

/// Logs a user in as the exchange does: key, look up, check.
fn login(store: &UserStore, username: &str, password: &str) -> Result<u128, AuthError> {
    let key = login_key(username);
    authenticate(store.get(&key), password)
}

#[test]
fn register_returns_201_with_user_id_and_username() {
    let mut store = UserStore::new();
    let (user_id, username) = register(&mut store, "alice", "secret123").unwrap();
    assert_eq!(username, "alice");
    assert_eq!(store.get("alice").unwrap().user_id, user_id);
}

#[test]
fn register_empty_username_returns_400() {
    let mut store = UserStore::new();
    let err = register(&mut store, "", "secret123").unwrap_err();
    assert_eq!(err.status_code(), 400);
    assert!(err.message().contains("required"));
}

#[test]
fn register_empty_password_returns_400() {
    let mut store = UserStore::new();
    let err = register(&mut store, "alice", "").unwrap_err();
    assert_eq!(err.status_code(), 400);
    assert!(err.message().contains("required"));
}

#[test]
fn register_duplicate_username_returns_400() {
    let mut store = UserStore::new();
    assert!(register(&mut store, "bob", "pass1").is_ok());
    let err = register(&mut store, "bob", "pass2").unwrap_err();
    assert_eq!(err.status_code(), 400);
    assert!(err.message().contains("already taken"));
}

#[test]
fn register_then_login_returns_token() {
    let mut store = UserStore::new();
    let (user_id, _) = register(&mut store, "carol", "mypass").unwrap();
    assert_eq!(login(&store, "carol", "mypass"), Ok(user_id));
    let claims = Claims::new(user_id);
    assert_eq!(user_of_claims(&claims), Ok(AuthUser { user_id }));
}

#[test]
fn login_case_insensitive_username() {
    let mut store = UserStore::new();
    let (user_id, username) = register(&mut store, "Alice", "secret").unwrap();
    assert_eq!(username, "Alice");
    assert_eq!(login(&store, "alice", "secret"), Ok(user_id));
    assert_eq!(login(&store, "  ALICE ", "secret"), Ok(user_id));
}

#[test]
fn login_wrong_password_returns_401() {
    let mut store = UserStore::new();
    register(&mut store, "dave", "right").unwrap();
    let err = login(&store, "dave", "wrong").unwrap_err();
    assert_eq!(err, AuthError::InvalidCredentials);
    assert_eq!(err.status_code(), 401);
}

#[test]
fn login_unknown_user_returns_401() {
    let store = UserStore::new();
    let err = login(&store, "nobody", "any").unwrap_err();
    assert_eq!(err, AuthError::InvalidCredentials);
    assert_eq!(err.status_code(), 401);
}

#[test]
fn login_with_env_seeded_user() {
    let hash = hash_password("envpass").unwrap();
    let user_id = Uuid::new_v4().as_u128();
    let mut store = UserStore::new();
    store.insert(
        "seeded".to_string(),
        AuthUserCredential { user_id, username: "seeded".to_string(), password_hash: hash },
    );
    assert_eq!(login(&store, "seeded", "envpass"), Ok(user_id));
}

#[test]
fn registration_trims_and_keys_by_lower_case() {
    let mut store = UserStore::new();
    let reg = check_registration(&store, "  Alice\t", " pw ").ok().unwrap();
    assert_eq!(reg.key, "alice");
    assert_eq!(reg.username, "Alice");
    assert_eq!(reg.password, "pw");
    assert_eq!(check_registration(&store, "   ", "pw").err(), Some(AuthError::CredentialsRequired));
    assert_eq!(check_registration(&store, "al", " \n").err(), Some(AuthError::CredentialsRequired));
    store.insert(
        "alice".to_string(),
        AuthUserCredential { user_id: 1, username: "Alice".to_string(), password_hash: String::new() },
    );
    assert_eq!(check_registration(&store, "ALICE", "pw").err(), Some(AuthError::UsernameTaken));
    assert!(check_registration(&store, "bob", "pw").is_ok());
    assert_eq!(login_key("  MiXed "), "mixed");
}

#[test]
fn user_store_keeps_one_credential_for_each_key() {
    let mut store = UserStore::new();
    let cred = |id: u128| AuthUserCredential { user_id: id, username: "n".to_string(), password_hash: "h".to_string() };
    assert!(store.get("a").is_none());
    store.insert("a".to_string(), cred(1));
    store.insert("b".to_string(), cred(2));
    store.insert("a".to_string(), cred(3));
    assert_eq!(store.get("a").unwrap().user_id, 3);
    assert_eq!(store.get("b").unwrap().user_id, 2);
    assert!(store.get("A").is_none());
}

#[test]
fn password_is_checked_against_its_hash() {
    let hash = hash_password("hunter2").unwrap();
    assert!(verify_password("", &hash_password("").unwrap()));
    assert_ne!(hash, "hunter2");
    assert_ne!(hash, hash_password("hunter2").unwrap());
    assert!(verify_password("hunter2", &hash));
    assert!(!verify_password("hunter3", &hash));
    assert!(!verify_password("hunter2", "no hash at all"));
    assert!(!verify_password("hunter2", "hunter2"));
}

#[test]
fn login_is_decided_by_the_credential_and_the_match() {
    let cred = AuthUserCredential { user_id: 5, username: "n".to_string(), password_hash: "h".to_string() };
    assert_eq!(decide_login(Some(&cred), true), Ok(5));
    assert_eq!(decide_login(Some(&cred), false), Err(AuthError::InvalidCredentials));
    assert_eq!(decide_login(None, true), Err(AuthError::InvalidCredentials));
    assert_eq!(authenticate(None, "x"), Err(AuthError::InvalidCredentials));
}

#[test]
fn bearer_token_is_what_follows_the_scheme() {
    assert_eq!(bearer_token(None), Err(AuthError::MissingHeader));
    assert_eq!(bearer_token(Some("Basic abc")), Err(AuthError::InvalidFormat));
    assert_eq!(bearer_token(Some("bearer abc")), Err(AuthError::InvalidFormat));
    assert_eq!(bearer_token(Some("Bearer")), Err(AuthError::InvalidFormat));
    assert_eq!(bearer_token(Some("Bearer abc.def")), Ok("abc.def"));
    assert_eq!(bearer_token(Some("Bearer ")), Ok(""));
}

#[test]
fn claims_name_the_user_and_expire_in_a_day() {
    let id = 0xa1a2a3a4_b1b2_c1c2_d1d2_d3d4d5d6d7d8u128;
    let claims = Claims::new(id);
    assert_eq!(claims.sub, "a1a2a3a4-b1b2-c1c2-d1d2-d3d4d5d6d7d8");
    assert_eq!(claims.exp - claims.iat, 24 * 3600);
    assert_eq!(JWT_EXPIRY_SECONDS, JWT_EXPIRY_HOURS * 3600);
    assert!(claims.iat > 1_600_000_000);
    assert!(claims.iat < 1i64 << 48);
    let at = Claims::issued("s".to_string(), 1_000);
    assert_eq!((at.sub.as_str(), at.iat, at.exp), ("s", 1_000, 87_400));
}

#[test]
fn subject_must_be_a_uuid() {
    let id = 0xa1a2a3a4_b1b2_c1c2_d1d2_d3d4d5d6d7d8u128;
    let good = Claims { sub: "a1a2a3a4-b1b2-c1c2-d1d2-d3d4d5d6d7d8".to_string(), exp: 0, iat: 0 };
    let bad = Claims { sub: "alice".to_string(), exp: 0, iat: 0 };
    assert_eq!(user_of_claims(&good), Ok(AuthUser { user_id: id }));
    assert_eq!(user_of_claims(&bad), Err(AuthError::InvalidClaims));
    assert_eq!(user_of_subject(Some(9)), Ok(AuthUser { user_id: 9 }));
    assert_eq!(user_of_subject(None), Err(AuthError::InvalidClaims));
}

#[test]
fn auth_refusals_have_their_status_and_text() {
    let all = [
        (AuthError::CredentialsRequired, 400, "Username and password are required"),
        (AuthError::UsernameTaken, 400, "Username already taken"),
        (AuthError::InvalidCredentials, 401, "Invalid username or password"),
        (AuthError::HashFailed, 500, "Failed to hash password"),
        (AuthError::MissingHeader, 401, "Missing Authorization header"),
        (AuthError::InvalidFormat, 401, "Invalid Authorization format"),
        (AuthError::InvalidClaims, 401, "Invalid token claims"),
    ];
    for (e, status, text) in all {
        assert_eq!(e.status_code(), status);
        assert_eq!(e.message(), text);
    }
}
