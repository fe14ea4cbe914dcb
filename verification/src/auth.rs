//! Who a request comes from: credentials, token claims, and the rules of
//! registration and login.

use vstd::prelude::*;
use crate::clock::{SECONDS_BOUND, now_seconds, parse_uuid, text_of_uuid, uuid_parsed, uuid_text};
use crate::text::{lowercase, same_text, strip_prefix, to_lower, trim, trimmed};
use crate::types::UserId;

verus! {

/// The hours for which a token is good.
pub const JWT_EXPIRY_HOURS: i64 = 24;

/// The seconds for which a token is good.
pub const JWT_EXPIRY_SECONDS: i64 = 86_400;

/// The claims of a token: the user's identifier as text, the expiry and
/// the time of issue, both in seconds since the Unix epoch.
#[derive(Debug, Clone)]
pub struct Claims {
    pub sub: String,
    pub exp: i64,
    pub iat: i64,
}

/// The user that a request comes from.
#[derive(Debug, Clone, Copy, PartialEq, Eq, Structural)]
pub struct AuthUser {
    pub user_id: UserId,
}

/// What is kept of a user to check a login.
#[derive(Debug, Clone)]
pub struct AuthUserCredential {
    pub user_id: UserId,
    pub username: String,
    pub password_hash: String,
}

/// Why a request is not let in.
#[derive(Clone, Copy, Debug, PartialEq, Eq, Structural)]
pub enum AuthError {
    /// The registration lacks a name or a password.
    CredentialsRequired,
    /// The name is taken.
    UsernameTaken,
    /// The name or the password is wrong.
    InvalidCredentials,
    /// The password could not be hashed.
    HashFailed,
    /// The request has no authorization header.
    MissingHeader,
    /// The authorization header is no bearer token.
    InvalidFormat,
    /// The claims name no user.
    InvalidClaims,
}

impl AuthError {
    /// The HTTP status that reports this refusal.
    pub open spec fn spec_status_code(self) -> u16 {
        match self {
            AuthError::CredentialsRequired => 400,
            AuthError::UsernameTaken => 400,
            AuthError::InvalidCredentials => 401,
            AuthError::HashFailed => 500,
            AuthError::MissingHeader => 401,
            AuthError::InvalidFormat => 401,
            AuthError::InvalidClaims => 401,
        }
    }

    /// The HTTP status that reports this refusal.
    #[verifier::when_used_as_spec(spec_status_code)]
    pub fn status_code(self) -> (code: u16)
        ensures
            code == self.spec_status_code(),
    {
        match self {
            AuthError::CredentialsRequired => 400,
            AuthError::UsernameTaken => 400,
            AuthError::InvalidCredentials => 401,
            AuthError::HashFailed => 500,
            AuthError::MissingHeader => 401,
            AuthError::InvalidFormat => 401,
            AuthError::InvalidClaims => 401,
        }
    }
}

/// What a refusal says.
pub open spec fn refusal_text(e: AuthError) -> Seq<char> {
    match e {
        AuthError::CredentialsRequired => "Username and password are required"@,
        AuthError::UsernameTaken => "Username already taken"@,
        AuthError::InvalidCredentials => "Invalid username or password"@,
        AuthError::HashFailed => "Failed to hash password"@,
        AuthError::MissingHeader => "Missing Authorization header"@,
        AuthError::InvalidFormat => "Invalid Authorization format"@,
        AuthError::InvalidClaims => "Invalid token claims"@,
    }
}

impl AuthError {
    /// What this refusal says.
    pub fn message(self) -> (r: &'static str)
        ensures
            r@ == refusal_text(self),
    {
        match self {
            AuthError::CredentialsRequired => "Username and password are required",
            AuthError::UsernameTaken => "Username already taken",
            AuthError::InvalidCredentials => "Invalid username or password",
            AuthError::HashFailed => "Failed to hash password",
            AuthError::MissingHeader => "Missing Authorization header",
            AuthError::InvalidFormat => "Invalid Authorization format",
            AuthError::InvalidClaims => "Invalid token claims",
        }
    }
}

impl Claims {
    /// The claims for the subject `sub`, issued at `now`.
    pub fn issued(sub: String, now: i64) -> (r: Claims)
        requires
            now + JWT_EXPIRY_SECONDS <= i64::MAX,
        ensures
            r.sub == sub,
            r.iat == now,
            r.exp == now + JWT_EXPIRY_SECONDS,
    {
        Claims { sub, exp: now + JWT_EXPIRY_SECONDS, iat: now }
    }

    /// The claims for a user, issued now: the subject is the user's
    /// identifier as text, and the expiry is a day after the time of issue.
    pub fn new(user_id: UserId) -> (r: Claims)
        ensures
            r.sub@ == uuid_text(user_id),
            r.exp == r.iat + JWT_EXPIRY_SECONDS,
            -SECONDS_BOUND <= r.iat <= SECONDS_BOUND,
    {
        let now = now_seconds();
        Claims::issued(text_of_uuid(user_id), now)
    }
}

/// The token that a request carries in its authorization header.
pub fn bearer_token<'a>(header: Option<&'a str>) -> (r: Result<&'a str, AuthError>)
    ensures
        match r {
            Ok(token) => header matches Some(h) && h@ == "Bearer "@ + token@,
            Err(e) => match header {
                None => e == AuthError::MissingHeader,
                Some(h) => e == AuthError::InvalidFormat && !"Bearer "@.is_prefix_of(h@),
            },
        },
{
    match header {
        None => Err(AuthError::MissingHeader),
        Some(h) => match strip_prefix(h, "Bearer ") {
            Some(token) => Ok(token),
            None => Err(AuthError::InvalidFormat),
        },
    }
}

/// The user that a parsed subject names.
pub fn user_of_subject(parsed: Option<u128>) -> (r: Result<AuthUser, AuthError>)
    ensures
        r == (match parsed {
            Some(user_id) => Ok::<AuthUser, AuthError>(AuthUser { user_id }),
            None => Err::<AuthUser, AuthError>(AuthError::InvalidClaims),
        }),
{
    match parsed {
        Some(user_id) => Ok(AuthUser { user_id }),
        None => Err(AuthError::InvalidClaims),
    }
}

/// The user that the claims of a token name.
pub fn user_of_claims(claims: &Claims) -> (r: Result<AuthUser, AuthError>)
    ensures
        r == (match uuid_parsed(claims.sub@) {
            Some(user_id) => Ok::<AuthUser, AuthError>(AuthUser { user_id }),
            None => Err::<AuthUser, AuthError>(AuthError::InvalidClaims),
        }),
{
    user_of_subject(parse_uuid(claims.sub.as_str()))
}

/// What Argon2 says of a password and a stored hash: whether the hash is
/// one that it reads, and is the hash of the password.
pub uninterp spec fn password_matches(plain: Seq<char>, hash: Seq<char>) -> bool;

/// Checks a password against a stored hash: parses the hash with
/// `PasswordHash::new` and calls `Argon2::default().verify_password`. The
/// answer is a function of the two texts alone; it is known here only by
/// its name, `password_matches`. A hash that does not parse matches nothing.
#[verifier::external_body]
pub fn verify_password(plain: &str, hash: &str) -> (r: bool)
    ensures
        r == password_matches(plain@, hash@),
{
    let parsed = match argon2::password_hash::PasswordHash::new(hash) {
        Ok(p) => p,
        Err(_) => return false,
    };
    argon2::password_hash::PasswordVerifier::verify_password(&argon2::Argon2::default(), plain.as_bytes(), &parsed)
        .is_ok()
}

/// The error of the `password-hash` crate.
#[verifier::external_type_specification]
#[verifier::external_body]
pub struct ExPasswordHashError(argon2::password_hash::Error);

/// Hashes a password with Argon2 under a fresh random salt
/// (`SaltString::generate` with `OsRng`, then
/// `Argon2::default().hash_password`), and hands out the hash as text. The
/// salt is random, so the text is not named; whatever it is, it is a hash
/// of the password: checked against it as `verify_password` does, the
/// password matches, as the crate's documentation shows for these calls.
#[verifier::external_body]
fn argon2_hash(plain: &str) -> (r: Result<String, argon2::password_hash::Error>)
    ensures
        r matches Ok(hash) ==> password_matches(plain@, hash@),
{
    let salt = argon2::password_hash::SaltString::generate(&mut argon2::password_hash::rand_core::OsRng);
    let hash = argon2::password_hash::PasswordHasher::hash_password(
        &argon2::Argon2::default(),
        plain.as_bytes(),
        &salt,
    )?;
    Ok(hash.to_string())
}

/// The hash of a password, for storing it: a text that the password
/// matches when it is checked against it. The only refusal is that the
/// password could not be hashed.
pub fn hash_password(plain: &str) -> (r: Result<String, AuthError>)
    ensures
        match r {
            Ok(hash) => password_matches(plain@, hash@),
            Err(e) => e == AuthError::HashFailed,
        },
{
    match argon2_hash(plain) {
        Ok(hash) => Ok(hash),
        Err(_) => Err(AuthError::HashFailed),
    }
}

/// The user that a login names, if the password is the one stored.
pub open spec fn login_outcome(credential: Option<AuthUserCredential>, matches: bool) -> Result<UserId, AuthError> {
    match credential {
        Some(c) => if matches {
            Ok(c.user_id)
        } else {
            Err(AuthError::InvalidCredentials)
        },
        None => Err(AuthError::InvalidCredentials),
    }
}

/// Decides a login from the stored credential, if there is one, and from
/// whether the password matched it.
pub fn decide_login(credential: Option<&AuthUserCredential>, matches: bool) -> (r: Result<UserId, AuthError>)
    ensures
        r == login_outcome(
            match credential {
                Some(c) => Some(*c),
                None => None,
            },
            matches,
        ),
{
    match credential {
        Some(c) => {
            if matches {
                Ok(c.user_id)
            } else {
                Err(AuthError::InvalidCredentials)
            }
        },
        None => Err(AuthError::InvalidCredentials),
    }
}

/// Checks a login against the stored credential of the name, if there is
/// one: the user is let in exactly if the password matches the stored hash.
pub fn authenticate(credential: Option<&AuthUserCredential>, password: &str) -> (r: Result<UserId, AuthError>)
    ensures
        r == (match credential {
            Some(c) => login_outcome(Some(*c), password_matches(password@, c.password_hash@)),
            None => Err::<UserId, AuthError>(AuthError::InvalidCredentials),
        }),
{
    match credential {
        Some(c) => {
            let matches = verify_password(password, c.password_hash.as_str());
            decide_login(credential, matches)
        },
        None => Err(AuthError::InvalidCredentials),
    }
}

/// The key under which a user name is stored: trimmed, in lower case.
pub fn login_key(username: &str) -> (r: String)
    ensures
        r@ == lowercase(trimmed(username@)),
{
    to_lower(trim(username))
}

/// One stored user: the key of its name, and its credential.
pub struct UserEntry {
    pub key: String,
    pub credential: AuthUserCredential,
}

/// The users by the key of their name.
pub struct UserStore {
    entries: Vec<UserEntry>,
}

impl View for UserStore {
    type V = Seq<UserEntry>;

    closed spec fn view(&self) -> Seq<UserEntry> {
        self.entries@
    }
}

/// The place of the first user stored under `key`, if there is one.
pub open spec fn user_at(entries: Seq<UserEntry>, key: Seq<char>, i: int) -> bool {
    &&& 0 <= i < entries.len()
    &&& entries[i].key@ == key
    &&& forall|j: int| 0 <= j < i ==> (#[trigger] entries[j]).key@ != key
}

/// No user is stored under `key`.
pub open spec fn no_user(entries: Seq<UserEntry>, key: Seq<char>) -> bool {
    forall|j: int| 0 <= j < entries.len() ==> (#[trigger] entries[j]).key@ != key
}

impl UserStore {
    /// A store without users.
    pub fn new() -> (r: Self)
        ensures
            r@.len() == 0,
    {
        UserStore { entries: Vec::new() }
    }

    /// Where the user under `key` is stored.
    fn position(&self, key: &str) -> (r: Option<usize>)
        ensures
            match r {
                Some(i) => user_at(self@, key@, i as int),
                None => no_user(self@, key@),
            },
    {
        let mut i: usize = 0;
        while i < self.entries.len()
            invariant
                0 <= i <= self.entries.len(),
                forall|j: int| 0 <= j < i ==> (#[trigger] self@[j]).key@ != key@,
            decreases self.entries.len() - i,
        {
            if same_text(self.entries[i].key.as_str(), key) {
                return Some(i);
            }
            i = i + 1;
        }
        None
    }

    /// The credential stored under `key`.
    pub fn get(&self, key: &str) -> (r: Option<&AuthUserCredential>)
        ensures
            match r {
                Some(c) => exists|i: int| user_at(self@, key@, i) && *c == self@[i].credential,
                None => no_user(self@, key@),
            },
    {
        match self.position(key) {
            Some(i) => Some(&self.entries[i].credential),
            None => None,
        }
    }

    /// Stores a credential under `key`, in place of the one that is there.
    pub fn insert(&mut self, key: String, credential: AuthUserCredential)
        ensures
            exists|i: int| user_at(final(self)@, key@, i) && final(self)@[i].credential == credential,
            forall|other: Seq<char>, i: int|
                other != key@ && user_at(old(self)@, other, i) ==> exists|j: int|
                    user_at(final(self)@, other, j) && final(self)@[j] == old(self)@[i],
            forall|other: Seq<char>| other != key@ && no_user(old(self)@, other) ==> no_user(final(self)@, other),
    {
        let ghost before = self@;
        match self.position(key.as_str()) {
            Some(i) => {
                self.entries.remove(i);
                self.entries.insert(i, UserEntry { key, credential });
                proof {
                    assert(user_at(self@, key@, i as int));
                    assert forall|other: Seq<char>, a: int| other != key@ && user_at(before, other, a) implies exists|
                        j: int,
                    | user_at(self@, other, j) && self@[j] == before[a] by {
                        assert(self@[a] == before[a]);
                        assert forall|j: int| 0 <= j < a implies (#[trigger] self@[j]).key@ != other by {
                            if j != i {
                                assert(self@[j] == before[j]);
                            }
                        }
                        assert(user_at(self@, other, a));
                    }
                    assert forall|other: Seq<char>| other != key@ && no_user(before, other) implies no_user(
                        self@,
                        other,
                    ) by {
                        assert forall|j: int| 0 <= j < self@.len() implies (#[trigger] self@[j]).key@ != other by {
                            if j != i {
                                assert(self@[j] == before[j]);
                            }
                        }
                    }
                }
            },
            None => {
                self.entries.push(UserEntry { key, credential });
                proof {
                    let n = before.len() as int;
                    assert forall|j: int| 0 <= j < n implies (#[trigger] self@[j]).key@ != key@ by {
                        assert(self@[j] == before[j]);
                    }
                    assert(user_at(self@, key@, n));
                    assert forall|other: Seq<char>, a: int| other != key@ && user_at(before, other, a) implies exists|
                        j: int,
                    | user_at(self@, other, j) && self@[j] == before[a] by {
                        assert(self@[a] == before[a]);
                        assert forall|j: int| 0 <= j < a implies (#[trigger] self@[j]).key@ != other by {
                            assert(self@[j] == before[j]);
                        }
                        assert(user_at(self@, other, a));
                    }
                    assert forall|other: Seq<char>| other != key@ && no_user(before, other) implies no_user(
                        self@,
                        other,
                    ) by {
                        assert forall|j: int| 0 <= j < self@.len() implies (#[trigger] self@[j]).key@ != other by {
                            if j < n {
                                assert(self@[j] == before[j]);
                            }
                        }
                    }
                }
            },
        }
    }
}

/// A registration that may go ahead: the key of the name, and the name and
/// the password as they are taken.
pub struct Registration {
    pub key: String,
    pub username: String,
    pub password: String,
}

/// Checks a registration: the name and the password, trimmed, must not be
/// empty, and no user may be stored under the key of the name.
pub fn check_registration(store: &UserStore, username: &str, password: &str) -> (r: Result<Registration, AuthError>)
    ensures
        ({
            let name = trimmed(username@);
            let word = trimmed(password@);
            let key = lowercase(name);
            match r {
                Ok(reg) => {
                    &&& name.len() > 0
                    &&& word.len() > 0
                    &&& no_user(store@, key)
                    &&& reg.key@ == key
                    &&& reg.username@ == name
                    &&& reg.password@ == word
                },
                Err(e) => if name.len() == 0 || word.len() == 0 {
                    e == AuthError::CredentialsRequired
                } else {
                    e == AuthError::UsernameTaken && !no_user(store@, key)
                },
            }
        }),
{
    let name = trim(username);
    let word = trim(password);
    if name.is_empty() || word.is_empty() {
        return Err(AuthError::CredentialsRequired);
    }
    let key = to_lower(name);
    match store.position(key.as_str()) {
        Some(i) => {
            assert(user_at(store@, key@, i as int));
            assert(store@[i as int].key@ == key@);
            Err(AuthError::UsernameTaken)
        },
        None => Ok(Registration { key, username: name.to_owned(), password: word.to_owned() }),
    }
}

} // verus!
