//! Single-password authentication and per-connection session state.

use vstd::prelude::*;
use vstd::string::*;

use crate::text::{copy_text, trim, trimmed_of, upper_of};
use crate::users::{bcrypt_accepts, create_password_hash, role_allows, verify_hash, AuthError, UserRole};

verus! {

/// Authentication settings of the server.
#[derive(Clone)]
pub struct AuthConfig {
    password_hash: Option<String>,
    /// Whether clients must authenticate.
    pub required: bool,
}

impl AuthConfig {
    /// Whether clients must authenticate.
    pub closed spec fn needs_auth(&self) -> bool {
        self.required
    }

    /// The stored hash, if any.
    pub closed spec fn hash(&self) -> Option<Seq<char>> {
        match &self.password_hash {
            Some(h) => Some(h@),
            None => None,
        }
    }

    /// No authentication.
    pub fn disabled() -> (r: Self)
        ensures
            !r.needs_auth(),
            r.hash() is None,
    {
        AuthConfig { password_hash: None, required: false }
    }

    /// Authentication against a hash read from a password file: the text is
    /// trimmed, and an empty result disables authentication.
    pub fn from_hash_text(contents: &str) -> (r: Self)
        ensures
            trimmed_of(contents@).len() == 0 ==> !r.needs_auth() && r.hash() is None,
            trimmed_of(contents@).len() != 0 ==> r.needs_auth() && r.hash() == Some(
                trimmed_of(contents@),
            ),
    {
        let h = trim(contents);
        if h.as_str().is_empty() {
            AuthConfig::disabled()
        } else {
            AuthConfig { password_hash: Some(h), required: true }
        }
    }

    /// Authentication against a hash of `password`; an empty password
    /// disables authentication.
    pub fn from_password(password: &str) -> (r: Result<Self, AuthError>)
        ensures
            password@.len() == 0 ==> (r matches Ok(c) && !c.needs_auth() && c.hash() is None),
            password@.len() != 0 ==> match r {
                Ok(c) => c.needs_auth() && (c.hash() matches Some(h) && bcrypt_accepts(password@, h)),
                Err(e) => e == AuthError::HashFailed,
            },
    {
        if password.is_empty() {
            return Ok(AuthConfig::disabled());
        }
        match create_password_hash(password) {
            None => Err(AuthError::HashFailed),
            Some(h) => Ok(AuthConfig { password_hash: Some(h), required: true }),
        }
    }

    /// Whether `password` is accepted: always when no hash is configured.
    pub fn verify(&self, password: &str) -> (r: bool)
        ensures
            r == match self.hash() {
                Some(h) => bcrypt_accepts(password@, h),
                None => true,
            },
    {
        match &self.password_hash {
            Some(h) => verify_hash(password, h.as_str()),
            None => true,
        }
    }

    /// Whether clients must authenticate.
    pub fn is_required(&self) -> (r: bool)
        ensures
            r == self.needs_auth(),
    {
        self.required
    }
}

/// A connection's authentication state.
#[derive(Clone)]
pub struct SessionState {
    pub authenticated: bool,
    pub username: Option<String>,
    pub user_role: Option<UserRole>,
}

impl SessionState {
    /// A new session: authenticated as `default` with the admin role when
    /// no authentication is required, else unauthenticated.
    pub fn new(auth_required: bool) -> (r: Self)
        ensures
            r.authenticated == !auth_required,
            auth_required ==> r.username is None && r.user_role is None,
            !auth_required ==> (r.username matches Some(u) && u@ == "default"@),
            !auth_required ==> r.user_role == Some(UserRole::Admin),
    {
        if auth_required {
            SessionState { authenticated: false, username: None, user_role: None }
        } else {
            SessionState {
                authenticated: true,
                username: Some(String::from_str("default")),
                user_role: Some(UserRole::Admin),
            }
        }
    }

    /// Marks the session authenticated as `username` with `role`.
    pub fn authenticate(&mut self, username: String, role: UserRole)
        ensures
            final(self).authenticated,
            (final(self).username matches Some(u) && u@ == username@),
            final(self).user_role == Some(role),
    {
        self.authenticated = true;
        self.username = Some(username);
        self.user_role = Some(role);
    }

    /// Whether the session is authenticated.
    pub fn is_authenticated(&self) -> (r: bool)
        ensures
            r == self.authenticated,
    {
        self.authenticated
    }

    /// Whether the session's role allows `command`; a session without a role
    /// may run nothing.
    pub fn can_execute(&self, command: &str) -> (r: bool)
        ensures
            r == match self.user_role {
                Some(role) => role_allows(role, upper_of(command@)),
                None => false,
            },
    {
        match &self.user_role {
            Some(role) => role.can_execute(command),
            None => false,
        }
    }

    /// The session's user name, or `anonymous`.
    pub fn username(&self) -> (r: String)
        ensures
            r@ == match &self.username {
                Some(u) => u@,
                None => "anonymous"@,
            },
    {
        match &self.username {
            Some(u) => copy_text(u),
            None => String::from_str("anonymous"),
        }
    }
}

} // verus!
