//! Users, roles and the role policy.

use vstd::prelude::*;
use vstd::string::*;

use crate::text::{copy_text, text_is, to_upper, upper_of};

verus! {

/// What `bcrypt::verify` answers for a password and a stored hash.
pub uninterp spec fn bcrypt_accepts(password: Seq<char>, hash: Seq<char>) -> bool;

/// Relies on `bcrypt::verify`: whether the password matches the hash; a
/// malformed hash (an error from bcrypt) matches nothing.
#[verifier::external_body]
pub(crate) fn verify_hash(password: &str, hash: &str) -> (r: bool)
    ensures
        r == bcrypt_accepts(password@, hash@),
{
    bcrypt::verify(password, hash).unwrap_or(false)
}

/// A password hash for a password file or a user record.
/// Relies on `bcrypt::hash` at the default cost: a freshly salted hash of the
/// password, or `None` when hashing fails. The salt is random, so nothing is
/// stated of the text.
#[verifier::external_body]
pub fn create_password_hash(password: &str) -> (r: Option<String>)
    ensures
        r matches Some(h) ==> bcrypt_accepts(password@, h@),
{
    bcrypt::hash(password, bcrypt::DEFAULT_COST).ok()
}

/// Failures of user and password management.
#[derive(Debug, Clone, Copy, PartialEq, Eq, Structural)]
pub enum AuthError {
    /// A user of that name exists already.
    UserExists,
    /// No user of that name.
    UserNotFound,
    /// The `admin` account cannot be deleted.
    CannotDeleteAdmin,
    /// Hashing the password failed.
    HashFailed,
}

/// A user's role.
#[derive(Debug, Clone, Copy, PartialEq, Eq, Structural)]
pub enum UserRole {
    /// Every command.
    Admin,
    /// Every command but flushing and user or server administration.
    ReadWrite,
    /// Reading commands only.
    ReadOnly,
}

/// Commands that only an admin may run.
pub open spec fn admin_only_command(c: Seq<char>) -> bool {
    c == "FLUSHDB"@ || c == "FLUSHALL"@ || c == "USER"@ || c == "ACL"@ || c == "CONFIG"@
}

/// Commands that a read-only user may run.
pub open spec fn read_only_command(c: Seq<char>) -> bool {
    c == "GET"@ || c == "MGET"@ || c == "EXISTS"@ || c == "KEYS"@ || c == "DBSIZE"@ || c
        == "INFO"@ || c == "PING"@ || c == "ECHO"@
}

/// Whether `role` may run the (upper-case) command `c`.
pub open spec fn role_allows(role: UserRole, c: Seq<char>) -> bool {
    match role {
        UserRole::Admin => true,
        UserRole::ReadWrite => !admin_only_command(c),
        UserRole::ReadOnly => read_only_command(c),
    }
}

fn is_admin_only(c: &String) -> (r: bool)
    ensures
        r == admin_only_command(c@),
{
    text_is(c, "FLUSHDB") || text_is(c, "FLUSHALL") || text_is(c, "USER") || text_is(c, "ACL")
        || text_is(c, "CONFIG")
}

fn is_read_only(c: &String) -> (r: bool)
    ensures
        r == read_only_command(c@),
{
    text_is(c, "GET") || text_is(c, "MGET") || text_is(c, "EXISTS") || text_is(c, "KEYS")
        || text_is(c, "DBSIZE") || text_is(c, "INFO") || text_is(c, "PING") || text_is(c, "ECHO")
}

impl UserRole {
    /// Whether this role may run `command`, taken as it is (upper case).
    pub fn allows(&self, command: &String) -> (r: bool)
        ensures
            r == role_allows(*self, command@),
    {
        match self {
            UserRole::Admin => true,
            UserRole::ReadWrite => !is_admin_only(command),
            UserRole::ReadOnly => is_read_only(command),
        }
    }

    /// Whether this role may run `command` (compared case-insensitively).
    pub fn can_execute(&self, command: &str) -> (r: bool)
        ensures
            r == role_allows(*self, upper_of(command@)),
    {
        let cmd = to_upper(command);
        self.allows(&cmd)
    }
}

/// A user account.
#[derive(Debug, Clone)]
pub struct User {
    pub username: String,
    /// Bcrypt hash of the password.
    pub password_hash: String,
    pub role: UserRole,
    pub active: bool,
    /// Optional database restriction (`None` for all).
    pub database: Option<String>,
}

impl User {
    /// An active user with a freshly hashed password.
    pub fn new(username: String, password: &str, role: UserRole) -> (r: Result<User, AuthError>)
        ensures
            r is Err ==> r == Err::<User, AuthError>(AuthError::HashFailed),
            r matches Ok(u) ==> u.username@ == username@ && u.role == role && u.active
                && u.database is None && bcrypt_accepts(password@, u.password_hash@),
    {
        match create_password_hash(password) {
            None => Err(AuthError::HashFailed),
            Some(h) => Ok(User { username, password_hash: h, role, active: true, database: None }),
        }
    }

    /// Whether `password` matches the stored hash.
    pub fn verify_password(&self, password: &str) -> (r: bool)
        ensures
            r == bcrypt_accepts(password@, self.password_hash@),
    {
        verify_hash(password, self.password_hash.as_str())
    }

    /// Whether this user may run `command`: the user is active and the role allows it.
    pub fn can_execute(&self, command: &str) -> (r: bool)
        ensures
            r == (self.active && role_allows(self.role, upper_of(command@))),
    {
        self.active && self.role.can_execute(command)
    }

    /// A field-by-field copy.
    pub fn copy(&self) -> (r: User)
        ensures
            r.username@ == self.username@,
            r.password_hash@ == self.password_hash@,
            r.role == self.role,
            r.active == self.active,
            same_database(r.database, self.database),
    {
        User {
            username: copy_text(&self.username),
            password_hash: copy_text(&self.password_hash),
            role: self.role,
            active: self.active,
            database: match &self.database {
                Some(d) => Some(copy_text(d)),
                None => None,
            },
        }
    }
}

/// Whether two database restrictions hold the same text.
pub open spec fn same_database(a: Option<String>, b: Option<String>) -> bool {
    match (a, b) {
        (Some(x), Some(y)) => x@ == y@,
        (None, None) => true,
        _ => false,
    }
}

/// Whether two user records hold the same name, hash, role, flag and restriction.
pub open spec fn same_user(a: User, b: User) -> bool {
    &&& a.username@ == b.username@
    &&& a.password_hash@ == b.password_hash@
    &&& a.role == b.role
    &&& a.active == b.active
    &&& same_database(a.database, b.database)
}

/// Whether no two users share a name.
pub open spec fn names_unique(s: Seq<User>) -> bool {
    forall|i: int, j: int| 0 <= i < j < s.len() ==> s[i].username@ != s[j].username@
}

/// Whether some user is named `name`.
pub open spec fn has_user(s: Seq<User>, name: Seq<char>) -> bool {
    exists|i: int| 0 <= i < s.len() && s[i].username@ == name
}

/// The position of the user named `name` (meaningful when `has_user(s, name)`).
pub open spec fn user_position(s: Seq<User>, name: Seq<char>) -> int {
    choose|i: int| 0 <= i < s.len() && s[i].username@ == name
}

/// Whether no later entry of `s` than `i` has the same name.
pub open spec fn last_of_name(s: Seq<User>, i: int) -> bool {
    forall|l: int| i < l < s.len() ==> #[trigger] s[l].username@ != s[i].username@
}

/// The position of the last entry of `s` before `i` named `n`, or -1.
pub open spec fn latest_of_name(s: Seq<User>, i: int, n: Seq<char>) -> int
    decreases i,
{
    if i <= 0 {
        -1
    } else if s[i - 1].username@ == n {
        i - 1
    } else {
        latest_of_name(s, i - 1, n)
    }
}

proof fn lemma_latest_of_name(s: Seq<User>, i: int, j: int)
    requires
        0 <= j < i <= s.len(),
        forall|l: int| j < l < s.len() ==> #[trigger] s[l].username@ != s[j].username@,
    ensures
        latest_of_name(s, i, s[j].username@) == j,
    decreases i,
{
    if i - 1 > j {
        assert(s[i - 1].username@ != s[j].username@);
        lemma_latest_of_name(s, i - 1, j);
    }
}

/// The user table.
pub struct UserManager {
    users: Vec<User>,
}

impl View for UserManager {
    type V = Seq<User>;

    closed spec fn view(&self) -> Seq<User> {
        self.users@
    }
}

impl UserManager {
    /// The invariant: user names are unique.
    pub closed spec fn wf(&self) -> bool {
        names_unique(self.users@)
    }

    fn find(&self, name: &str) -> (r: Option<usize>)
        requires
            self.wf(),
        ensures
            r is None <==> !has_user(self@, name@),
            r matches Some(i) ==> i < self@.len() && self@[i as int].username@ == name@
                && user_position(self@, name@) == i,
    {
        let target = String::from_str(name);
        let mut i: usize = 0;
        while i < self.users.len()
            invariant
                0 <= i <= self.users@.len(),
                names_unique(self.users@),
                target@ == name@,
                forall|j: int| 0 <= j < i ==> self.users@[j].username@ != name@,
            decreases self.users@.len() - i,
        {
            if self.users[i].username == target {
                proof {
                    let p = user_position(self@, name@);
                    assert(has_user(self@, name@));
                    assert(self@[p].username@ == name@);
                    assert(p == i as int);
                }
                return Some(i);
            }
            i = i + 1;
        }
        None
    }

    /// A table of the users read at startup (a later entry replaces an
    /// earlier one of the same name). When no user is left, an active
    /// `admin` account with password `admin` is created.
    #[verifier::rlimit(50)]
    pub fn new(loaded: Vec<User>) -> (r: Result<UserManager, AuthError>)
        ensures
            r matches Ok(m) ==> m.wf() && m@.len() > 0,
            r matches Ok(m) ==> forall|i: int|
                0 <= i < loaded@.len() ==> has_user(m@, #[trigger] loaded@[i].username@),
            r matches Ok(m) ==> forall|i: int|
                0 <= i < loaded@.len() && last_of_name(loaded@, i) ==> same_user(
                    m@[user_position(m@, loaded@[i].username@)],
                    #[trigger] loaded@[i],
                ),
            loaded@.len() == 0 ==> (r matches Ok(m) ==> m@.len() == 1 && m@[0].username@ == "admin"@
                && m@[0].role == UserRole::Admin && m@[0].active && bcrypt_accepts("admin"@, m@[0].password_hash@)),
            r is Err ==> r == Err::<UserManager, AuthError>(AuthError::HashFailed),
    {
        let mut manager = UserManager { users: Vec::new() };
        let mut i: usize = 0;
        while i < loaded.len()
            invariant
                0 <= i <= loaded@.len(),
                manager.wf(),
                forall|j: int| 0 <= j < i ==> has_user(manager@, #[trigger] loaded@[j].username@),
                forall|j: int|
                    0 <= j < i ==> same_user(
                        manager@[user_position(manager@, #[trigger] loaded@[j].username@)],
                        loaded@[latest_of_name(loaded@, i as int, loaded@[j].username@)],
                    ),
                loaded@.len() == 0 ==> manager@.len() == 0,
            decreases loaded@.len() - i,
        {
            let u = loaded[i].copy();
            let ghost before = manager@;
            let ghost gu = u;
            manager.put_user(u);
            proof {
                assert forall|j: int| 0 <= j < i + 1 implies same_user(
                    manager@[user_position(manager@, #[trigger] loaded@[j].username@)],
                    loaded@[latest_of_name(loaded@, i + 1, loaded@[j].username@)],
                ) by {
                    let n = loaded@[j].username@;
                    if n != loaded@[i as int].username@ {
                        assert(has_user(before, n));
                        assert(manager@[user_position(manager@, n)] == before[user_position(before, n)]);
                        assert(latest_of_name(loaded@, i + 1, n) == latest_of_name(loaded@, i as int, n));
                    } else {
                        assert(latest_of_name(loaded@, i + 1, n) == i);
                        assert(same_user(gu, loaded@[i as int]));
                    }
                }
            }
            i = i + 1;
        }
        proof {
            assert forall|j: int| 0 <= j < loaded@.len() && last_of_name(loaded@, j) implies same_user(
                manager@[user_position(manager@, loaded@[j].username@)],
                #[trigger] loaded@[j],
            ) by {
                lemma_latest_of_name(loaded@, loaded@.len() as int, j);
            }
        }
        if manager.users.len() == 0 {
            match manager.create_user("admin", "admin", UserRole::Admin) {
                Ok(()) => {},
                Err(e) => {
                    return Err(AuthError::HashFailed);
                },
            }
        }
        Ok(manager)
    }

    fn put_user(&mut self, u: User)
        requires
            old(self).wf(),
        ensures
            final(self).wf(),
            has_user(final(self)@, u.username@),
            forall|n: Seq<char>| has_user(old(self)@, n) ==> has_user(final(self)@, n),
            same_user(final(self)@[user_position(final(self)@, u.username@)], u),
            forall|n: Seq<char>|
                n != u.username@ && has_user(old(self)@, n) ==> #[trigger] final(self)@[user_position(final(self)@, n)]
                    == old(self)@[user_position(old(self)@, n)],
    {
        match self.find(u.username.as_str()) {
            Some(i) => {
                let ghost name = u.username@;
                self.users.set(i, u);
                proof {
                    assert(self.users@[i as int].username@ == name);
                    assert forall|a: int, b: int| 0 <= a < b < self.users@.len() implies self.users@[a].username@
                        != self.users@[b].username@ by {
                        assert(old(self).users@[a].username@ != old(self).users@[b].username@);
                    }
                    assert forall|n: Seq<char>| has_user(old(self)@, n) implies has_user(self@, n) by {
                        let k = choose|k: int| 0 <= k < old(self)@.len() && old(self)@[k].username@ == n;
                        if k == i as int {
                            assert(self@[k].username@ == n);
                        } else {
                            assert(self@[k] == old(self)@[k]);
                        }
                    }
                }
            },
            None => {
                let ghost name = u.username@;
                self.users.push(u);
                proof {
                    let s = self.users@;
                    assert(s[s.len() - 1].username@ == name);
                    assert forall|a: int, b: int| 0 <= a < b < s.len() implies s[a].username@
                        != s[b].username@ by {
                        if b == s.len() - 1 {
                            assert(!has_user(old(self)@, name));
                            assert(old(self)@[a].username@ != name);
                        }
                    }
                    assert forall|n: Seq<char>| has_user(old(self)@, n) implies has_user(self@, n) by {
                        let k = choose|k: int| 0 <= k < old(self)@.len() && old(self)@[k].username@ == n;
                        assert(self@[k] == old(self)@[k]);
                    }
                }
            },
        }
    }

    /// The users, for persisting them.
    pub fn users(&self) -> (r: &Vec<User>)
        ensures
            r@ == self@,
    {
        &self.users
    }

    /// Adds a user. Fails when the name is taken or hashing fails.
    pub fn create_user(&mut self, username: &str, password: &str, role: UserRole) -> (r: Result<
        (),
        AuthError,
    >)
        requires
            old(self).wf(),
        ensures
            final(self).wf(),
            has_user(old(self)@, username@) ==> r == Err::<(), AuthError>(AuthError::UserExists),
            r is Err ==> final(self)@ == old(self)@,
            r is Ok ==> !has_user(old(self)@, username@) && final(self)@.len() == old(self)@.len() + 1
                && final(self)@.last().username@ == username@ && final(self)@.last().role == role
                && final(self)@.last().active && final(self)@.drop_last() == old(self)@
                && bcrypt_accepts(password@, final(self)@.last().password_hash@),
            !has_user(old(self)@, username@) && r is Err ==> r == Err::<(), AuthError>(
                AuthError::HashFailed,
            ),
    {
        if self.find(username).is_some() {
            return Err(AuthError::UserExists);
        }
        let user = match User::new(String::from_str(username), password, role) {
            Ok(u) => u,
            Err(e) => {
                return Err(e);
            },
        };
        let ghost name = user.username@;
        self.users.push(user);
        proof {
            let s = self.users@;
            assert(s.drop_last() =~= old(self)@);
            assert forall|a: int, b: int| 0 <= a < b < s.len() implies s[a].username@
                != s[b].username@ by {
                if b == s.len() - 1 {
                    assert(old(self)@[a].username@ != name);
                }
            }
        }
        Ok(())
    }

    /// The user named `username`, when it exists, is active and the password matches.
    pub fn authenticate(&self, username: &str, password: &str) -> (r: Option<User>)
        requires
            self.wf(),
        ensures
            r is Some <==> (has_user(self@, username@) && self@[user_position(self@, username@)].active
                && bcrypt_accepts(password@, self@[user_position(self@, username@)].password_hash@)),
            r matches Some(u) ==> u.username@ == username@ && same_user(u, self@[user_position(self@, username@)]),
    {
        match self.find(username) {
            None => None,
            Some(i) => {
                let u = &self.users[i];
                if u.active && u.verify_password(password) {
                    Some(u.copy())
                } else {
                    None
                }
            },
        }
    }

    /// Deletes a user. The `admin` account cannot be deleted.
    pub fn delete_user(&mut self, username: &str) -> (r: Result<(), AuthError>)
        requires
            old(self).wf(),
        ensures
            final(self).wf(),
            username@ == "admin"@ ==> r == Err::<(), AuthError>(AuthError::CannotDeleteAdmin),
            username@ != "admin"@ && !has_user(old(self)@, username@) ==> r == Err::<(), AuthError>(
                AuthError::UserNotFound,
            ),
            username@ != "admin"@ && has_user(old(self)@, username@) ==> r is Ok,
            r is Err ==> final(self)@ == old(self)@,
            r is Ok ==> username@ != "admin"@ && has_user(old(self)@, username@) && final(self)@
                == old(self)@.remove(user_position(old(self)@, username@)),
    {
        let name = String::from_str(username);
        if text_is(&name, "admin") {
            return Err(AuthError::CannotDeleteAdmin);
        }
        match self.find(username) {
            None => Err(AuthError::UserNotFound),
            Some(i) => {
                self.users.remove(i);
                proof {
                    let s = self.users@;
                    assert forall|a: int, b: int| 0 <= a < b < s.len() implies s[a].username@
                        != s[b].username@ by {
                        let oa = if a < i { a } else { a + 1 };
                        let ob = if b < i { b } else { b + 1 };
                        assert(s[a] == old(self)@[oa]);
                        assert(s[b] == old(self)@[ob]);
                    }
                }
                Ok(())
            },
        }
    }

    /// The user names, in table order.
    pub fn list_users(&self) -> (r: Vec<String>)
        ensures
            r@.len() == self@.len(),
            forall|i: int| 0 <= i < r@.len() ==> #[trigger] r@[i]@ == self@[i].username@,
    {
        let mut out: Vec<String> = Vec::new();
        let mut i: usize = 0;
        while i < self.users.len()
            invariant
                0 <= i <= self.users@.len(),
                out@.len() == i,
                forall|j: int| 0 <= j < i ==> #[trigger] out@[j]@ == self.users@[j].username@,
            decreases self.users@.len() - i,
        {
            out.push(copy_text(&self.users[i].username));
            i = i + 1;
        }
        out
    }

    /// Replaces a user's password with a fresh hash of `new_password`.
    pub fn change_password(&mut self, username: &str, new_password: &str) -> (r: Result<(), AuthError>)
        requires
            old(self).wf(),
        ensures
            final(self).wf(),
            final(self)@.len() == old(self)@.len(),
            !has_user(old(self)@, username@) ==> r == Err::<(), AuthError>(AuthError::UserNotFound),
            has_user(old(self)@, username@) && r is Err ==> r == Err::<(), AuthError>(
                AuthError::HashFailed,
            ),
            r is Err ==> final(self)@ == old(self)@,
            r is Ok ==> has_user(old(self)@, username@),
            r is Ok ==> forall|i: int|
                0 <= i < old(self)@.len() && i != user_position(old(self)@, username@)
                    ==> #[trigger] final(self)@[i] == old(self)@[i],
            r is Ok ==> {
                let p = user_position(old(self)@, username@);
                &&& final(self)@[p].username@ == username@
                &&& final(self)@[p].role == old(self)@[p].role
                &&& final(self)@[p].active == old(self)@[p].active
                &&& same_database(final(self)@[p].database, old(self)@[p].database)
                &&& bcrypt_accepts(new_password@, final(self)@[p].password_hash@)
            },
    {
        let i = match self.find(username) {
            None => {
                return Err(AuthError::UserNotFound);
            },
            Some(i) => i,
        };
        let h = match create_password_hash(new_password) {
            None => {
                return Err(AuthError::HashFailed);
            },
            Some(h) => h,
        };
        let mut u = self.users[i].copy();
        u.password_hash = h;
        self.set_user(i, u);
        Ok(())
    }

    fn set_user(&mut self, i: usize, u: User)
        requires
            old(self).wf(),
            i < old(self)@.len(),
            u.username@ == old(self)@[i as int].username@,
        ensures
            final(self).wf(),
            final(self)@ == old(self)@.update(i as int, u),
    {
        self.users.set(i, u);
        proof {
            let s = self.users@;
            assert forall|a: int, b: int| 0 <= a < b < s.len() implies s[a].username@
                != s[b].username@ by {
                assert(old(self)@[a].username@ != old(self)@[b].username@);
            }
        }
    }

    /// Gives a user another role.
    pub fn update_role(&mut self, username: &str, role: UserRole) -> (r: Result<(), AuthError>)
        requires
            old(self).wf(),
        ensures
            final(self).wf(),
            !has_user(old(self)@, username@) ==> r == Err::<(), AuthError>(AuthError::UserNotFound)
                && final(self)@ == old(self)@,
            has_user(old(self)@, username@) ==> r is Ok && final(self)@.len() == old(self)@.len()
                && final(self)@[user_position(old(self)@, username@)].role == role,
    {
        let i = match self.find(username) {
            None => {
                return Err(AuthError::UserNotFound);
            },
            Some(i) => i,
        };
        let mut u = self.users[i].copy();
        u.role = role;
        self.set_user(i, u);
        Ok(())
    }
}

} // verus!
