use toonstore::backup::{backup_file_name, newest_first, restore_path_allowed, BackupStamp};
use toonstore::directory::KeyDirectory;
use toonstore::glob::matches_pattern;
use toonstore::{AuthConfig, BackupConfig, BackupInfo, CommandHandler, RespValue, SessionState, TlsMode, ToonCache, ToonStore, User, UserManager, UserRole, Outcome};

#[test]
fn test_auth_disabled() {
    let auth = AuthConfig::disabled();
    assert!(!auth.is_required());
    assert!(auth.verify("any_password"));
}

#[test]
fn test_auth_with_password() {
    let auth = AuthConfig::from_password("mysecret").unwrap();
    assert!(auth.is_required());
    assert!(auth.verify("mysecret"));
    assert!(!auth.verify("wrongpassword"));
}

#[test]
fn test_session_state() {
    let mut session = SessionState::new(true);
    assert!(!session.is_authenticated());
    session.authenticate("default".to_string(), UserRole::Admin);
    assert!(session.is_authenticated());
}

#[test]
fn test_tls_mode_from_str() {
    assert_eq!(TlsMode::from_str("disable").unwrap(), TlsMode::Disabled);
    assert_eq!(TlsMode::from_str("prefer").unwrap(), TlsMode::Prefer);
    assert_eq!(TlsMode::from_str("require").unwrap(), TlsMode::Require);
    assert!(TlsMode::from_str("invalid").is_err());
}

#[test]
fn tls_mode_flags() {
    assert_eq!(TlsMode::from_str("REQUIRED").unwrap(), TlsMode::Require);
    assert_eq!(TlsMode::from_str("Optional").unwrap(), TlsMode::Prefer);
    assert!(!TlsMode::Disabled.is_enabled());
    assert!(TlsMode::Prefer.is_enabled());
    assert!(!TlsMode::Prefer.is_required());
    assert!(TlsMode::Require.is_required());
}

#[test]
fn test_user_permissions() {
    let admin = User::new("admin".to_string(), "pass", UserRole::Admin).unwrap();
    let readwrite = User::new("rw".to_string(), "pass", UserRole::ReadWrite).unwrap();
    let readonly = User::new("ro".to_string(), "pass", UserRole::ReadOnly).unwrap();
    assert!(admin.can_execute("GET"));
    assert!(admin.can_execute("SET"));
    assert!(admin.can_execute("FLUSHDB"));
    assert!(readwrite.can_execute("GET"));
    assert!(readwrite.can_execute("SET"));
    assert!(!readwrite.can_execute("FLUSHDB"));
    assert!(readonly.can_execute("GET"));
    assert!(!readonly.can_execute("SET"));
    assert!(!readonly.can_execute("FLUSHDB"));
}

#[test]
fn test_user_creation() {
    let user = User::new("testuser".to_string(), "password123", UserRole::ReadWrite).unwrap();
    assert_eq!(user.username, "testuser");
    assert!(user.verify_password("password123"));
    assert!(!user.verify_password("wrongpassword"));
}

#[test]
fn test_user_manager() {
    let mut manager = UserManager::new(Vec::new()).unwrap();
    assert!(manager.authenticate("admin", "admin").is_some());
    manager.create_user("testuser", "testpass", UserRole::ReadWrite).unwrap();
    let user = manager.authenticate("testuser", "testpass").unwrap();
    assert_eq!(user.username, "testuser");
    assert_eq!(user.role, UserRole::ReadWrite);
    assert!(manager.authenticate("testuser", "wrongpass").is_none());
    manager.change_password("testuser", "newpass").unwrap();
    assert!(manager.authenticate("testuser", "newpass").is_some());
    assert!(manager.authenticate("testuser", "testpass").is_none());
}

#[test]
fn role_policy_is_case_insensitive() {
    assert!(UserRole::ReadOnly.can_execute("get"));
    assert!(UserRole::ReadOnly.can_execute("Ping"));
    assert!(!UserRole::ReadOnly.can_execute("del"));
    assert!(!UserRole::ReadWrite.can_execute("config"));
    assert!(UserRole::ReadWrite.can_execute("del"));
}

#[test]
fn session_defaults() {
    let open = SessionState::new(false);
    assert!(open.is_authenticated());
    assert_eq!(open.username(), "default");
    assert!(open.can_execute("FLUSHDB"));
    let closed = SessionState::new(true);
    assert_eq!(closed.username(), "anonymous");
    assert!(!closed.can_execute("GET"));
}

#[test]
fn auth_config_from_hash_text() {
    assert!(!AuthConfig::from_hash_text("  \n").is_required());
    let c = AuthConfig::from_hash_text("  $2b$04$abc\n");
    assert!(c.is_required());
    assert!(!c.verify("x"));
    assert!(!AuthConfig::from_password("").unwrap().is_required());
}

#[test]
fn user_manager_without_hashing() {
    let loaded = vec![
        User { username: "bob".to_string(), password_hash: "h".to_string(), role: UserRole::ReadOnly, active: true, database: None },
        User { username: "admin".to_string(), password_hash: "h".to_string(), role: UserRole::Admin, active: true, database: None },
        User { username: "bob".to_string(), password_hash: "h2".to_string(), role: UserRole::ReadWrite, active: false, database: None },
    ];
    let mut m = UserManager::new(loaded).unwrap();
    assert_eq!(m.list_users(), vec!["bob".to_string(), "admin".to_string()]);
    assert_eq!(m.users()[0].role, UserRole::ReadWrite);
    assert!(m.authenticate("bob", "anything").is_none());
    assert_eq!(m.delete_user("admin"), Err(toonstore::AuthError::CannotDeleteAdmin));
    assert_eq!(m.delete_user("nobody"), Err(toonstore::AuthError::UserNotFound));
    assert_eq!(m.update_role("bob", UserRole::Admin), Ok(()));
    assert_eq!(m.users()[0].role, UserRole::Admin);
    assert_eq!(m.update_role("nobody", UserRole::Admin), Err(toonstore::AuthError::UserNotFound));
    assert_eq!(m.delete_user("bob"), Ok(()));
    assert_eq!(m.list_users(), vec!["admin".to_string()]);
    assert_eq!(m.change_password("ghost", "x"), Err(toonstore::AuthError::UserNotFound));
}

#[test]
fn multi_user_auth_and_roles() {
    let loaded = vec![User::new("admin".to_string(), "root", UserRole::Admin).unwrap()];
    let users = UserManager::new(loaded).unwrap();
    let mut handler = CommandHandler::new(ToonCache::new(ToonStore::create(), 4)).with_users(users);
    assert!(handler.auth_required());
    let mut session = SessionState::new(handler.auth_required());
    let cmd = |parts: &[&[u8]]| RespValue::Array(Some(parts.iter().map(|p| RespValue::BulkString(Some(p.to_vec()))).collect()));
    let reply = |o: Outcome| match o {
        Outcome::Reply { reply, .. } => reply,
        _ => panic!("expected a reply"),
    };
    assert_eq!(reply(handler.handle(cmd(&[b"AUTH", b"root"]), &mut session)), RespValue::SimpleString("OK".to_string()));
    assert_eq!(reply(handler.handle(cmd(&[b"USER", b"WHOAMI"]), &mut session)), RespValue::BulkString(Some(b"admin".to_vec())));
    assert_eq!(
        reply(handler.handle(cmd(&[b"USER", b"DELETE", b"admin"]), &mut session)),
        RespValue::Error("ERR cannot delete admin user".to_string())
    );
    let mut ro = SessionState::new(true);
    ro.authenticate("reader".to_string(), UserRole::ReadOnly);
    assert_eq!(
        reply(handler.handle(cmd(&[b"SET", b"k", b"v"]), &mut ro)),
        RespValue::Error("NOPERM this user has no permissions to run this command".to_string())
    );
    assert_eq!(reply(handler.handle(cmd(&[b"GET", b"k"]), &mut ro)), RespValue::BulkString(None));
}

#[test]
fn backup_names_and_paths() {
    let stamp = BackupStamp { year: 2024, month: 3, day: 7, hour: 9, minute: 5, second: 1 };
    assert_eq!(backup_file_name("manual", &stamp), "toonstore_manual_20240307_090501.tar.gz");
    assert!(restore_path_allowed("toonstore_x.tar.gz"));
    assert!(!restore_path_allowed("/abs/path.tar.gz"));
    assert!(!restore_path_allowed("a/../b"));
    let c = BackupConfig::new("./data", None);
    assert_eq!(c.backup_dir, "./data/backups");
    let c = BackupConfig::new("/srv/data/", Some("/b"));
    assert_eq!(c.data_dir, "/srv/data/");
    assert_eq!(c.backup_dir, "/b");
}

#[test]
fn backups_sorted_newest_first() {
    let info = |name: &str, t: Option<u64>| BackupInfo { path: format!("/b/{}", name), filename: name.to_string(), size: 1, modified: t };
    let found = vec![info("a", Some(5)), info("b", None), info("c", Some(9)), info("d", Some(5))];
    let sorted = newest_first(&found);
    let names: Vec<&str> = sorted.iter().map(|b| b.filename.as_str()).collect();
    assert_eq!(names, vec!["c", "a", "d", "b"]);
    assert_eq!(toonstore::backup::first_names(&sorted, 2), vec!["c".to_string(), "a".to_string()]);
    assert_eq!(toonstore::backup::paths_beyond(&sorted, 3), vec!["/b/b".to_string()]);
}

#[test]
fn glob_patterns() {
    assert!(matches_pattern("*", ""));
    assert!(matches_pattern("user:*", "user:42"));
    assert!(matches_pattern("h?llo", "héllo"));
    assert!(!matches_pattern("h?llo", "hllo"));
    assert!(matches_pattern("*a*b", "xxaxxb"));
    assert!(!matches_pattern("*a*b", "xxaxxbc"));
    assert!(matches_pattern("abc", "abc"));
    assert!(!matches_pattern("abc", "abd"));
}

#[test]
fn directory_file_round_trip() {
    let mut d = KeyDirectory::new();
    d.insert("k1".to_string(), 3);
    d.insert("k2".to_string(), 10);
    d.insert("k1".to_string(), 11);
    assert_eq!(d.get("k1"), Some(11));
    let bytes = d.to_file_bytes();
    assert_eq!(bytes, b"k1\t11\nk2\t10\n");
    let back = KeyDirectory::from_file_bytes(b"k1\t11\n\nbroken line\nk2\t10\nk3\tx\n\tnokey\nk1\t12");
    assert_eq!(back.get("k1"), Some(12));
    assert_eq!(back.get("k2"), Some(10));
    assert_eq!(back.get("k3"), None);
    assert_eq!(back.len(), 2);
    assert_eq!(back.keys(), vec!["k1".to_string(), "k2".to_string()]);
}

#[test]
fn creating_an_existing_user_fails() {
    let loaded = vec![User { username: "admin".to_string(), password_hash: "h".to_string(), role: UserRole::Admin, active: true, database: None }];
    let mut m = UserManager::new(loaded).unwrap();
    assert_eq!(m.create_user("admin", "x", UserRole::ReadOnly), Err(toonstore::AuthError::UserExists));
    assert_eq!(m.list_users().len(), 1);
}

#[test]
fn deleting_an_existing_user_succeeds() {
    let loaded = vec![
        User { username: "admin".to_string(), password_hash: "h".to_string(), role: UserRole::Admin, active: true, database: None },
        User { username: "carol".to_string(), password_hash: "h".to_string(), role: UserRole::ReadOnly, active: true, database: Some("db1".to_string()) },
    ];
    let mut m = UserManager::new(loaded).unwrap();
    assert_eq!(m.update_role("carol", UserRole::ReadWrite), Ok(()));
    assert_eq!(m.users()[1].database, Some("db1".to_string()));
    assert_eq!(m.delete_user("carol"), Ok(()));
    assert_eq!(m.list_users(), vec!["admin".to_string()]);
}
