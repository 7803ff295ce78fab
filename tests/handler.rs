use bytes::BytesMut;
use toonstore::handler::{backup_list_reply, backup_reply, protocol_error_reply, restore_reply};
use toonstore::{AuthConfig, CommandHandler, Outcome, RespValue, SessionState, ToonCache, ToonStore};

fn new_handler() -> CommandHandler {
    CommandHandler::new(ToonCache::new(ToonStore::create(), 100))
}

fn bulk(s: &[u8]) -> RespValue {
    RespValue::BulkString(Some(s.to_vec()))
}

fn command(parts: &[&[u8]]) -> RespValue {
    RespValue::Array(Some(parts.iter().map(|p| bulk(p)).collect()))
}

fn reply_of(o: Outcome) -> RespValue {
    match o {
        Outcome::Reply { reply, .. } => reply,
        _ => panic!("expected a reply"),
    }
}

fn wire(handler: &mut CommandHandler, session: &mut SessionState, request: &[u8]) -> Vec<u8> {
    let mut buf = BytesMut::from(request);
    let cmd = RespValue::parse(&mut buf).unwrap().unwrap();
    assert!(buf.is_empty());
    reply_of(handler.handle(cmd, session)).serialize()
}

#[test]
fn test_ping() {
    let mut handler = new_handler();
    let mut session = SessionState::new(false);
    let cmd = RespValue::Array(Some(vec![RespValue::BulkString(Some(b"PING".to_vec()))]));
    let resp = reply_of(handler.handle(cmd, &mut session));
    assert_eq!(resp, RespValue::SimpleString("PONG".to_string()));
}

#[test]
fn test_echo() {
    let mut handler = new_handler();
    let mut session = SessionState::new(false);
    let cmd = RespValue::Array(Some(vec![
        RespValue::BulkString(Some(b"ECHO".to_vec())),
        RespValue::BulkString(Some(b"hello".to_vec())),
    ]));
    let resp = reply_of(handler.handle(cmd, &mut session));
    assert_eq!(resp, RespValue::BulkString(Some(b"hello".to_vec())));
}

#[test]
fn test_set_and_get() {
    let mut handler = new_handler();
    let mut session = SessionState::new(false);
    let set_cmd = RespValue::Array(Some(vec![
        RespValue::BulkString(Some(b"SET".to_vec())),
        RespValue::BulkString(Some(b"mykey".to_vec())),
        RespValue::BulkString(Some(b"myvalue".to_vec())),
    ]));
    let resp = reply_of(handler.handle(set_cmd, &mut session));
    assert_eq!(resp, RespValue::SimpleString("OK".to_string()));
}

#[test]
fn wire_round_trip_scenario() {
    let mut handler = new_handler();
    let mut session = SessionState::new(handler.auth_required());
    assert_eq!(
        wire(&mut handler, &mut session, b"*3\r\n$3\r\nSET\r\n$3\r\nfoo\r\n$3\r\nbar\r\n"),
        b"+OK\r\n"
    );
    assert_eq!(wire(&mut handler, &mut session, b"*2\r\n$3\r\nGET\r\n$3\r\nfoo\r\n"), b"$3\r\nbar\r\n");
    assert_eq!(wire(&mut handler, &mut session, b"*2\r\n$3\r\nGET\r\n$3\r\nxxx\r\n"), b"$-1\r\n");
}

#[test]
fn auth_gate_scenario() {
    let mut handler = new_handler().with_auth(AuthConfig::from_password("s3cret").unwrap());
    assert!(handler.auth_required());
    let mut session = SessionState::new(handler.auth_required());
    assert_eq!(
        wire(&mut handler, &mut session, b"*2\r\n$4\r\nPING\r\n$0\r\n\r\n"),
        b"-NOAUTH Authentication required\r\n"
    );
    assert_eq!(wire(&mut handler, &mut session, b"*2\r\n$4\r\nAUTH\r\n$6\r\ns3cret\r\n"), b"+OK\r\n");
    assert_eq!(wire(&mut handler, &mut session, b"*1\r\n$4\r\nPING\r\n"), b"+PONG\r\n");
}

#[test]
fn unauthenticated_set_changes_nothing() {
    let mut handler = new_handler().with_auth(AuthConfig::from_password("pw").unwrap());
    let mut session = SessionState::new(true);
    let o = handler.handle(command(&[b"SET", b"k", b"v"]), &mut session);
    assert_eq!(reply_of(o), RespValue::Error("NOAUTH Authentication required".to_string()));
    assert_eq!(handler.cache().len(), 0);
    assert_eq!(handler.directory_file(), Vec::<u8>::new());
    let o = handler.handle(command(&[b"AUTH", b"wrong"]), &mut session);
    assert_eq!(reply_of(o), RespValue::Error("WRONGPASS invalid username-password pair".to_string()));
    assert!(!session.is_authenticated());
}

#[test]
fn key_commands() {
    let mut handler = new_handler();
    let mut session = SessionState::new(false);
    let mut run = |parts: &[&[u8]]| reply_of(handler.handle(command(parts), &mut session));
    assert_eq!(run(&[b"SET", b"user:1", b"alice"]), RespValue::SimpleString("OK".to_string()));
    assert_eq!(run(&[b"SET", b"user:2", b"bob"]), RespValue::SimpleString("OK".to_string()));
    assert_eq!(run(&[b"SET", b"other", b"x"]), RespValue::SimpleString("OK".to_string()));
    assert_eq!(run(&[b"SET", b"user:1", b"alice2"]), RespValue::SimpleString("OK".to_string()));
    assert_eq!(run(&[b"GET", b"user:1"]), bulk(b"alice2"));
    assert_eq!(run(&[b"DBSIZE"]), RespValue::Integer(3));
    assert_eq!(run(&[b"EXISTS", b"user:1", b"user:1", b"nope"]), RespValue::Integer(2));
    assert_eq!(
        run(&[b"MGET", b"user:2", b"nope"]),
        RespValue::Array(Some(vec![bulk(b"bob"), RespValue::BulkString(None)]))
    );
    assert_eq!(
        run(&[b"KEYS", b"user:?"]),
        RespValue::Array(Some(vec![bulk(b"user:1"), bulk(b"user:2")]))
    );
    assert_eq!(run(&[b"KEYS", b"*"]), RespValue::Array(Some(vec![bulk(b"user:1"), bulk(b"user:2"), bulk(b"other")])));
    assert_eq!(run(&[b"DEL", b"user:2", b"nope"]), RespValue::Integer(1));
    assert_eq!(run(&[b"GET", b"user:2"]), RespValue::BulkString(None));
    assert_eq!(run(&[b"COMMAND"]), RespValue::Array(Some(Vec::new())));
    assert_eq!(run(&[b"QUIT"]), RespValue::SimpleString("OK".to_string()));
    assert_eq!(run(&[b"FLUSHDB"]), RespValue::SimpleString("OK".to_string()));
    assert_eq!(run(&[b"DBSIZE"]), RespValue::Integer(0));
    assert_eq!(run(&[b"NOSUCH"]), RespValue::Error("ERR unknown command 'NOSUCH'".to_string()));
    assert_eq!(run(&[b"get", b"user:1"]), RespValue::BulkString(None));
}

#[test]
fn directory_file_after_set() {
    let mut handler = new_handler();
    let mut session = SessionState::new(false);
    let o = handler.handle(command(&[b"SET", b"a", b"1"]), &mut session);
    assert!(matches!(o, Outcome::Reply { save_directory: true, .. }));
    handler.handle(command(&[b"SET", b"b", b"2"]), &mut session);
    assert_eq!(handler.directory_file(), b"a\t0\nb\t1\n");
}

#[test]
fn info_and_backup_commands() {
    let mut handler = new_handler();
    let mut session = SessionState::new(false);
    handler.handle(command(&[b"SET", b"a", b"1"]), &mut session);
    handler.handle(command(&[b"GET", b"a"]), &mut session);
    let info = reply_of(handler.handle(command(&[b"INFO"]), &mut session));
    match info {
        RespValue::BulkString(Some(text)) => {
            let text = String::from_utf8(text).unwrap();
            assert!(text.contains("total_keys:1\r\n"));
            assert!(text.contains("cache_hits:1\r\n"));
            assert!(text.contains("cache_capacity:100\r\n"));
            assert!(text.contains("cache_hit_ratio:1.00\r\n"));
        }
        other => panic!("unexpected {:?}", other),
    }
    assert!(matches!(handler.handle(command(&[b"SAVE"]), &mut session), Outcome::Backup { reply_with_name: false, .. }));
    match handler.handle(command(&[b"BACKUP", b"nightly"]), &mut session) {
        Outcome::Backup { name, reply_with_name } => {
            assert_eq!(name, "nightly");
            assert!(reply_with_name);
        }
        _ => panic!("expected a backup"),
    }
    assert!(matches!(handler.handle(command(&[b"LASTSAVE"]), &mut session), Outcome::ListBackups));
    assert!(matches!(handler.handle(command(&[b"RESTORE", b"x.tar.gz"]), &mut session), Outcome::Restore { .. }));
    assert_eq!(
        reply_of(handler.handle(command(&[b"RESTORE", b"../x.tar.gz"]), &mut session)),
        RespValue::Error("ERR invalid backup path".to_string())
    );
    assert_eq!(
        reply_of(handler.handle(command(&[b"RESTORE", b"/etc/passwd"]), &mut session)),
        RespValue::Error("ERR invalid backup path".to_string())
    );
}

#[test]
fn invalid_requests() {
    let mut handler = new_handler();
    let mut session = SessionState::new(false);
    assert_eq!(
        reply_of(handler.handle(RespValue::Integer(3), &mut session)),
        RespValue::Error("ERR invalid command format".to_string())
    );
    assert_eq!(
        reply_of(handler.handle(RespValue::Array(Some(vec![RespValue::Integer(1)])), &mut session)),
        RespValue::Error("ERR invalid command".to_string())
    );
    assert_eq!(
        protocol_error_reply(&"bad frame".to_string()),
        RespValue::Error("ERR bad frame".to_string())
    );
}

#[test]
fn rebuild_directory_from_json_records() {
    let mut cache = ToonCache::new(ToonStore::create(), 10);
    cache.put(br#"{"id":"alpha","v":1}"#).unwrap();
    cache.put(b"not json").unwrap();
    cache.put(br#"{"id":"beta"}"#).unwrap();
    let mut handler = CommandHandler::new(cache);
    assert!(handler.rebuild_directory_if_empty());
    assert_eq!(handler.directory_file(), b"alpha\t0\nbeta\t2\n");
    assert!(!handler.rebuild_directory_if_empty());
}

#[test]
fn named_commands_and_backup_replies() {
    let mut handler = new_handler();
    let mut session = SessionState::new(false);
    let o = handler.handle_named(&"DBSIZE".to_string(), Vec::new(), &mut session);
    assert_eq!(reply_of(o), RespValue::Integer(0));
    assert_eq!(backup_reply(&Ok("b.tar.gz".to_string()), true), bulk(b"b.tar.gz"));
    assert_eq!(backup_reply(&Ok("b.tar.gz".to_string()), false), RespValue::SimpleString("OK".to_string()));
    assert_eq!(backup_reply(&Err("disk".to_string()), true), RespValue::Error("ERR disk".to_string()));
    assert_eq!(restore_reply(&Ok(())), RespValue::SimpleString("OK".to_string()));
    assert_eq!(
        backup_list_reply(&vec!["a".to_string(), "b".to_string()]),
        RespValue::Array(Some(vec![bulk(b"a"), bulk(b"b")]))
    );
}
