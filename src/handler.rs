//! The command dispatcher: authentication and role gating, then one handler
//! per command over the key directory and the cached store.

use vstd::prelude::*;
use vstd::string::*;
use vstd::utf8::*;

use crate::auth::{AuthConfig, SessionState};
use crate::backup::restore_path_allowed;
use crate::cache::{CachedView, ToonCache};
use crate::lru::{has_key, keys_unique, position_of};
use crate::storage::{read_outcome, StoreModel};
use crate::decimal::{nat_text, write_u64};
use crate::directory::{has_entry, KeyDirectory};
use crate::glob::{glob_match, matches_pattern};
use crate::resp::{utf8_text, RespValue};
use crate::text::{lossy_text, lossy_text_of, text_is, to_upper, upper_of, copy_text};
use crate::users::{role_allows, User, UserManager, UserRole};

verus! {

/// What the connection does after a command.
pub enum Outcome {
    /// Send `reply`, after persisting the directory and the user table when flagged.
    Reply { reply: RespValue, save_directory: bool, save_users: bool },
    /// Create a backup called `name`; reply with its file name when
    /// `reply_with_name`, else with `OK`.
    Backup { name: String, reply_with_name: bool },
    /// Restore from `file` in the backup directory (already free of
    /// absolute paths and `..`).
    Restore { file: String },
    /// Reply with the names of the ten most recent backups.
    ListBackups,
}

/// The command name of a request: the first element of a non-empty array,
/// a bulk string, read leniently as UTF-8 and upper-cased.
pub open spec fn command_name(cmd: RespValue) -> Option<Seq<char>> {
    match cmd {
        RespValue::Array(Some(arr)) => if arr@.len() > 0 {
            match arr@[0] {
                RespValue::BulkString(Some(b)) => Some(upper_of(lossy_text_of(b@))),
                _ => None,
            }
        } else {
            None
        },
        _ => None,
    }
}

/// Whether a session's role allows command `c`.
pub open spec fn session_allows(s: SessionState, c: Seq<char>) -> bool {
    match s.user_role {
        Some(role) => role_allows(role, c),
        None => false,
    }
}

/// What handling command `c` (already upper-cased) with arguments `args`
/// does for a session, from dispatcher state `before` to `after`: `AUTH`
/// is always routed; any other command from an unauthenticated session,
/// when authentication is required, gets `NOAUTH`, and one the session's role
/// forbids gets `NOPERM`, both changing nothing; the rest are routed. Only a
/// successful `AUTH` changes the session, and never unauthenticates it.
pub open spec fn handled(
    c: Seq<char>,
    args: Seq<RespValue>,
    before: HandlerView,
    after: HandlerView,
    s0: SessionState,
    s1: SessionState,
    o: Outcome,
) -> bool {
    &&& (c != "AUTH"@ && before.requires_auth && !s0.authenticated) ==> {
        &&& is_error_reply(o, "NOAUTH Authentication required"@)
        &&& after == before
    }
    &&& (c != "AUTH"@ && (!before.requires_auth || s0.authenticated) && !session_allows(s0, c)) ==> {
        &&& is_error_reply(o, "NOPERM this user has no permissions to run this command"@)
        &&& after == before
    }
    &&& c != "AUTH"@ ==> s1 == s0
    &&& s0.authenticated ==> s1.authenticated
    &&& c == "AUTH"@ ==> {
        &&& after == before
        &&& is_ok_reply(o) <==> auth_accepts(before, args)
        &&& is_ok_reply(o) ==> s1.authenticated
        &&& !is_ok_reply(o) ==> s1 == s0
    }
    &&& (c != "AUTH"@ && (!before.requires_auth || s0.authenticated) && session_allows(s0, c)) ==> routed(
        c,
        args,
        before,
        after,
        o,
    )
}

fn session_permits(session: &SessionState, command: &String) -> (r: bool)
    ensures
        r == session_allows(*session, command@),
{
    match &session.user_role {
        Some(role) => role.allows(command),
        None => false,
    }
}

/// Whether `o` is the error reply `text`, with nothing to persist.
pub open spec fn is_error_reply(o: Outcome, text: Seq<char>) -> bool {
    o matches Outcome::Reply { reply: RespValue::Error(t), save_directory: false, save_users: false }
        && t@ == text
}

/// The arguments of a request: the array's elements after the command name.
pub open spec fn request_args(cmd: RespValue) -> Seq<RespValue> {
    match cmd {
        RespValue::Array(Some(arr)) => arr@.drop_first(),
        _ => seq![],
    }
}

/// The text of an argument, when it is a UTF-8 bulk string.
pub open spec fn arg_key(v: RespValue) -> Option<Seq<char>> {
    match v {
        RespValue::BulkString(Some(b)) => if valid_utf8(b@) {
            Some(decode_utf8(b@))
        } else {
            None
        },
        _ => None,
    }
}

/// Whether `AUTH` with arguments `args` succeeds against `v`: in multi-user
/// mode the named user (or `admin` when only a password is given) exists, is
/// active and the password matches; otherwise the password matches the
/// configured hash, or no hash is configured.
pub open spec fn auth_accepts(v: HandlerView, args: Seq<RespValue>) -> bool {
    &&& 1 <= args.len() <= 2
    &&& arg_key(args.last()) is Some
    &&& match v.users {
        Some(users) => {
            let name = if args.len() == 2 {
                arg_key(args[0])
            } else {
                Some("admin"@)
            };
            &&& name is Some
            &&& crate::users::has_user(users, name->Some_0)
            &&& users[crate::users::user_position(users, name->Some_0)].active
            &&& crate::users::bcrypt_accepts(
                arg_key(args.last())->Some_0,
                users[crate::users::user_position(users, name->Some_0)].password_hash@,
            )
        },
        None => match v.password_hash {
            Some(h) => crate::users::bcrypt_accepts(arg_key(args.last())->Some_0, h),
            None => true,
        },
    }
}

/// The state of a `DEL` run: the directory, the store and the count of rows
/// deleted so far.
pub struct DelRun {
    pub directory: Seq<(Seq<char>, u64)>,
    pub store: StoreModel,
    pub deleted: nat,
}

/// `DEL` over `args` in turn: a key with a row leaves the directory and its
/// row is tombstoned, counting when the store accepts the delete.
pub open spec fn del_run(d: Seq<(Seq<char>, u64)>, st: StoreModel, args: Seq<RespValue>) -> DelRun
    decreases args.len(),
{
    if args.len() == 0 {
        DelRun { directory: d, store: st, deleted: 0 }
    } else {
        let r = del_run(d, st, args.drop_last());
        match arg_key(args.last()) {
            None => r,
            Some(k) => match crate::directory::row_of(r.directory, k) {
                None => r,
                Some(row) => DelRun {
                    directory: r.directory.remove(crate::directory::entry_position(r.directory, k)),
                    store: crate::storage::applied(r.store, crate::storage::StoreOp::Delete(row)),
                    deleted: r.deleted + if crate::storage::delete_accepted(r.store, row) {
                        1nat
                    } else {
                        0nat
                    },
                },
            },
        }
    }
}

/// The hit ratio in hundredths, rounded half up (0 with no lookup).
pub open spec fn ratio_hundredths(hits: nat, misses: nat) -> nat {
    if hits + misses == 0 {
        0
    } else {
        ((hits * 200 + (hits + misses)) / (2 * (hits + misses))) as nat
    }
}

/// The hit ratio with two decimals.
pub open spec fn ratio_text(h: nat) -> Seq<u8> {
    nat_text(h / 100) + encode_utf8("."@) + (if h % 100 < 10 {
        encode_utf8("0"@)
    } else {
        seq![]
    }) + nat_text(h % 100)
}

/// The `INFO` text for a dispatcher's state.
pub open spec fn info_text(v: HandlerView) -> Seq<u8> {
    encode_utf8("# Server\r\ntoonstore_version:0.1.0\r\n\r\n# Stats\r\ntotal_keys:"@) + nat_text(v.directory.len())
        + encode_utf8("\r\ncache_size:"@) + nat_text(v.cache.entries.len()) + encode_utf8(
        "\r\ncache_capacity:"@,
    ) + nat_text(v.cache.capacity) + encode_utf8("\r\ncache_hits:"@) + nat_text(v.cache.stats.hits as nat)
        + encode_utf8("\r\ncache_misses:"@) + nat_text(v.cache.stats.misses as nat) + encode_utf8(
        "\r\ncache_hit_ratio:"@,
    ) + ratio_text(ratio_hundredths(v.cache.stats.hits as nat, v.cache.stats.misses as nat)) + encode_utf8(
        "\r\n"@,
    )
}

/// The upper-cased subcommand of a `USER` request.
pub open spec fn user_sub(args: Seq<RespValue>) -> Option<Seq<char>> {
    if args.len() > 0 && arg_key(args[0]) is Some {
        Some(upper_of(arg_key(args[0])->Some_0))
    } else {
        None
    }
}

/// What the `USER LIST` and `USER DELETE name` subcommands do to a user table
/// `u0`, giving `u1`, and reply.
pub open spec fn user_table_reply(sub: Seq<char>, args: Seq<RespValue>, u0: Seq<User>, u1: Seq<User>, o: Outcome) -> bool {
    &&& sub == "LIST"@ ==> {
        &&& u1 == u0
        &&& o matches Outcome::Reply { reply: RespValue::Array(Some(a)), save_directory: false, save_users: false }
            && a@.len() == u0.len() && forall|i: int|
            0 <= i < u0.len() ==> (#[trigger] a@[i] matches RespValue::BulkString(Some(b)) && b@ == encode_utf8(
                u0[i].username@,
            ))
    }
    &&& (sub == "DELETE"@ && args.len() == 2 && arg_key(args[1]) is Some) ==> {
        let n = arg_key(args[1])->Some_0;
        &&& is_ok_reply(o) <==> (n != "admin"@ && crate::users::has_user(u0, n))
        &&& is_ok_reply(o) ==> (u1 == u0.remove(crate::users::user_position(u0, n))
            && o matches Outcome::Reply { save_users: true, .. })
        &&& !is_ok_reply(o) ==> u1 == u0
    }
}

/// Whether `o` is the simple-string reply `OK`.
pub open spec fn is_ok_reply(o: Outcome) -> bool {
    o matches Outcome::Reply { reply: RespValue::SimpleString(t), .. } && t@ == "OK"@
}

/// Whether row `row` can be read from the store: it is live and a newline
/// ends its record.
pub open spec fn readable(v: StoreModel, row: u64) -> bool {
    crate::storage::lookup(v, row as int) matches Some(off) && crate::storage::has_record(v.data, off as int)
}

/// One `GET` result for a key: null when the key has no row; a bulk string,
/// never null, when the key's row can be read from an open store; and bytes
/// (when present) that stand at the row's offset followed by a newline.
pub open spec fn value_reply(before: HandlerView, k: Seq<char>, r: RespValue) -> bool {
    &&& r is BulkString
    &&& crate::directory::row_of(before.directory, k) is None ==> r == RespValue::BulkString(None)
    &&& (!before.cache.store.closed && (crate::directory::row_of(before.directory, k) matches Some(row)
        && readable(before.cache.store, row))) ==> (r matches RespValue::BulkString(Some(_)))
    &&& r matches RespValue::BulkString(Some(b)) ==> (crate::directory::row_of(before.directory, k) matches Some(row)
        && crate::cache::entry_matches(before.cache.store, (row, b)))
}

/// The `GET` result for row `row`: the cached bytes when the cache holds the
/// row, else exactly the record that the store reads, or null when it cannot.
pub open spec fn row_reply(before: HandlerView, row: u64, r: RespValue) -> bool {
    if has_key(before.cache.entries, row) {
        r matches RespValue::BulkString(Some(b)) && forall|j: int|
            0 <= j < before.cache.entries.len() && (#[trigger] before.cache.entries[j]).0 == row
                ==> b@ == before.cache.entries[j].1@
    } else {
        match r {
            RespValue::BulkString(Some(b)) => read_outcome(before.cache.store, row as int, Ok(b)),
            RespValue::BulkString(None) => !(!before.cache.store.closed && readable(before.cache.store, row)),
            _ => false,
        }
    }
}

/// `MGET k1 ... kn`: an array of one `GET` result per argument; an argument
/// that is not a UTF-8 bulk string gets the null bulk string.
pub open spec fn mget_reply(before: HandlerView, args: Seq<RespValue>, r: RespValue) -> bool {
    r matches RespValue::Array(Some(a)) && a@.len() == args.len() && forall|i: int|
        0 <= i < args.len() ==> match arg_key(args[i]) {
            Some(k) => value_reply(before, k, #[trigger] a@[i]),
            None => a@[i] == RespValue::BulkString(None),
        }
}

/// `GET key`: one `GET` result, with nothing to persist.
pub open spec fn get_reply(before: HandlerView, k: Seq<char>, o: Outcome) -> bool {
    o matches Outcome::Reply { reply: r, save_directory: false, save_users: false } && value_reply(before, k, r)
        && (crate::directory::row_of(before.directory, k) matches Some(row) ==> row_reply(before, row, r))
}

/// `SET key value`: `OK` exactly when the store accepts the value; then the
/// value is the next row, stored followed by a newline, and the key points at it.
pub open spec fn set_reply(before: HandlerView, after: HandlerView, k: Seq<char>, v: Seq<u8>, o: Outcome) -> bool {
    &&& o is Reply
    &&& forall|k2: Seq<char>| k2 != k ==> #[trigger] crate::directory::row_of(after.directory, k2)
        == crate::directory::row_of(before.directory, k2)
    &&& (crate::directory::row_of(before.directory, k) is Some && !before.cache.store.closed
        && crate::storage::lookup(before.cache.store, crate::directory::row_of(before.directory, k)->Some_0 as int)
        is Some) ==> crate::storage::lookup(
        after.cache.store,
        crate::directory::row_of(before.directory, k)->Some_0 as int,
    ) is None
    &&& is_ok_reply(o) ==> (after.cache.entries.len() > 0 && after.cache.entries.last().0
        == before.cache.store.index.len() as u64 && after.cache.entries.last().1@ == v)
    &&& is_ok_reply(o) <==> (!before.cache.store.closed && v.len() <= crate::storage::MAX_VALUE_SIZE
        && before.cache.store.data.len() + v.len() + 1 <= crate::storage::MAX_DB_SIZE
        && before.cache.store.index.len() < crate::storage::MAX_ROWS)
    &&& is_ok_reply(o) ==> {
        &&& after.cache.store.index.len() == before.cache.store.index.len() + 1
        &&& crate::directory::row_of(after.directory, k) == Some(before.cache.store.index.len() as u64)
        &&& crate::storage::lookup(after.cache.store, before.cache.store.index.len() as int) matches Some(off)
            && crate::storage::stored_at(after.cache.store.data, off as int, v)
    }
}

/// How many of `args` name a key that the directory holds (repeats count again).
pub open spec fn present_count(d: Seq<(Seq<char>, u64)>, args: Seq<RespValue>) -> nat
    decreases args.len(),
{
    if args.len() == 0 {
        0
    } else {
        present_count(d, args.drop_last()) + if arg_key(args.last()) matches Some(k) && has_entry(d, k) {
            1nat
        } else {
            0nat
        }
    }
}

/// The directory's keys that `pattern` matches, in directory order.
pub open spec fn matching_keys(d: Seq<(Seq<char>, u64)>, pattern: Seq<char>) -> Seq<Seq<char>>
    decreases d.len(),
{
    if d.len() == 0 {
        seq![]
    } else if glob_match(pattern, d.last().0) {
        matching_keys(d.drop_last(), pattern).push(d.last().0)
    } else {
        matching_keys(d.drop_last(), pattern)
    }
}

/// Whether `r` is an array of the bulk strings of `keys`.
pub open spec fn keys_reply(r: RespValue, keys: Seq<Seq<char>>) -> bool {
    r matches RespValue::Array(Some(a)) && a@.len() == keys.len() && forall|i: int|
        0 <= i < keys.len() ==> (#[trigger] a@[i] matches RespValue::BulkString(Some(b)) && b@ == encode_utf8(keys[i]))
}

/// What each routed command `c` with arguments `args` does, from state
/// `before` to `after`, replying `o`.
pub open spec fn routed(c: Seq<char>, args: Seq<RespValue>, before: HandlerView, after: HandlerView, o: Outcome) -> bool {
    &&& after.users == before.users || c == "USER"@
    &&& after.requires_auth == before.requires_auth
    &&& if c == "PING"@ || c == "ECHO"@ {
        &&& after == before
        &&& (c == "PING"@ && args.len() == 0) ==> (o matches Outcome::Reply {
            reply: RespValue::SimpleString(t),
            save_directory: false,
            save_users: false,
        } && t@ == "PONG"@)
        &&& args.len() == 1 ==> o == Outcome::Reply { reply: args[0], save_directory: false, save_users: false }
    } else if c == "GET"@ {
        &&& after.directory == before.directory
        &&& after.cache.store == before.cache.store
        &&& (args.len() == 1 && arg_key(args[0]) is Some) ==> get_reply(before, arg_key(args[0])->Some_0, o)
    } else if c == "MGET"@ {
        &&& after.directory == before.directory
        &&& after.cache.store == before.cache.store
        &&& args.len() > 0 ==> (o matches Outcome::Reply { reply: r, save_directory: false, save_users: false }
            && mget_reply(before, args, r))
    } else if c == "SET"@ {
        (args.len() >= 2 && arg_key(args[0]) is Some && args[1] matches RespValue::BulkString(Some(v)))
            ==> set_reply(before, after, arg_key(args[0])->Some_0, args[1]->BulkString_0->Some_0@, o)
    } else if c == "DEL"@ {
        &&& args.len() > 0 ==> {
            let run = del_run(before.directory, before.cache.store, args);
            &&& o == Outcome::Reply { reply: RespValue::Integer(run.deleted as i64), save_directory: true, save_users: false }
            &&& after.directory == run.directory
            &&& after.cache.store == run.store
        }
        &&& forall|i: int| 0 <= i < args.len() && arg_key(args[i]) is Some ==> crate::directory::row_of(
            after.directory,
            #[trigger] arg_key(args[i])->Some_0,
        ) is None
    } else if c == "EXISTS"@ {
        &&& after == before
        &&& args.len() > 0 ==> o == Outcome::Reply {
            reply: RespValue::Integer(present_count(before.directory, args) as i64),
            save_directory: false,
            save_users: false,
        }
    } else if c == "KEYS"@ {
        &&& after == before
        &&& (args.len() == 1 && arg_key(args[0]) is Some) ==> (o matches Outcome::Reply { reply: r, save_directory: false, save_users: false }
            && keys_reply(r, matching_keys(before.directory, arg_key(args[0])->Some_0)))
    } else if c == "DBSIZE"@ {
        &&& after == before
        &&& o == Outcome::Reply {
            reply: RespValue::Integer(before.directory.len() as i64),
            save_directory: false,
            save_users: false,
        }
    } else if c == "FLUSHDB"@ {
        &&& is_ok_reply(o)
        &&& o matches Outcome::Reply { save_directory: true, .. }
        &&& after.directory.len() == 0
        &&& after.cache.entries.len() == 0
        &&& after.cache.store == before.cache.store
    } else if c == "INFO"@ {
        &&& after == before
        &&& o matches Outcome::Reply { reply: RespValue::BulkString(Some(b)), save_directory: false, save_users: false }
            && b@ == info_text(before)
    } else if c == "COMMAND"@ {
        o matches Outcome::Reply { reply: RespValue::Array(Some(a)), .. } && a@.len() == 0 && after == before
    } else if c == "SAVE"@ || c == "BGSAVE"@ {
        after == before && (o matches Outcome::Backup { name, reply_with_name: false } && name@ == "manual"@)
    } else if c == "BACKUP"@ {
        &&& after == before
        &&& args.len() == 0 ==> (o matches Outcome::Backup { name, reply_with_name: true } && name@ == "backup"@)
        &&& (args.len() > 0 && arg_key(args[0]) is Some) ==> (o matches Outcome::Backup { name, reply_with_name: true }
            && name@ == arg_key(args[0])->Some_0)
    } else if c == "RESTORE"@ {
        &&& after == before
        &&& (args.len() == 1 && arg_key(args[0]) is Some) ==> if crate::backup::restorable_path(
            arg_key(args[0])->Some_0,
        ) {
            o matches Outcome::Restore { file } && file@ == arg_key(args[0])->Some_0
        } else {
            is_error_reply(o, "ERR invalid backup path"@)
        }
    } else if c == "LASTSAVE"@ {
        o is ListBackups && after == before
    } else if c == "USER"@ {
        &&& after.directory == before.directory
        &&& after.cache == before.cache
        &&& (user_sub(args) matches Some(sub) && sub != "WHOAMI"@ && before.users is None) ==> (
            is_error_reply(o, "ERR multi-user mode is not enabled"@) && after == before)
        &&& (user_sub(args) is Some && user_sub(args)->Some_0 != "WHOAMI"@ && before.users is Some) ==> (
            after.users is Some && user_table_reply(
                user_sub(args)->Some_0,
                args,
                before.users->Some_0,
                after.users->Some_0,
                o,
            ))
    } else if c == "QUIT"@ {
        is_ok_reply(o) && after == before
    } else {
        after == before && o matches Outcome::Reply { reply: RespValue::Error(_), .. }
    }
}

/// What a dispatcher holds.
pub struct HandlerView {
    pub cache: CachedView,
    pub directory: Seq<(Seq<char>, u64)>,
    pub users: Option<Seq<User>>,
    pub requires_auth: bool,
    /// The single-password hash, if one is configured.
    pub password_hash: Option<Seq<char>>,
}

/// Routes requests to command handlers.
pub struct CommandHandler {
    cache: ToonCache,
    directory: KeyDirectory,
    auth: AuthConfig,
    users: Option<UserManager>,
}

fn text(s: &str) -> (r: String)
    ensures
        r@ == s@,
{
    String::from_str(s)
}

fn error_reply(s: &str) -> (r: RespValue)
    ensures
        r matches RespValue::Error(t) && t@ == s@,
{
    RespValue::Error(String::from_str(s))
}

fn ok_reply() -> (r: RespValue)
    ensures
        r matches RespValue::SimpleString(t) && t@ == "OK"@,
{
    RespValue::SimpleString(String::from_str("OK"))
}

fn reply(r: RespValue) -> (o: Outcome)
    ensures
        o == (Outcome::Reply { reply: r, save_directory: false, save_users: false }),
{
    Outcome::Reply { reply: r, save_directory: false, save_users: false }
}

fn push_text(out: &mut Vec<u8>, s: &str)
    ensures
        final(out)@ == old(out)@ + s.spec_bytes(),
{
    out.extend_from_slice(s.as_bytes());
}

/// The reply sent when a request cannot be decoded: `ERR <detail>`.
pub fn protocol_error_reply(detail: &String) -> (r: RespValue)
    ensures
        r matches RespValue::Error(t) && t@ == "ERR "@ + detail@,
{
    let mut s = String::from_str("ERR ");
    s.append(detail.as_str());
    RespValue::Error(s)
}

/// The error reply `ERR <detail>` for a failure outside the library (an I/O
/// error, a missing archive).
pub fn failure_reply(detail: &String) -> (r: RespValue)
    ensures
        r matches RespValue::Error(t) && t@ == "ERR "@ + detail@,
{
    protocol_error_reply(detail)
}

/// The reply to a backup request once the archive was written (`Ok` with its
/// file name) or not (`Err` with the reason): the file name as a bulk string
/// when `reply_with_name`, else `OK`; on failure `ERR <reason>`.
pub fn backup_reply(created: &Result<String, String>, reply_with_name: bool) -> (r: RespValue)
    ensures
        created matches Ok(name) ==> if reply_with_name {
            r matches RespValue::BulkString(Some(b)) && b@ == encode_utf8(name@)
        } else {
            r matches RespValue::SimpleString(t) && t@ == "OK"@
        },
        created matches Err(e) ==> (r matches RespValue::Error(t) && t@ == "ERR "@ + e@),
{
    match created {
        Ok(name) => if reply_with_name {
            RespValue::BulkString(Some(vstd::slice::slice_to_vec(name.as_str().as_bytes())))
        } else {
            ok_reply()
        },
        Err(e) => protocol_error_reply(e),
    }
}

/// The reply to a restore request: `OK`, or `ERR <reason>`.
pub fn restore_reply(restored: &Result<(), String>) -> (r: RespValue)
    ensures
        restored is Ok ==> (r matches RespValue::SimpleString(t) && t@ == "OK"@),
        restored matches Err(e) ==> (r matches RespValue::Error(t) && t@ == "ERR "@ + e@),
{
    match restored {
        Ok(()) => ok_reply(),
        Err(e) => protocol_error_reply(e),
    }
}

/// The reply listing backups: an array of their names as bulk strings, in order.
pub fn backup_list_reply(names: &Vec<String>) -> (r: RespValue)
    ensures
        r matches RespValue::Array(Some(a)) && a@.len() == names@.len() && forall|i: int|
            0 <= i < names@.len() ==> (#[trigger] a@[i] matches RespValue::BulkString(Some(b))
                && b@ == encode_utf8(names@[i]@)),
{
    let mut out: Vec<RespValue> = Vec::new();
    let mut i: usize = 0;
    while i < names.len()
        invariant
            i <= names@.len(),
            out@.len() == i,
            forall|j: int|
                0 <= j < i ==> (#[trigger] out@[j] matches RespValue::BulkString(Some(b)) && b@ == encode_utf8(
                    names@[j]@,
                )),
        decreases names@.len() - i,
    {
        out.push(RespValue::BulkString(Some(vstd::slice::slice_to_vec(names[i].as_str().as_bytes()))));
        i = i + 1;
    }
    RespValue::Array(Some(out))
}

/// The key an argument names, when it is a UTF-8 bulk string.
fn key_of(arg: &RespValue) -> (r: Option<String>)
    ensures
        r is None <==> arg_key(*arg) is None,
        r matches Some(k) ==> arg_key(*arg) == Some(k@),
{
    match arg {
        RespValue::BulkString(Some(k)) => utf8_text(k.as_slice()),
        _ => None,
    }
}

fn role_of_name(name: &String) -> (r: Option<UserRole>) {
    let n = to_upper(name.as_str());
    if text_is(&n, "ADMIN") {
        Some(UserRole::Admin)
    } else if text_is(&n, "READWRITE") {
        Some(UserRole::ReadWrite)
    } else if text_is(&n, "READONLY") {
        Some(UserRole::ReadOnly)
    } else {
        None
    }
}

impl CommandHandler {
    /// The dispatcher's state.
    pub closed spec fn state(&self) -> HandlerView {
        HandlerView {
            cache: self.cache@,
            directory: self.directory@,
            users: match &self.users {
                Some(m) => Some(m@),
                None => None,
            },
            requires_auth: self.auth.needs_auth() || self.users is Some,
            password_hash: self.auth.hash(),
        }
    }

    /// The invariant of the parts.
    pub closed spec fn wf(&self) -> bool {
        &&& self.cache.wf()
        &&& self.directory.wf()
        &&& (self.users matches Some(m) ==> m.wf())
    }

    /// A dispatcher over `cache`, with an empty directory, no authentication
    /// and no user table.
    pub fn new(cache: ToonCache) -> (r: Self)
        requires
            cache.wf(),
        ensures
            r.wf(),
            r.state().cache == cache@,
            r.state().directory == Seq::<(Seq<char>, u64)>::empty(),
            r.state().users is None,
            !r.state().requires_auth,
    {
        CommandHandler {
            cache,
            directory: KeyDirectory::new(),
            auth: AuthConfig::disabled(),
            users: None,
        }
    }

    /// Uses `auth` for single-password authentication.
    pub fn with_auth(self, auth: AuthConfig) -> (r: Self)
        requires
            self.wf(),
        ensures
            r.wf(),
            r.state().cache == self.state().cache,
            r.state().directory == self.state().directory,
            r.state().users == self.state().users,
            r.state().requires_auth == (auth.needs_auth() || self.state().users is Some),
    {
        CommandHandler { auth, ..self }
    }

    /// Uses `users` for multi-user authentication; clients must then authenticate.
    pub fn with_users(self, users: UserManager) -> (r: Self)
        requires
            self.wf(),
            users.wf(),
        ensures
            r.wf(),
            r.state().cache == self.state().cache,
            r.state().directory == self.state().directory,
            r.state().users == Some(users@),
            r.state().requires_auth,
    {
        CommandHandler { users: Some(users), ..self }
    }

    /// Uses `directory` as the key directory.
    pub fn with_directory(self, directory: KeyDirectory) -> (r: Self)
        requires
            self.wf(),
            directory.wf(),
        ensures
            r.wf(),
            r.state().cache == self.state().cache,
            r.state().directory == directory@,
            r.state().users == self.state().users,
            r.state().requires_auth == self.state().requires_auth,
    {
        CommandHandler { directory, ..self }
    }

    /// Whether new sessions start unauthenticated.
    pub fn auth_required(&self) -> (r: bool)
        ensures
            r == self.state().requires_auth,
    {
        self.auth.is_required() || self.users.is_some()
    }

    /// When the directory is empty, rebuilds it from the live records that
    /// are JSON documents with a top-level `id` string. Returns whether it
    /// rebuilt (the caller then persists the directory).
    pub fn rebuild_directory_if_empty(&mut self) -> (r: bool)
        requires
            old(self).wf(),
        ensures
            final(self).wf(),
            r == (old(self).state().directory.len() == 0),
            final(self).state().cache == old(self).state().cache,
            final(self).state().users == old(self).state().users,
            final(self).state().requires_auth == old(self).state().requires_auth,
            !r ==> final(self).state() == old(self).state(),
            r ==> forall|k: Seq<char>|
                has_entry(final(self).state().directory, k) ==> exists|row: u64, b: Vec<u8>|
                    crate::directory::row_of(final(self).state().directory, k) == Some(row)
                        && crate::storage::read_outcome(old(self).state().cache.store, row as int, Ok(b))
                        && crate::directory::json_id_of(b@) == Some(k),
            r ==> forall|row: u64, b: Vec<u8>|
                #[trigger] crate::storage::read_outcome(old(self).state().cache.store, row as int, Ok(b))
                    && crate::directory::json_id_of(b@) is Some ==> has_entry(
                    final(self).state().directory,
                    crate::directory::json_id_of(b@)->Some_0,
                ),
    {
        if self.directory.len() != 0 {
            return false;
        }
        let scanned = self.cache.scan();
        let ghost store = self.cache@.store;
        let ghost ids = crate::storage::live_ids(store.index);
        let mut rows: Vec<(u64, Vec<u8>)> = Vec::new();
        let mut i: usize = 0;
        while i < scanned.len()
            invariant
                0 <= i <= scanned@.len(),
                scanned@.len() == ids.len(),
                forall|k: int| 0 <= k < scanned@.len() ==> crate::storage::scan_item(store, #[trigger] ids[k], scanned@[k]),
                forall|j: int| 0 <= j < rows@.len() ==> crate::storage::read_outcome(store, #[trigger] rows@[j].0 as int, Ok(rows@[j].1)),
                forall|k: int|
                    0 <= k < i ==> (#[trigger] scanned@[k] matches Ok((id, bb)) ==> exists|j: int|
                        0 <= j < rows@.len() && rows@[j].0 == id && rows@[j].1@ == bb@),
            decreases scanned@.len() - i,
        {
            let ghost rows_before = rows@;
            match &scanned[i] {
                Ok((id, bytes)) => {
                    let copy = vstd::slice::slice_to_vec(bytes.as_slice());
                    proof {
                        assert(crate::storage::scan_item(store, ids[i as int], scanned@[i as int]));
                        assert(copy@ == bytes@);
                    }
                    rows.push((*id, copy));
                    proof {
                        let last = rows@.len() - 1;
                        assert(rows@[last].0 == *id && rows@[last].1@ == bytes@);
                    }
                },
                Err(_) => {},
            }
            proof {
                assert forall|k: int|
                    0 <= k < i + 1 implies (#[trigger] scanned@[k] matches Ok((id, bb)) ==> exists|j: int|
                        0 <= j < rows@.len() && rows@[j].0 == id && rows@[j].1@ == bb@) by {
                    if k < i {
                        if let Ok((id, bb)) = scanned@[k] {
                            let j = choose|j: int|
                                0 <= j < rows_before.len() && rows_before[j].0 == id && rows_before[j].1@ == bb@;
                            assert(rows@[j] == rows_before[j]);
                        }
                    }
                }
            }
            i = i + 1;
        }
        self.directory = KeyDirectory::rebuild(&rows);
        proof {
            assert forall|row: u64, b: Vec<u8>|
                #[trigger] crate::storage::read_outcome(store, row as int, Ok(b))
                    && crate::directory::json_id_of(b@) is Some implies has_entry(
                    self.directory@,
                    crate::directory::json_id_of(b@)->Some_0,
                ) by {
                let off = crate::storage::lookup(store, row as int)->Some_0 as int;
                crate::storage::lemma_live_ids_complete(store.index, row as int);
                let k = choose|k: int| 0 <= k < ids.len() && ids[k] == row as int;
                assert(crate::storage::scan_item(store, ids[k], scanned@[k]));
                match scanned@[k] {
                    Ok((id, bb)) => {
                        let j = choose|j: int| 0 <= j < rows@.len() && rows@[j].0 == id && rows@[j].1@ == bb@;
                        crate::storage::lemma_record_unique(store.data, off, b@, bb@);
                        assert(rows@[j].1@ == b@);
                        assert(crate::directory::json_id_of(rows@[j].1@) is Some);
                    },
                    Err(e) => {},
                }
            }
            assert forall|k: Seq<char>| has_entry(self.directory@, k) implies exists|row: u64, b: Vec<u8>|
                crate::directory::row_of(self.directory@, k) == Some(row)
                    && crate::storage::read_outcome(store, row as int, Ok(b))
                    && crate::directory::json_id_of(b@) == Some(k) by {
                let j = choose|j: int|
                    0 <= j < rows@.len() && crate::directory::json_id_of(#[trigger] rows@[j].1@) == Some(k)
                        && crate::directory::row_of(self.directory@, k) == Some(rows@[j].0);
                assert(crate::storage::read_outcome(store, rows@[j].0 as int, Ok(rows@[j].1)));
            }
        }
        true
    }

    /// The directory file's content.
    pub fn directory_file(&self) -> (r: Vec<u8>)
        ensures
            r@ == crate::directory::directory_file(self.state().directory),
    {
        self.directory.to_file_bytes()
    }

    /// The user table, in multi-user mode.
    pub fn users(&self) -> (r: Option<&UserManager>)
        ensures
            r is Some <==> self.state().users is Some,
            r matches Some(m) ==> self.state().users == Some(m@),
    {
        match &self.users {
            Some(m) => Some(m),
            None => None,
        }
    }

    /// The cached store.
    pub fn cache(&self) -> (r: &ToonCache)
        ensures
            r@ == self.state().cache,
    {
        &self.cache
    }

    /// Closes the store.
    pub fn close(&mut self) -> (r: Result<(), crate::error::Error>)
        requires
            old(self).wf(),
        ensures
            r is Ok,
            final(self).state().cache.store.closed,
            final(self).state().cache.store.index == old(self).state().cache.store.index,
    {
        self.cache.close()
    }

    /// Handles one request for `session`.
    ///
    /// `AUTH` is always routed. Any other command from an unauthenticated
    /// session, when authentication is required, gets `NOAUTH` and changes
    /// nothing; a command that the session's role forbids gets `NOPERM` and
    /// changes nothing.
    pub fn handle(&mut self, cmd: RespValue, session: &mut SessionState) -> (o: Outcome)
        requires
            old(self).wf(),
        ensures
            final(self).wf(),
            command_name(cmd) is None ==> final(self).state() == old(self).state() && *final(session)
                == *old(session) && o is Reply,
            command_name(cmd) matches Some(c) ==> handled(
                c,
                request_args(cmd),
                old(self).state(),
                final(self).state(),
                *old(session),
                *final(session),
                o,
            ),
    {
        let ghost request = cmd;
        let mut arr = match cmd {
            RespValue::Array(Some(arr)) => arr,
            _ => {
                return reply(error_reply("ERR invalid command format"));
            },
        };
        if arr.len() == 0 {
            return reply(error_reply("ERR invalid command format"));
        }
        let command = match &arr[0] {
            RespValue::BulkString(Some(c)) => to_upper(lossy_text(c.as_slice()).as_str()),
            _ => {
                return reply(error_reply("ERR invalid command"));
            },
        };
        let args = arr.split_off(1);
        proof {
            assert(args@ =~= request_args(request));
        }
        self.handle_named(&command, args, session)
    }

    /// Handles command `command`, already upper-cased, with arguments `args`
    /// for `session`: the authentication and role gates, then routing.
    pub fn handle_named(&mut self, command: &String, args: Vec<RespValue>, session: &mut SessionState) -> (o: Outcome)
        requires
            old(self).wf(),
        ensures
            final(self).wf(),
            handled(command@, args@, old(self).state(), final(self).state(), *old(session), *final(session), o),
    {
        if text_is(command, "AUTH") {
            return self.handle_auth(&args, session);
        }
        if self.auth_required() && !session.is_authenticated() {
            return reply(error_reply("NOAUTH Authentication required"));
        }
        if !session_permits(session, command) {
            return reply(error_reply("NOPERM this user has no permissions to run this command"));
        }
        self.route(command, args, session)
    }

    fn route(&mut self, command: &String, args: Vec<RespValue>, session: &mut SessionState) -> (o: Outcome)
        requires
            old(self).wf(),
        ensures
            final(self).wf(),
            routed(command@, args@, old(self).state(), final(self).state(), o),
            *final(session) == *old(session),
    {

        if text_is(command, "PING") {
            reply(Self::handle_ping(args))
        } else if text_is(command, "ECHO") {
            reply(Self::handle_echo(args))
        } else if text_is(command, "GET") {
            if args.len() != 1 {
                reply(error_reply("ERR wrong number of arguments for 'get' command"))
            } else {
                match key_of(&args[0]) {
                    None => reply(error_reply("ERR invalid key")),
                    Some(k) => reply(self.get_value(&k)),
                }
            }
        } else if text_is(command, "MGET") {
            reply(self.handle_mget(&args))
        } else if text_is(command, "SET") {
            self.handle_set(&args)
        } else if text_is(command, "DEL") {
            self.handle_del(&args)
        } else if text_is(command, "EXISTS") {
            reply(self.handle_exists(&args))
        } else if text_is(command, "KEYS") {
            reply(self.handle_keys(&args))
        } else if text_is(command, "DBSIZE") {
            reply(RespValue::Integer(#[verifier::truncate] (self.directory.len() as i64)))
        } else if text_is(command, "FLUSHDB") {
            self.directory.clear();
            self.cache.clear_cache();
            Outcome::Reply { reply: ok_reply(), save_directory: true, save_users: false }
        } else if text_is(command, "INFO") {
            reply(self.handle_info())
        } else if text_is(command, "COMMAND") {
            reply(RespValue::Array(Some(Vec::new())))
        } else if text_is(command, "SAVE") || text_is(command, "BGSAVE") {
            Outcome::Backup { name: text("manual"), reply_with_name: false }
        } else if text_is(command, "BACKUP") {
            if args.len() == 0 {
                Outcome::Backup { name: text("backup"), reply_with_name: true }
            } else {
                match key_of(&args[0]) {
                    Some(n) => Outcome::Backup { name: n, reply_with_name: true },
                    None => reply(error_reply("ERR invalid backup name")),
                }
            }
        } else if text_is(command, "RESTORE") {
            if args.len() != 1 {
                reply(error_reply("ERR wrong number of arguments for 'restore' command"))
            } else {
                match key_of(&args[0]) {
                    None => reply(error_reply("ERR invalid backup path")),
                    Some(f) => if restore_path_allowed(f.as_str()) {
                        Outcome::Restore { file: f }
                    } else {
                        reply(error_reply("ERR invalid backup path"))
                    },
                }
            }
        } else if text_is(command, "LASTSAVE") {
            Outcome::ListBackups
        } else if text_is(command, "USER") {
            self.handle_user(&args, session)
        } else if text_is(command, "QUIT") {
            reply(ok_reply())
        } else {
            let mut s = String::from_str("ERR unknown command '");
            s.append(command.as_str());
            s.append("'");
            reply(RespValue::Error(s))
        }
    }

    fn handle_ping(args: Vec<RespValue>) -> (r: RespValue)
        ensures
            args@.len() == 0 ==> (r matches RespValue::SimpleString(t) && t@ == "PONG"@),
            args@.len() == 1 ==> r == args@[0],
    {
        let mut args = args;
        if args.len() == 0 {
            RespValue::SimpleString(String::from_str("PONG"))
        } else if args.len() == 1 {
            args.remove(0)
        } else {
            error_reply("ERR wrong number of arguments for 'ping' command")
        }
    }

    fn handle_echo(args: Vec<RespValue>) -> (r: RespValue)
        ensures
            args@.len() == 1 ==> r == args@[0],
    {
        let mut args = args;
        if args.len() != 1 {
            return error_reply("ERR wrong number of arguments for 'echo' command");
        }
        args.remove(0)
    }

    /// `GET key`: the record the key's row holds, or the null bulk string
    /// when the key is unknown or its row cannot be read.
    fn get_value(&mut self, key: &String) -> (r: RespValue)
        requires
            old(self).wf(),
        ensures
            final(self).wf(),
            final(self).state().directory == old(self).state().directory,
            final(self).state().users == old(self).state().users,
            final(self).state().requires_auth == old(self).state().requires_auth,
            final(self).state().cache.store == old(self).state().cache.store,
            r is BulkString,
            crate::directory::row_of(old(self).state().directory, key@) is None ==> r == RespValue::BulkString(None),
            r matches RespValue::BulkString(Some(b)) ==> (crate::directory::row_of(old(self).state().directory, key@) matches Some(row)
                && crate::cache::entry_matches(old(self).state().cache.store, (row, b))),
            value_reply(old(self).state(), key@, r),
            crate::directory::row_of(old(self).state().directory, key@) matches Some(row) ==> row_reply(
                old(self).state(),
                row,
                r,
            ),
    {
        match self.directory.get(key.as_str()) {
            None => RespValue::BulkString(None),
            Some(row) => {
                let ghost before = self.state();
                proof {
                    self.cache.lemma_entries_unique();
                }
                let res = self.cache.get(row);
                proof {
                    if has_key(before.cache.entries, row) {
                        let p = position_of(before.cache.entries, row);
                        assert forall|j: int|
                            0 <= j < before.cache.entries.len() && (#[trigger] before.cache.entries[j]).0 == row
                                implies j == p by {
                            assert(keys_unique(before.cache.entries));
                            assert(before.cache.entries[p].0 == row);
                        }
                    }
                    if res is Ok && !has_key(before.cache.entries, row) {
                        assert(read_outcome(before.cache.store, row as int, res));
                    }
                    if !before.cache.store.closed && readable(before.cache.store, row) && !has_key(before.cache.entries, row) {
                        assert(res is Ok);
                    }
                }
                match res {
                    Ok(data) => RespValue::BulkString(Some(data)),
                    Err(_) => RespValue::BulkString(None),
                }
            },
        }
    }

    fn handle_mget(&mut self, args: &Vec<RespValue>) -> (r: RespValue)
        requires
            old(self).wf(),
        ensures
            final(self).wf(),
            final(self).state().directory == old(self).state().directory,
            final(self).state().cache.store == old(self).state().cache.store,
            final(self).state().users == old(self).state().users,
            final(self).state().requires_auth == old(self).state().requires_auth,
            args@.len() > 0 ==> mget_reply(old(self).state(), args@, r),
    {
        if args.len() == 0 {
            return error_reply("ERR wrong number of arguments for 'mget' command");
        }
        let mut out: Vec<RespValue> = Vec::new();
        let mut i: usize = 0;
        while i < args.len()
            invariant
                self.wf(),
                self.state().directory == old(self).state().directory,
                self.state().cache.store == old(self).state().cache.store,
                self.state().users == old(self).state().users,
                self.state().requires_auth == old(self).state().requires_auth,
                i <= args@.len(),
                out@.len() == i,
                forall|j: int|
                    0 <= j < i ==> match arg_key(args@[j]) {
                        Some(k) => value_reply(old(self).state(), k, #[trigger] out@[j]),
                        None => out@[j] == RespValue::BulkString(None),
                    },
            decreases args@.len() - i,
        {
            let v = match key_of(&args[i]) {
                None => RespValue::BulkString(None),
                Some(k) => self.get_value(&k),
            };
            out.push(v);
            i = i + 1;
        }
        RespValue::Array(Some(out))
    }

    /// `SET key value`: a key that exists loses its prior row first; the
    /// value is appended and the key points at its row.
    fn handle_set(&mut self, args: &Vec<RespValue>) -> (o: Outcome)
        requires
            old(self).wf(),
        ensures
            final(self).wf(),
            final(self).state().users == old(self).state().users,
            final(self).state().requires_auth == old(self).state().requires_auth,
            (args@.len() >= 2 && arg_key(args@[0]) is Some && args@[1] matches RespValue::BulkString(Some(v)))
                ==> set_reply(old(self).state(), final(self).state(), arg_key(args@[0])->Some_0, args@[1]->BulkString_0->Some_0@, o),
    {
        if args.len() < 2 {
            return reply(error_reply("ERR wrong number of arguments for 'set' command"));
        }
        let key = match key_of(&args[0]) {
            None => {
                return reply(error_reply("ERR invalid key type"));
            },
            Some(k) => k,
        };
        let value = match &args[1] {
            RespValue::BulkString(Some(v)) => v,
            _ => {
                return reply(error_reply("ERR invalid value type"));
            },
        };
        self.set_value(key, value.as_slice())
    }

    /// Stores `value` under `key`.
    pub fn set_value(&mut self, key: String, value: &[u8]) -> (o: Outcome)
        requires
            old(self).wf(),
        ensures
            final(self).wf(),
            final(self).state().users == old(self).state().users,
            final(self).state().requires_auth == old(self).state().requires_auth,
            set_reply(old(self).state(), final(self).state(), key@, value@, o),
            o matches Outcome::Reply { reply: RespValue::SimpleString(_), .. } ==> {
                &&& final(self).state().cache.store.index.len() == old(self).state().cache.store.index.len() + 1
                &&& crate::directory::row_of(final(self).state().directory, key@) == Some(
                    old(self).state().cache.store.index.len() as u64,
                )
                &&& crate::storage::lookup(final(self).state().cache.store, old(self).state().cache.store.index.len() as int) matches Some(off)
                    && crate::storage::stored_at(final(self).state().cache.store.data, off as int, value@)
            },
    {
        match self.directory.get(key.as_str()) {
            Some(prev) => {
                let _ = self.cache.delete(prev);
            },
            None => {},
        }
        let ghost before = self.cache@;
        match self.cache.put(value) {
            Ok(row) => {
                self.directory.insert(key, row);
                proof {
                    let d = before.store.data;
                    assert(self.cache@.store.index.len() == before.store.index.len() + 1);
                    assert(self.cache@.store.index[before.store.index.len() as int] == Some(d.len() as u64));
                    assert(self.cache@.store.data.subrange(d.len() as int, (d.len() + value@.len()) as int) =~= value@);
                }
                Outcome::Reply { reply: ok_reply(), save_directory: true, save_users: false }
            },
            Err(e) => {
                let mut s = String::from_str("ERR ");
                s.append(e.message().as_str());
                Outcome::Reply { reply: RespValue::Error(s), save_directory: true, save_users: false }
            },
        }
    }

    fn handle_del(&mut self, args: &Vec<RespValue>) -> (o: Outcome)
        requires
            old(self).wf(),
        ensures
            final(self).wf(),
            final(self).state().users == old(self).state().users,
            final(self).state().requires_auth == old(self).state().requires_auth,
            args@.len() > 0 ==> {
                let run = del_run(old(self).state().directory, old(self).state().cache.store, args@);
                &&& o == Outcome::Reply { reply: RespValue::Integer(run.deleted as i64), save_directory: true, save_users: false }
                &&& final(self).state().directory == run.directory
                &&& final(self).state().cache.store == run.store
            },
            forall|i: int| 0 <= i < args@.len() && arg_key(args@[i]) is Some ==> crate::directory::row_of(
                final(self).state().directory,
                #[trigger] arg_key(args@[i])->Some_0,
            ) is None,
    {
        if args.len() == 0 {
            return reply(error_reply("ERR wrong number of arguments for 'del' command"));
        }
        let mut deleted: u64 = 0;
        let mut i: usize = 0;
        while i < args.len()
            invariant
                self.wf(),
                deleted <= i,
                i <= args@.len(),
                self.state().users == old(self).state().users,
                self.state().requires_auth == old(self).state().requires_auth,
                forall|j: int| 0 <= j < i && arg_key(args@[j]) is Some ==> crate::directory::row_of(
                    self.state().directory,
                    #[trigger] arg_key(args@[j])->Some_0,
                ) is None,
                deleted == del_run(old(self).state().directory, old(self).state().cache.store, args@.subrange(0, i as int)).deleted,
                self.state().directory == del_run(old(self).state().directory, old(self).state().cache.store, args@.subrange(0, i as int)).directory,
                self.state().cache.store == del_run(old(self).state().directory, old(self).state().cache.store, args@.subrange(0, i as int)).store,
            decreases args@.len() - i,
        {
            proof {
                assert(args@.subrange(0, i as int + 1).drop_last() =~= args@.subrange(0, i as int));
                assert(args@.subrange(0, i as int + 1).last() == args@[i as int]);
            }
            let ghost before = self.state().directory;
            match key_of(&args[i]) {
                None => {},
                Some(k) => match self.directory.remove(k.as_str()) {
                    None => {},
                    Some(row) => {
                        if self.cache.delete(row).is_ok() {
                            deleted = deleted + 1;
                        }
                    },
                },
            }
            proof {
                assert forall|j: int| 0 <= j < i + 1 && arg_key(args@[j]) is Some implies crate::directory::row_of(
                    self.state().directory,
                    #[trigger] arg_key(args@[j])->Some_0,
                ) is None by {
                    let k = arg_key(args@[j])->Some_0;
                    if j < i && k != arg_key(args@[i as int])->Some_0 {
                        assert(crate::directory::row_of(before, k) is None);
                    }
                }
            }
            i = i + 1;
        }
        proof {
            assert(args@.subrange(0, i as int) =~= args@);
        }
        Outcome::Reply { reply: RespValue::Integer(deleted as i64), save_directory: true, save_users: false }
    }

    fn handle_exists(&self, args: &Vec<RespValue>) -> (r: RespValue)
        requires
            self.wf(),
        ensures
            args@.len() > 0 ==> r == RespValue::Integer(present_count(self.state().directory, args@) as i64),
    {
        if args.len() == 0 {
            return error_reply("ERR wrong number of arguments for 'exists' command");
        }
        let mut count: u64 = 0;
        let mut i: usize = 0;
        while i < args.len()
            invariant
                self.wf(),
                count <= i,
                i <= args@.len(),
                count == present_count(self.state().directory, args@.subrange(0, i as int)),
            decreases args@.len() - i,
        {
            proof {
                assert(args@.subrange(0, i as int + 1).drop_last() =~= args@.subrange(0, i as int));
            }
            match key_of(&args[i]) {
                None => {},
                Some(k) => if self.directory.get(k.as_str()).is_some() {
                    count = count + 1;
                },
            }
            i = i + 1;
        }
        proof {
            assert(args@.subrange(0, i as int) =~= args@);
        }
        RespValue::Integer(count as i64)
    }

    fn handle_keys(&self, args: &Vec<RespValue>) -> (r: RespValue)
        requires
            self.wf(),
        ensures
            (args@.len() == 1 && arg_key(args@[0]) is Some) ==> keys_reply(
                r,
                matching_keys(self.state().directory, arg_key(args@[0])->Some_0),
            ),
    {
        if args.len() != 1 {
            return error_reply("ERR wrong number of arguments for 'keys' command");
        }
        let pattern = match key_of(&args[0]) {
            None => {
                return error_reply("ERR invalid pattern");
            },
            Some(p) => p,
        };
        let keys = self.directory.keys();
        let ghost d = self.state().directory;
        let mut out: Vec<RespValue> = Vec::new();
        let mut i: usize = 0;
        while i < keys.len()
            invariant
                i <= keys@.len(),
                keys@.len() == d.len(),
                forall|j: int| 0 <= j < keys@.len() ==> #[trigger] keys@[j]@ == d[j].0,
                keys_reply(RespValue::Array(Some(out)), matching_keys(d.subrange(0, i as int), pattern@)),
            decreases keys@.len() - i,
        {
            proof {
                assert(d.subrange(0, i as int + 1).drop_last() =~= d.subrange(0, i as int));
                assert(d.subrange(0, i as int + 1).last() == d[i as int]);
            }
            if matches_pattern(pattern.as_str(), keys[i].as_str()) {
                let item = RespValue::BulkString(Some(vstd::slice::slice_to_vec(keys[i].as_str().as_bytes())));
                let ghost before = out@;
                out.push(item);
                proof {
                    let mk = matching_keys(d.subrange(0, i as int + 1), pattern@);
                    assert forall|j: int| 0 <= j < mk.len() implies (#[trigger] out@[j] matches RespValue::BulkString(Some(b))
                        && b@ == encode_utf8(mk[j])) by {
                        if j < before.len() {
                            assert(out@[j] == before[j]);
                        }
                    }
                }
            }
            i = i + 1;
        }
        proof {
            assert(d.subrange(0, i as int) =~= d);
        }
        RespValue::Array(Some(out))
    }

    fn handle_info(&self) -> (r: RespValue)
        requires
            self.wf(),
        ensures
            r matches RespValue::BulkString(Some(b)) && b@ == info_text(self.state()),
    {
        let stats = self.cache.stats();
        let hits = stats.hits();
        let misses = stats.misses();
        let mut out: Vec<u8> = Vec::new();
        push_text(&mut out, "# Server\r\ntoonstore_version:0.1.0\r\n\r\n# Stats\r\ntotal_keys:");
        write_u64(self.directory.len() as u64, &mut out);
        push_text(&mut out, "\r\ncache_size:");
        write_u64(self.cache.cache_len() as u64, &mut out);
        push_text(&mut out, "\r\ncache_capacity:");
        write_u64(self.cache.capacity() as u64, &mut out);
        push_text(&mut out, "\r\ncache_hits:");
        write_u64(hits, &mut out);
        push_text(&mut out, "\r\ncache_misses:");
        write_u64(misses, &mut out);
        push_text(&mut out, "\r\ncache_hit_ratio:");
        let total: u128 = hits as u128 + misses as u128;
        let hundredths: u128 = if total == 0 {
            0
        } else {
            (hits as u128 * 200 + total) / (2 * total)
        };
        proof {
            if total > 0 {
                assert((hits as u128 * 200 + total) / (2 * total) <= 100) by (nonlinear_arith)
                    requires
                        hits <= total,
                        total > 0,
                ;
            }
        }
        write_u64((hundredths / 100) as u64, &mut out);
        push_text(&mut out, ".");
        let frac = (hundredths % 100) as u64;
        if frac < 10 {
            push_text(&mut out, "0");
        }
        write_u64(frac, &mut out);
        push_text(&mut out, "\r\n");
        proof {
            assert(hundredths == ratio_hundredths(hits as nat, misses as nat));
            assert(out@ =~= info_text(self.state()));
        }
        RespValue::BulkString(Some(out))
    }

    /// `AUTH [user] password`.
    fn handle_auth(&mut self, args: &Vec<RespValue>, session: &mut SessionState) -> (o: Outcome)
        requires
            old(self).wf(),
        ensures
            final(self).wf(),
            final(self).state() == old(self).state(),
            is_ok_reply(o) <==> auth_accepts(old(self).state(), args@),
            is_ok_reply(o) ==> final(session).authenticated,
            !is_ok_reply(o) ==> *final(session) == *old(session),
            o is Reply,
    {
        if args.len() == 0 || args.len() > 2 {
            return reply(error_reply("ERR wrong number of arguments for 'auth' command"));
        }
        let password = match key_of(&args[args.len() - 1]) {
            None => {
                return reply(error_reply("WRONGPASS invalid username-password pair"));
            },
            Some(p) => p,
        };
        match &self.users {
            Some(users) => {
                let username = if args.len() == 2 {
                    match key_of(&args[0]) {
                        None => {
                            return reply(error_reply("WRONGPASS invalid username-password pair"));
                        },
                        Some(u) => u,
                    }
                } else {
                    text("admin")
                };
                match users.authenticate(username.as_str(), password.as_str()) {
                    Some(u) => {
                        session.authenticate(u.username, u.role);
                        reply(ok_reply())
                    },
                    None => reply(error_reply("WRONGPASS invalid username-password pair")),
                }
            },
            None => {
                if self.auth.verify(password.as_str()) {
                    session.authenticate(text("default"), UserRole::Admin);
                    reply(ok_reply())
                } else {
                    reply(error_reply("WRONGPASS invalid username-password pair"))
                }
            },
        }
    }

    /// `USER CREATE|DELETE|LIST|SETPASS|WHOAMI ...`.
    fn handle_user(&mut self, args: &Vec<RespValue>, session: &SessionState) -> (o: Outcome)
        requires
            old(self).wf(),
        ensures
            final(self).wf(),
            final(self).state().requires_auth == old(self).state().requires_auth,
            final(self).state().directory == old(self).state().directory,
            final(self).state().cache == old(self).state().cache,
            (user_sub(args@) matches Some(sub) && sub != "WHOAMI"@ && old(self).state().users is None) ==> (
                is_error_reply(o, "ERR multi-user mode is not enabled"@) && final(self).state() == old(
                self,
            ).state()),
            (user_sub(args@) is Some && user_sub(args@)->Some_0 != "WHOAMI"@ && old(self).state().users is Some)
                ==> (final(self).state().users is Some && user_table_reply(
                user_sub(args@)->Some_0,
                args@,
                old(self).state().users->Some_0,
                final(self).state().users->Some_0,
                o,
            )),
    {
        if args.len() == 0 {
            return reply(error_reply("ERR wrong number of arguments for 'user' command"));
        }
        let sub = match key_of(&args[0]) {
            None => {
                return reply(error_reply("ERR invalid subcommand"));
            },
            Some(s) => to_upper(s.as_str()),
        };
        if text_is(&sub, "WHOAMI") {
            let name = session.username();
            return reply(RespValue::BulkString(Some(vstd::slice::slice_to_vec(name.as_str().as_bytes()))));
        }
        let mut users = match self.users.take() {
            None => {
                return reply(error_reply("ERR multi-user mode is not enabled"));
            },
            Some(m) => m,
        };
        let o = Self::user_command(&mut users, &sub, args);
        self.users = Some(users);
        o
    }

    fn user_command(users: &mut UserManager, sub: &String, args: &Vec<RespValue>) -> (o: Outcome)
        requires
            old(users).wf(),
            args@.len() >= 1,
        ensures
            final(users).wf(),
            user_table_reply(sub@, args@, old(users)@, final(users)@, o),
    {
        proof {
            reveal_strlit("LIST");
            reveal_strlit("DELETE");
            reveal_strlit("CREATE");
            reveal_strlit("SETPASS");
            assert("CREATE"@[0] != "DELETE"@[0]);
            assert("CREATE"@ != "DELETE"@);
        }
        if text_is(sub, "LIST") {
            let names = users.list_users();
            let mut out: Vec<RespValue> = Vec::new();
            let mut i: usize = 0;
            while i < names.len()
                invariant
                    i <= names@.len(),
                    *users == *old(users),
                    names@.len() == users@.len(),
                    forall|j: int| 0 <= j < names@.len() ==> #[trigger] names@[j]@ == users@[j].username@,
                    out@.len() == i,
                    forall|j: int|
                        0 <= j < i ==> (#[trigger] out@[j] matches RespValue::BulkString(Some(b)) && b@ == encode_utf8(
                            users@[j].username@,
                        )),
                decreases names@.len() - i,
            {
                out.push(RespValue::BulkString(Some(vstd::slice::slice_to_vec(names[i].as_str().as_bytes()))));
                i = i + 1;
            }
            return reply(RespValue::Array(Some(out)));
        }
        if text_is(sub, "CREATE") {
            if args.len() < 3 || args.len() > 4 {
                return reply(error_reply("ERR wrong number of arguments for 'user create' command"));
            }
            let (name, pw) = match (key_of(&args[1]), key_of(&args[2])) {
                (Some(n), Some(p)) => (n, p),
                _ => {
                    return reply(error_reply("ERR invalid argument"));
                },
            };
            let role = if args.len() == 4 {
                match key_of(&args[3]) {
                    None => None,
                    Some(r) => role_of_name(&r),
                }
            } else {
                Some(UserRole::ReadWrite)
            };
            let role = match role {
                None => {
                    return reply(error_reply("ERR invalid role (use Admin, ReadWrite or ReadOnly)"));
                },
                Some(r) => r,
            };
            return match users.create_user(name.as_str(), pw.as_str(), role) {
                Ok(()) => Outcome::Reply { reply: ok_reply(), save_directory: false, save_users: true },
                Err(crate::users::AuthError::UserExists) => reply(error_reply("ERR user already exists")),
                Err(_) => reply(error_reply("ERR failed to hash password")),
            };
        }
        if text_is(sub, "DELETE") {
            if args.len() != 2 {
                return reply(error_reply("ERR wrong number of arguments for 'user delete' command"));
            }
            let name = match key_of(&args[1]) {
                None => {
                    return reply(error_reply("ERR invalid argument"));
                },
                Some(n) => n,
            };
            return match users.delete_user(name.as_str()) {
                Ok(()) => Outcome::Reply { reply: ok_reply(), save_directory: false, save_users: true },
                Err(crate::users::AuthError::CannotDeleteAdmin) => reply(error_reply("ERR cannot delete admin user")),
                Err(_) => reply(error_reply("ERR user not found")),
            };
        }
        if text_is(sub, "SETPASS") {
            if args.len() != 3 {
                return reply(error_reply("ERR wrong number of arguments for 'user setpass' command"));
            }
            let (name, pw) = match (key_of(&args[1]), key_of(&args[2])) {
                (Some(n), Some(p)) => (n, p),
                _ => {
                    return reply(error_reply("ERR invalid argument"));
                },
            };
            return match users.change_password(name.as_str(), pw.as_str()) {
                Ok(()) => Outcome::Reply { reply: ok_reply(), save_directory: false, save_users: true },
                Err(crate::users::AuthError::UserNotFound) => reply(error_reply("ERR user not found")),
                Err(_) => reply(error_reply("ERR failed to hash password")),
            };
        }
        reply(error_reply("ERR unknown USER subcommand"))
    }
}

} // verus!
