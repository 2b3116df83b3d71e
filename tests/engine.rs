use altilium::command::{dispatch, expiry_for, handle_hset, parse_u64, process_command};
use altilium::data_types::{Command, KeyMetadata, Value};
use altilium::persistence::{command_to_resp, log_record};
use altilium::resp::RespValue;
use altilium::store::Store;
use altilium::table::Table;

fn bulk(s: &str) -> RespValue {
    RespValue::BulkString(s.as_bytes().to_vec())
}

fn err(s: &str) -> RespValue {
    RespValue::Error(s.to_string())
}

fn request(parts: &[&str]) -> RespValue {
    RespValue::Array(parts.iter().map(|p| bulk(p)).collect())
}

/// Runs one request and applies what it publishes, as the engine would.
fn run(
    store: &mut Store,
    authed: &mut bool,
    password: &Option<String>,
    now: u64,
    parts: &[&str],
) -> RespValue {
    let (reply, events) = process_command(request(parts), store, authed, password);
    store.process_commands(events, now);
    reply
}

fn open(store: &mut Store, now: u64, parts: &[&str]) -> RespValue {
    let mut authed = true;
    run(store, &mut authed, &None, now, parts)
}

fn string_at(store: &Store, key: &str) -> Option<String> {
    match store.get(key) {
        Some(Value::String(s)) => Some(s.clone()),
        _ => None,
    }
}

#[test]
fn set_then_get() {
    let mut store = Store::new();
    assert_eq!(
        open(&mut store, 0, &["SET", "foo", "bar"]),
        RespValue::SimpleString("OK".to_string())
    );
    assert_eq!(open(&mut store, 0, &["GET", "foo"]), bulk("bar"));
}

#[test]
fn command_names_ignore_case() {
    let mut store = Store::new();
    open(&mut store, 0, &["set", "foo", "bar"]);
    assert_eq!(open(&mut store, 0, &["gEt", "foo"]), bulk("bar"));
}

#[test]
fn get_of_missing_key_is_null() {
    let mut store = Store::new();
    assert_eq!(open(&mut store, 0, &["GET", "nope"]), RespValue::Null);
}

#[test]
fn expiry_is_swept_after_deadline() {
    let mut store = Store::new();
    open(&mut store, 1_000, &["SET", "foo", "bar", "PX", "50"]);
    store.clean_expired(1_049);
    assert_eq!(open(&mut store, 1_049, &["GET", "foo"]), bulk("bar"));
    store.clean_expired(1_100);
    assert_eq!(open(&mut store, 1_100, &["GET", "foo"]), RespValue::Null);
}

#[test]
fn expired_key_stays_readable_until_a_sweep() {
    let mut store = Store::new();
    open(&mut store, 1_000, &["SET", "foo", "bar", "PX", "50"]);
    assert_eq!(open(&mut store, 5_000, &["GET", "foo"]), bulk("bar"));
    store.clean_expired(1_050);
    assert_eq!(open(&mut store, 5_000, &["GET", "foo"]), RespValue::Null);
}

#[test]
fn ex_gives_seconds() {
    let mut store = Store::new();
    open(&mut store, 1_000, &["SET", "k", "v", "ex", "2"]);
    store.clean_expired(2_999);
    assert_eq!(string_at(&store, "k"), Some("v".to_string()));
    store.clean_expired(3_000);
    assert_eq!(string_at(&store, "k"), None);
}

#[test]
fn set_without_modifier_clears_expiry() {
    let mut store = Store::new();
    open(&mut store, 0, &["SET", "k", "v", "PX", "10"]);
    open(&mut store, 0, &["SET", "k", "w"]);
    store.clean_expired(1_000);
    assert_eq!(string_at(&store, "k"), Some("w".to_string()));
}

#[test]
fn bad_expiry_amount_is_ignored() {
    let mut store = Store::new();
    assert_eq!(
        open(&mut store, 0, &["SET", "k", "v", "PX", "soon"]),
        RespValue::SimpleString("OK".to_string())
    );
    store.clean_expired(u64::MAX);
    assert_eq!(string_at(&store, "k"), Some("v".to_string()));
}

#[test]
fn set_arity_error() {
    let mut store = Store::new();
    assert_eq!(
        open(&mut store, 0, &["SET", "k"]),
        err("ERR wrong number of arguments for 'SET'")
    );
}

#[test]
fn hset_created_then_overwritten() {
    let mut store = Store::new();
    assert_eq!(open(&mut store, 0, &["HSET", "h", "f1", "v1"]), RespValue::Integer(1));
    assert_eq!(open(&mut store, 0, &["HSET", "h", "f1", "v2"]), RespValue::Integer(0));
    assert_eq!(open(&mut store, 0, &["HSET", "h", "f2", "v3"]), RespValue::Integer(1));
    assert_eq!(
        open(&mut store, 0, &["GET", "h"]),
        err("WRONGTYPE Operation against a key holding the wrong kind of value")
    );
    match store.get("h") {
        Some(Value::Hash(t)) => {
            assert_eq!(t.get("f1"), Some(&"v2".to_string()));
            assert_eq!(t.get("f2"), Some(&"v3".to_string()));
        }
        _ => panic!("expected a hash"),
    }
}

#[test]
fn hset_on_string_is_wrong_type() {
    let mut store = Store::new();
    open(&mut store, 0, &["SET", "s", "x"]);
    assert_eq!(
        open(&mut store, 0, &["HSET", "s", "f", "v"]),
        err("WRONGTYPE Operation against a key holding the wrong kind of value")
    );
    assert_eq!(string_at(&store, "s"), Some("x".to_string()));
}

#[test]
fn hset_arity_error() {
    let mut store = Store::new();
    assert_eq!(
        open(&mut store, 0, &["HSET", "h", "f"]),
        err("ERR wrong number of arguments for 'HSET'")
    );
}

#[test]
fn del_counts_present_keys() {
    let mut store = Store::new();
    open(&mut store, 0, &["SET", "a", "1"]);
    assert_eq!(open(&mut store, 0, &["DEL", "a", "b", "c"]), RespValue::Integer(1));
    assert_eq!(open(&mut store, 0, &["GET", "a"]), RespValue::Null);
}

#[test]
fn del_of_repeated_key_counts_against_state_before_apply() {
    let mut store = Store::new();
    open(&mut store, 0, &["SET", "a", "1"]);
    assert_eq!(open(&mut store, 0, &["DEL", "a", "a"]), RespValue::Integer(2));
    assert_eq!(open(&mut store, 0, &["GET", "a"]), RespValue::Null);
}

#[test]
fn del_arity_error() {
    let mut store = Store::new();
    assert_eq!(
        open(&mut store, 0, &["DEL"]),
        err("ERR wrong number of arguments for 'DEL'")
    );
}

#[test]
fn auth_flow_with_password() {
    let mut store = Store::new();
    let password = Some("rightpass".to_string());
    let mut authed = false;
    assert_eq!(
        run(&mut store, &mut authed, &password, 0, &["GET", "x"]),
        err("NOAUTH Authentication required.")
    );
    assert_eq!(
        run(&mut store, &mut authed, &password, 0, &["AUTH", "wrongpass"]),
        err("ERR invalid password")
    );
    assert!(!authed);
    assert_eq!(
        run(&mut store, &mut authed, &password, 0, &["AUTH", "rightpass"]),
        RespValue::SimpleString("OK".to_string())
    );
    assert!(authed);
    assert_eq!(run(&mut store, &mut authed, &password, 0, &["GET", "x"]), RespValue::Null);
}

#[test]
fn auth_without_password_is_not_needed() {
    let mut store = Store::new();
    assert_eq!(
        open(&mut store, 0, &["AUTH", "x"]),
        err("ERR AUTH is not needed")
    );
}

#[test]
fn keys_lists_all_and_rejects_patterns() {
    let mut store = Store::new();
    open(&mut store, 0, &["SET", "foo", "1"]);
    open(&mut store, 0, &["HSET", "bar", "f", "v"]);
    assert_eq!(
        open(&mut store, 0, &["KEYS", "foo*"]),
        err("ERR syntax error, only 'KEYS *' is supported")
    );
    match open(&mut store, 0, &["KEYS", "*"]) {
        RespValue::Array(items) => {
            let mut names: Vec<Vec<u8>> = items
                .into_iter()
                .map(|i| match i {
                    RespValue::BulkString(b) => b,
                    _ => panic!("expected bulk strings"),
                })
                .collect();
            names.sort();
            assert_eq!(names, vec![b"bar".to_vec(), b"foo".to_vec()]);
        }
        other => panic!("unexpected {:?}", other),
    }
}

#[test]
fn ping_replies() {
    let mut store = Store::new();
    assert_eq!(
        open(&mut store, 0, &["PING"]),
        RespValue::SimpleString("PONG".to_string())
    );
    assert_eq!(open(&mut store, 0, &["PING", "hi"]), bulk("hi"));
}

#[test]
fn unknown_command_is_named() {
    let mut store = Store::new();
    assert_eq!(
        open(&mut store, 0, &["flush"]),
        err("ERR unknown command 'FLUSH'")
    );
}

#[test]
fn request_must_be_a_non_empty_array() {
    let store = Store::new();
    let mut authed = true;
    let (reply, events) =
        process_command(RespValue::Integer(1), &store, &mut authed, &None);
    assert_eq!(reply, err("ERR command must be an array"));
    assert!(events.is_empty());
    let (reply, _) = process_command(RespValue::Array(vec![]), &store, &mut authed, &None);
    assert_eq!(reply, err("ERR empty command"));
    let (reply, _) = process_command(
        RespValue::Array(vec![RespValue::Integer(3)]),
        &store,
        &mut authed,
        &None,
    );
    assert_eq!(reply, err("ERR invalid command name"));
}

#[test]
fn commands_apply_in_publish_order() {
    let mut store = Store::new();
    let batch = vec![
        store.set("k".to_string(), Value::String("1".to_string()), None),
        store.set("k".to_string(), Value::String("2".to_string()), None),
        Command::Delete { key: "k".to_string() },
        store.set("k".to_string(), Value::String("3".to_string()), None),
    ];
    store.process_commands(batch, 0);
    assert_eq!(string_at(&store, "k"), Some("3".to_string()));
}

#[test]
fn validation_reads_state_before_apply() {
    let mut store = Store::new();
    let mut authed = true;
    let (r1, e1) = process_command(request(&["HSET", "h", "f", "a"]), &store, &mut authed, &None);
    let (r2, e2) = process_command(request(&["HSET", "h", "f", "b"]), &store, &mut authed, &None);
    assert_eq!(r1, RespValue::Integer(1));
    assert_eq!(r2, RespValue::Integer(1));
    store.process_commands(e1, 0);
    store.process_commands(e2, 0);
    match store.get("h") {
        Some(Value::Hash(t)) => assert_eq!(t.get("f"), Some(&"b".to_string())),
        _ => panic!("expected a hash"),
    }
}

#[test]
fn delete_and_hset_checks() {
    let mut store = Store::new();
    assert!(store.delete("x").is_none());
    store.apply(Command::SetKey { key: "x".to_string(), value: Value::String("1".to_string()), expiry: Some(5) }, 10);
    assert!(matches!(store.delete("x"), Some(Command::Delete { .. })));
    assert_eq!(
        store.hset("x".to_string(), "f".to_string(), "v".to_string()).err(),
        Some("WRONGTYPE Operation against a key holding the wrong kind of value")
    );
    match store.metadata.get("x") {
        Some(KeyMetadata { expiry }) => assert_eq!(*expiry, Some(15)),
        None => panic!("expected an expiry"),
    }
    store.apply(Command::Delete { key: "x".to_string() }, 20);
    assert!(store.get("x").is_none());
    assert!(store.metadata.get("x").is_none());
}

#[test]
fn deadline_is_held_at_largest_instant() {
    let mut store = Store::new();
    store.apply(Command::SetKey { key: "x".to_string(), value: Value::String("1".to_string()), expiry: Some(u64::MAX) }, 10);
    match store.metadata.get("x") {
        Some(KeyMetadata { expiry }) => assert_eq!(*expiry, Some(u64::MAX)),
        None => panic!("expected an expiry"),
    }
}

#[test]
fn table_insert_take_and_keys() {
    let mut t: Table<String> = Table::new();
    assert!(!t.insert("a".to_string(), "1".to_string()));
    assert!(t.insert("a".to_string(), "2".to_string()));
    assert!(!t.insert("b".to_string(), "3".to_string()));
    assert_eq!(t.get("a"), Some(&"2".to_string()));
    assert_eq!(t.keys().len(), 2);
    assert_eq!(t.take("a"), Some("2".to_string()));
    assert!(!t.contains_key("a"));
    assert!(!t.remove("a"));
    assert!(t.remove("b"));
    assert!(t.keys().is_empty());
}

#[test]
fn parses_unsigned_integers() {
    assert_eq!(parse_u64("50"), Some(50));
    assert_eq!(parse_u64("+7"), Some(7));
    assert_eq!(parse_u64("18446744073709551615"), Some(u64::MAX));
    assert_eq!(parse_u64("18446744073709551616"), None);
    assert_eq!(parse_u64(""), None);
    assert_eq!(parse_u64("+"), None);
    assert_eq!(parse_u64("-1"), None);
    assert_eq!(parse_u64("1x"), None);
}

#[test]
fn log_records_replay_requests() {
    let set = Command::SetKey { key: "k".to_string(), value: Value::String("v".to_string()), expiry: Some(1500) };
    assert_eq!(
        log_record(set),
        b"*5\r\n$3\r\nSET\r\n$1\r\nk\r\n$1\r\nv\r\n$2\r\nPX\r\n$4\r\n1500\r\n".to_vec()
    );
    let hset = Command::HSet { key: "h".to_string(), field: "f".to_string(), value: "v".to_string() };
    assert_eq!(
        log_record(hset),
        b"*4\r\n$4\r\nHSET\r\n$1\r\nh\r\n$1\r\nf\r\n$1\r\nv\r\n".to_vec()
    );
    let del = Command::Delete { key: "k".to_string() };
    assert_eq!(
        command_to_resp(del),
        RespValue::Array(vec![bulk("DEL"), bulk("k")])
    );
}

#[test]
fn names_are_upper_cased_as_unicode_text() {
    let mut store = Store::new();
    assert_eq!(
        open(&mut store, 0, &["\u{17f}et", "k", "v"]),
        RespValue::SimpleString("OK".to_string())
    );
    assert_eq!(open(&mut store, 0, &["get", "k"]), bulk("v"));
}

#[test]
fn expiry_modifiers() {
    assert_eq!(expiry_for("PX", "50"), Some(50));
    assert_eq!(expiry_for("EX", "2"), Some(2000));
    assert_eq!(expiry_for("EX", "18446744073709551615"), Some(u64::MAX));
    assert_eq!(expiry_for("PX", "x"), None);
    assert_eq!(expiry_for("XX", "5"), None);
    assert_eq!(expiry_for("px", "5"), None);
}

#[test]
fn dispatch_takes_upper_case_names() {
    let store = Store::new();
    let mut authed = true;
    let args = vec![bulk("ignored"), bulk("hello")];
    let (reply, events) = dispatch(&"PING".to_string(), &args, &store, &mut authed, &None);
    assert_eq!(reply, bulk("hello"));
    assert!(events.is_empty());
    let (reply, _) = dispatch(&"ping".to_string(), &args, &store, &mut authed, &None);
    assert_eq!(reply, err("ERR unknown command 'ping'"));
}

#[test]
fn handle_hset_writes_at_once() {
    let mut store = Store::new();
    assert_eq!(handle_hset(&mut store, "h".to_string(), "f".to_string(), "1".to_string()), Ok(1));
    assert_eq!(handle_hset(&mut store, "h".to_string(), "f".to_string(), "2".to_string()), Ok(0));
    match store.get("h") {
        Some(Value::Hash(t)) => assert_eq!(t.get("f"), Some(&"2".to_string())),
        _ => panic!("expected a hash"),
    }
    open(&mut store, 0, &["SET", "s", "x"]);
    assert_eq!(
        handle_hset(&mut store, "s".to_string(), "f".to_string(), "1".to_string()),
        Err("ERR Operation against wrong type".to_string())
    );
}

#[test]
fn snapshot_is_an_independent_copy() {
    let mut store = Store::new();
    open(&mut store, 100, &["SET", "a", "1", "PX", "10"]);
    open(&mut store, 100, &["HSET", "h", "f", "v"]);
    let copy = store.snapshot();
    open(&mut store, 100, &["SET", "a", "2"]);
    open(&mut store, 100, &["DEL", "h"]);
    assert_eq!(string_at(&copy, "a"), Some("1".to_string()));
    match copy.get("h") {
        Some(Value::Hash(t)) => assert_eq!(t.get("f"), Some(&"v".to_string())),
        _ => panic!("expected a hash"),
    }
    match copy.metadata.get("a") {
        Some(KeyMetadata { expiry }) => assert_eq!(*expiry, Some(110)),
        None => panic!("expected an expiry"),
    }
    assert_eq!(copy.keys().len(), 2);
}

fn raw(store: &Store, items: Vec<RespValue>) -> RespValue {
    let mut authed = true;
    process_command(RespValue::Array(items), store, &mut authed, &None).0
}

#[test]
fn non_text_arguments_are_rejected() {
    let store = Store::new();
    let n = || RespValue::Integer(5);
    assert_eq!(raw(&store, vec![bulk("GET"), n()]), err("ERR invalid key"));
    assert_eq!(raw(&store, vec![bulk("SET"), n(), bulk("v")]), err("ERR invalid key"));
    assert_eq!(raw(&store, vec![bulk("SET"), bulk("k"), n()]), err("ERR invalid value"));
    assert_eq!(raw(&store, vec![bulk("HSET"), n(), bulk("f"), bulk("v")]), err("ERR invalid key"));
    assert_eq!(raw(&store, vec![bulk("HSET"), bulk("h"), n(), bulk("v")]), err("ERR invalid field"));
    assert_eq!(raw(&store, vec![bulk("HSET"), bulk("h"), bulk("f"), n()]), err("ERR invalid value"));
    assert_eq!(
        raw(&store, vec![bulk("PING"), n()]),
        RespValue::SimpleString("PONG".to_string())
    );
    assert_eq!(
        raw(&store, vec![bulk("GET"), RespValue::BulkString(vec![0xff])]),
        err("ERR invalid key")
    );
}

#[test]
fn get_arity_error() {
    let mut store = Store::new();
    assert_eq!(
        open(&mut store, 0, &["GET"]),
        err("ERR wrong number of arguments for 'GET'")
    );
    assert_eq!(
        open(&mut store, 0, &["GET", "a", "b"]),
        err("ERR wrong number of arguments for 'GET'")
    );
}

#[test]
fn simple_string_arguments_are_text() {
    let mut store = Store::new();
    let mut authed = true;
    let req = RespValue::Array(vec![
        RespValue::SimpleString("SET".to_string()),
        RespValue::SimpleString("k".to_string()),
        RespValue::SimpleString("v".to_string()),
    ]);
    let (reply, events) = process_command(req, &store, &mut authed, &None);
    assert_eq!(reply, RespValue::SimpleString("OK".to_string()));
    store.process_commands(events, 0);
    assert_eq!(string_at(&store, "k"), Some("v".to_string()));
}
