use resp_store::command::{execute, handle_request, is_command, reply_to};
use resp_store::store::Store;
use resp_store::value::Value;

fn bulk(s: &str) -> Value {
    Value::BulkString(s.to_string())
}

fn status(s: &str) -> Value {
    Value::SimpleString(s.to_string())
}

fn run(store: &mut Store, name: &str, args: &[&str]) -> Value {
    let args: Vec<Value> = args.iter().map(|a| bulk(a)).collect();
    execute(name, &args, store)
}

#[test]
fn ping_pongs() {
    let mut store = Store::new();
    assert_eq!(run(&mut store, "PING", &[]), status("PONG"));
}

#[test]
fn command_names_ignore_case() {
    let mut store = Store::new();
    assert_eq!(run(&mut store, "ping", &[]), status("PONG"));
    assert_eq!(run(&mut store, "PiNg", &[]), status("PONG"));
    assert!(is_command("echo", "ECHO"));
    assert!(!is_command("echoo", "ECHO"));
    assert!(!is_command("ECH0", "ECHO"));
}

#[test]
fn echo_returns_argument() {
    let mut store = Store::new();
    assert_eq!(run(&mut store, "ECHO", &["hi"]), bulk("hi"));
}

#[test]
fn set_then_get() {
    let mut store = Store::new();
    assert_eq!(run(&mut store, "SET", &["k", "v"]), status("OK"));
    assert_eq!(run(&mut store, "GET", &["k"]), status("v"));
}

#[test]
fn set_overwrites() {
    let mut store = Store::new();
    run(&mut store, "SET", &["k", "v1"]);
    run(&mut store, "SET", &["k", "v2"]);
    assert_eq!(run(&mut store, "GET", &["k"]), status("v2"));
}

#[test]
fn get_missing_is_null() {
    let mut store = Store::new();
    assert_eq!(run(&mut store, "GET", &["missing"]), Value::Null);
}

#[test]
fn exists_reports_presence() {
    let mut store = Store::new();
    run(&mut store, "SET", &["k", "v"]);
    assert_eq!(run(&mut store, "EXISTS", &["k"]), status("1"));
    assert_eq!(run(&mut store, "EXISTS", &["missing"]), status("0"));
}

#[test]
fn delete_twice() {
    let mut store = Store::new();
    run(&mut store, "SET", &["k", "v"]);
    assert_eq!(run(&mut store, "DEL", &["k"]), status("DELETED"));
    assert_eq!(run(&mut store, "DEL", &["k"]), Value::Null);
    assert_eq!(run(&mut store, "GET", &["k"]), Value::Null);
}

#[test]
fn unknown_command_is_named() {
    let mut store = Store::new();
    match run(&mut store, "FOO", &[]) {
        Value::Error(msg) => assert!(msg.contains("FOO")),
        other => panic!("unexpected reply {:?}", other),
    }
}

#[test]
fn wrong_arity_is_an_error() {
    let mut store = Store::new();
    assert_eq!(run(&mut store, "GET", &[]), Value::Error("GET takes one bulk string argument".to_string()));
    assert_eq!(run(&mut store, "SET", &["k"]), Value::Error("SET takes two bulk string arguments".to_string()));
    assert_eq!(run(&mut store, "PING", &["x"]), Value::Error("PING takes no arguments".to_string()));
    assert_eq!(run(&mut store, "DEL", &["a", "b"]), Value::Error("DEL takes one bulk string argument".to_string()));
    assert_eq!(run(&mut store, "EXISTS", &[]), Value::Error("EXISTS takes one bulk string argument".to_string()));
    assert_eq!(run(&mut store, "ECHO", &[]), Value::Error("ECHO takes one bulk string argument".to_string()));
}

#[test]
fn non_bulk_argument_is_an_error() {
    let mut store = Store::new();
    let args = vec![status("k")];
    assert_eq!(execute("GET", &args, &mut store), Value::Error("GET takes one bulk string argument".to_string()));
}

#[test]
fn malformed_requests_get_error_replies() {
    let mut store = Store::new();
    assert_eq!(handle_request(&bulk("PING"), &mut store), Value::Error("request is not an array".to_string()));
    assert_eq!(handle_request(&Value::Array(vec![]), &mut store), Value::Error("request is empty".to_string()));
    assert_eq!(
        handle_request(&Value::Array(vec![Value::Null]), &mut store),
        Value::Error("command name is not a bulk string".to_string())
    );
}

#[test]
fn request_round_trip_to_bytes() {
    let mut store = Store::new();
    let set = Value::Array(vec![bulk("set"), bulk("name"), bulk("ada")]);
    assert_eq!(reply_to(&set, &mut store), b"+OK\r\n".to_vec());
    let get = Value::Array(vec![bulk("GET"), bulk("name")]);
    assert_eq!(reply_to(&get, &mut store), b"+ada\r\n".to_vec());
    let echo = Value::Array(vec![bulk("ECHO"), bulk("hey")]);
    assert_eq!(reply_to(&echo, &mut store), b"$3\r\nhey\r\n".to_vec());
    let missing = Value::Array(vec![bulk("GET"), bulk("nope")]);
    assert_eq!(reply_to(&missing, &mut store), b"$-1\r\n".to_vec());
}

#[test]
fn store_operations() {
    let mut store = Store::new();
    assert_eq!(store.get("a".to_string()), None);
    store.set("a".to_string(), "1".to_string());
    store.set("b".to_string(), "2".to_string());
    assert_eq!(store.get("a".to_string()), Some("1".to_string()));
    store.del("a".to_string());
    assert_eq!(store.get("a".to_string()), None);
    assert_eq!(store.get("b".to_string()), Some("2".to_string()));
    store.del("zzz".to_string());
    assert_eq!(store.get("b".to_string()), Some("2".to_string()));
}

#[test]
fn disjoint_keys_keep_their_writes() {
    let mut store = Store::new();
    for i in 0..20 {
        let key = format!("key{}", i);
        let val = format!("val{}", i);
        run(&mut store, "SET", &[&key, &val]);
    }
    for i in 0..20 {
        let key = format!("key{}", i);
        assert_eq!(run(&mut store, "GET", &[&key]), status(&format!("val{}", i)));
    }
}
