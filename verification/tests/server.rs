//! The store, the dispatch table, and whole-request steps, driven with
//! explicit timestamps so expiry is deterministic.

use redis_rust::command::Command;
use redis_rust::frame::Frame;
use redis_rust::server::{execute, handle_frame, process};
use redis_rust::store::{Expiry, Store, Value};

fn bulk(s: &str) -> Frame {
    Frame::Bulk(s.to_string())
}

fn req(parts: &[&str]) -> Frame {
    Frame::Array(parts.iter().map(|p| bulk(p)).collect())
}

#[test]
fn test_ping() {
    let mut store = Store::new();
    let reply = handle_frame(&mut store, &req(&["PING"]), 0);
    assert_eq!(reply, Frame::Simple("PONG".to_string()));
}

#[test]
fn test_echo() {
    let mut store = Store::new();
    let reply = handle_frame(&mut store, &req(&["ECHO", "hello world"]), 0);
    assert_eq!(reply, bulk("hello world"));
}

#[test]
fn test_set_get() {
    let mut store = Store::new();
    let reply = handle_frame(&mut store, &req(&["SET", "my_key", "42"]), 0);
    assert_eq!(reply, Frame::Simple("OK".to_string()));
    let reply = handle_frame(&mut store, &req(&["GET", "my_key"]), 0);
    assert_eq!(reply, bulk("42"));
}

#[test]
fn test_get_never_set_is_null() {
    let mut store = Store::new();
    let reply = handle_frame(&mut store, &req(&["GET", "my_key"]), 0);
    assert_eq!(reply, Frame::Null);
}

#[test]
fn test_set_overwrites() {
    let mut store = Store::new();
    handle_frame(&mut store, &req(&["SET", "k", "1"]), 0);
    handle_frame(&mut store, &req(&["SET", "k", "2"]), 0);
    assert_eq!(handle_frame(&mut store, &req(&["GET", "k"]), 0), bulk("2"));
}

#[test]
fn test_expiry_millis() {
    let mut store = Store::new();
    handle_frame(&mut store, &req(&["SET", "my_key", "my_value", "PX", "10"]), 0);

    // Should find the value before expiry
    assert_eq!(handle_frame(&mut store, &req(&["GET", "my_key"]), 10), bulk("my_value"));

    // Should NOT find the value after expiry
    assert_eq!(handle_frame(&mut store, &req(&["GET", "my_key"]), 11), Frame::Null);
}

#[test]
fn test_expiry_secs() {
    let mut store = Store::new();
    handle_frame(&mut store, &req(&["SET", "my_key", "my_value", "EX", "1"]), 0);

    // Should find the value before expiry
    assert_eq!(handle_frame(&mut store, &req(&["GET", "my_key"]), 1000), bulk("my_value"));

    assert_eq!(handle_frame(&mut store, &req(&["GET", "my_key"]), 1001), Frame::Null);
}

#[test]
fn test_execute_dispatch() {
    let mut store = Store::new();
    assert_eq!(execute(&mut store, Command::Ping, 0), Frame::Simple("PONG".to_string()));
    assert_eq!(
        execute(&mut store, Command::Echo("x y".to_string()), 0),
        bulk("x y")
    );
    assert_eq!(
        execute(
            &mut store,
            Command::SetVal("k".to_string(), "v".to_string(), None),
            0
        ),
        Frame::Simple("OK".to_string())
    );
    assert_eq!(execute(&mut store, Command::Get("k".to_string()), 99), bulk("v"));
}

#[test]
fn test_store_get_reports_entry_even_if_expired() {
    let mut store = Store::new();
    store.set(
        "k".to_string(),
        Value { expiry: Some(Expiry::new(0, 5)), value: "v".to_string() },
    );
    let found = store.get("k").expect("the entry is still stored");
    assert_eq!(found.value, "v");
    assert!(found.is_expired(6));
    assert!(!found.is_expired(5));
}

#[test]
fn test_clean_up_sweeps_only_elapsed_deadlines() {
    let mut store = Store::new();
    store.set(
        "gone".to_string(),
        Value { expiry: Some(Expiry::new(0, 10)), value: "a".to_string() },
    );
    store.set(
        "kept".to_string(),
        Value { expiry: Some(Expiry::new(0, 1000)), value: "b".to_string() },
    );
    store.set("stays".to_string(), Value { expiry: None, value: "c".to_string() });
    store.clean_up(11);
    assert!(store.get("gone").is_none());
    assert_eq!(store.get("kept").expect("deadline not yet elapsed").value, "b");
    assert_eq!(store.get("stays").expect("no deadline at all").value, "c");
}

#[test]
fn test_disjoint_keys_from_two_connections() {
    // Two interleaved clients on disjoint keys: both succeed and
    // neither update is lost, as the store serializes them.
    let mut store = Store::new();
    assert_eq!(
        handle_frame(&mut store, &req(&["SET", "a", "1"]), 0),
        Frame::Simple("OK".to_string())
    );
    assert_eq!(
        handle_frame(&mut store, &req(&["SET", "b", "2"]), 0),
        Frame::Simple("OK".to_string())
    );
    assert_eq!(handle_frame(&mut store, &req(&["GET", "a"]), 1), bulk("1"));
    assert_eq!(handle_frame(&mut store, &req(&["GET", "b"]), 1), bulk("2"));
}

#[test]
fn test_process_ping() {
    let mut store = Store::new();
    let input = "*1\r\n$4\r\nping\r\n";
    let (reply, consumed) = process(&mut store, input, 0);
    assert_eq!(reply.as_deref(), Some("+PONG\r\n"));
    assert_eq!(consumed, input.len());
}

#[test]
fn test_process_incomplete_waits() {
    let mut store = Store::new();
    let (reply, consumed) = process(&mut store, "*1\r\n$4\r\npi", 0);
    assert_eq!(reply, None);
    assert_eq!(consumed, 0);
}

#[test]
fn test_process_decode_error_replies_and_drains() {
    let mut store = Store::new();
    let input = "!bad\r\n";
    let (reply, consumed) = process(&mut store, input, 0);
    assert_eq!(reply.as_deref(), Some("-error parsing input\r\n"));
    assert_eq!(consumed, input.len());
}

#[test]
fn test_process_unrecognised_command_replies_error() {
    let mut store = Store::new();
    let input = "*1\r\n$5\r\nflush\r\n";
    let (reply, consumed) = process(&mut store, input, 0);
    assert_eq!(reply.as_deref(), Some("-frame is not recognized\r\n"));
    assert_eq!(consumed, input.len());
}

#[test]
fn test_process_missing_argument_replies_error() {
    let mut store = Store::new();
    let input = "*1\r\n$3\r\nget\r\n";
    let (reply, _) = process(&mut store, input, 0);
    assert_eq!(reply.as_deref(), Some("-input is incomplete\r\n"));
}

#[test]
fn test_process_set_then_get_over_the_wire() {
    let mut store = Store::new();
    let set = "*3\r\n$3\r\nset\r\n$6\r\nmy_key\r\n$2\r\n42\r\n";
    let (reply, consumed) = process(&mut store, set, 0);
    assert_eq!(reply.as_deref(), Some("+OK\r\n"));
    assert_eq!(consumed, set.len());
    let get = "*2\r\n$3\r\nget\r\n$6\r\nmy_key\r\n";
    let (reply, _) = process(&mut store, get, 0);
    assert_eq!(reply.as_deref(), Some("$2\r\n42\r\n"));
}

#[test]
fn test_process_leaves_trailing_input() {
    let mut store = Store::new();
    let input = "*1\r\n$4\r\nping\r\n*1\r\n$4\r\nping\r\n";
    let (reply, consumed) = process(&mut store, input, 0);
    assert_eq!(reply.as_deref(), Some("+PONG\r\n"));
    assert_eq!(consumed, input.len() / 2);
}
