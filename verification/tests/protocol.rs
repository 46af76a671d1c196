//! The frame codec and the command interpreter, exercised over the
//! wire text.

use redis_rust::command::Command;
use redis_rust::frame::{Errors, Frame};

fn bulk(s: &str) -> Frame {
    Frame::Bulk(s.to_string())
}

#[test]
fn test_parse_array_bulk() {
    let input = "*2\r\n$4\r\necho\r\n$5\r\nhello\r\n";
    let (decoded, consumed) = Frame::decode_prefix(input);
    assert_eq!(input.len() - consumed, 0);
    assert_eq!(
        decoded.unwrap(),
        Some(Frame::Array(vec![
            Frame::Bulk("echo".to_string()),
            Frame::Bulk("hello".to_string())
        ]))
    )
}

#[test]
fn test_encode_simple() {
    assert_eq!(Frame::Simple("OK".to_string()).encode(), "+OK\r\n");
}

#[test]
fn test_encode_error() {
    assert_eq!(Frame::Error("oops".to_string()).encode(), "-oops\r\n");
}

#[test]
fn test_encode_bulk_counts_chars() {
    assert_eq!(bulk("hello").encode(), "$5\r\nhello\r\n");
    assert_eq!(bulk("").encode(), "$0\r\n\r\n");
    assert_eq!(bulk("my_value12").encode(), "$10\r\nmy_value12\r\n");
}

#[test]
fn test_encode_null() {
    assert_eq!(Frame::Null.encode(), "$-1\r\n");
}

#[test]
fn test_round_trip_simple() {
    let f = Frame::Simple("PONG".to_string());
    assert_eq!(Frame::decode(&f.encode()).unwrap(), Some(f));
}

#[test]
fn test_round_trip_error() {
    let f = Frame::Error("error parsing input".to_string());
    assert_eq!(Frame::decode(&f.encode()).unwrap(), Some(f));
}

#[test]
fn test_round_trip_bulk() {
    let f = bulk("hello world");
    assert_eq!(Frame::decode(&f.encode()).unwrap(), Some(f));
    let f = bulk("");
    assert_eq!(Frame::decode(&f.encode()).unwrap(), Some(f));
}

#[test]
fn test_round_trip_null() {
    assert_eq!(Frame::decode(&Frame::Null.encode()).unwrap(), Some(Frame::Null));
}

#[test]
fn test_decode_incomplete_returns_none() {
    assert_eq!(Frame::decode("").unwrap(), None);
    assert_eq!(Frame::decode("+PON").unwrap(), None);
    assert_eq!(Frame::decode("$5\r\nhel").unwrap(), None);
    assert_eq!(Frame::decode("*2\r\n$4\r\necho\r\n").unwrap(), None);
}

#[test]
fn test_decode_unknown_type_byte_is_error() {
    match Frame::decode("?3\r\n") {
        Err(Errors::ParseError(m)) => assert_eq!(m, "malformed frame"),
        other => panic!("expected a parse error, got {:?}", other),
    }
}

#[test]
fn test_decode_bad_length_is_error() {
    assert!(matches!(Frame::decode("$abc\r\nhello\r\n"), Err(Errors::ParseError(_))));
    assert!(matches!(Frame::decode("*-2\r\n"), Err(Errors::ParseError(_))));
}

#[test]
fn test_decode_nested_array() {
    let input = "*2\r\n*1\r\n+a\r\n$1\r\nb\r\n";
    let decoded = Frame::decode(input).unwrap().unwrap();
    assert_eq!(
        decoded,
        Frame::Array(vec![
            Frame::Array(vec![Frame::Simple("a".to_string())]),
            bulk("b"),
        ])
    );
}

#[test]
fn test_to_command_ping_ignores_rest() {
    let f = Frame::Array(vec![bulk("ping"), bulk("x")]);
    assert!(matches!(f.to_command(0), Ok(Command::Ping)));
}

#[test]
fn test_to_command_echo() {
    let f = Frame::Array(vec![bulk("EcHo"), bulk("hello world")]);
    match f.to_command(0) {
        Ok(Command::Echo(t)) => assert_eq!(t, "hello world"),
        other => panic!("expected an echo command, got {:?}", other),
    }
}

#[test]
fn test_to_command_get() {
    let f = Frame::Array(vec![bulk("get"), bulk("my_key")]);
    match f.to_command(0) {
        Ok(Command::Get(k)) => assert_eq!(k, "my_key"),
        other => panic!("expected a get command, got {:?}", other),
    }
}

#[test]
fn test_to_command_set_plain() {
    let f = Frame::Array(vec![bulk("SET"), bulk("my_key"), bulk("42")]);
    match f.to_command(7) {
        Ok(Command::SetVal(k, v, None)) => {
            assert_eq!(k, "my_key");
            assert_eq!(v, "42");
        }
        other => panic!("expected a set command, got {:?}", other),
    }
}

#[test]
fn test_to_command_set_px() {
    let f = Frame::Array(vec![bulk("set"), bulk("k"), bulk("v"), bulk("px"), bulk("10")]);
    match f.to_command(5) {
        Ok(Command::SetVal(_, _, Some(e))) => {
            assert_eq!(e.created_at, 5);
            assert_eq!(e.duration, 10);
        }
        other => panic!("expected a set command with expiry, got {:?}", other),
    }
}

#[test]
fn test_to_command_set_ex_counts_millis() {
    let f = Frame::Array(vec![bulk("SET"), bulk("k"), bulk("v"), bulk("EX"), bulk("2")]);
    match f.to_command(0) {
        Ok(Command::SetVal(_, _, Some(e))) => assert_eq!(e.duration, 2000),
        other => panic!("expected a set command with expiry, got {:?}", other),
    }
}

#[test]
fn test_to_command_set_unknown_option_attaches_no_expiry() {
    let f = Frame::Array(vec![bulk("SET"), bulk("k"), bulk("v"), bulk("XX"), bulk("10")]);
    assert!(matches!(f.to_command(0), Ok(Command::SetVal(_, _, None))));
}

#[test]
fn test_to_command_set_bad_amount_is_error() {
    let f = Frame::Array(vec![bulk("SET"), bulk("k"), bulk("v"), bulk("PX"), bulk("ten")]);
    match f.to_command(0) {
        Err(Errors::ParseError(m)) => assert_eq!(m, "ten"),
        other => panic!("expected a parse error, got {:?}", other),
    }
}

#[test]
fn test_to_command_missing_arguments() {
    assert!(matches!(
        Frame::Array(vec![bulk("GET")]).to_command(0),
        Err(Errors::Incomplete)
    ));
    assert!(matches!(
        Frame::Array(vec![bulk("ECHO")]).to_command(0),
        Err(Errors::Incomplete)
    ));
    assert!(matches!(
        Frame::Array(vec![bulk("SET"), bulk("k")]).to_command(0),
        Err(Errors::Incomplete)
    ));
}

#[test]
fn test_to_command_unrecognised() {
    assert!(matches!(
        Frame::Simple("PING".to_string()).to_command(0),
        Err(Errors::Unrecognised)
    ));
    assert!(matches!(Frame::Array(vec![]).to_command(0), Err(Errors::Unrecognised)));
    assert!(matches!(
        Frame::Array(vec![Frame::Null, bulk("x")]).to_command(0),
        Err(Errors::Unrecognised)
    ));
    assert!(matches!(
        Frame::Array(vec![bulk("FLUSH")]).to_command(0),
        Err(Errors::Unrecognised)
    ));
}

#[test]
fn test_unwrap_bulk() {
    assert_eq!(bulk("abc").unwrap_bulk(), "abc");
}

#[test]
fn test_error_messages() {
    assert_eq!(Errors::ParseError("x".to_string()).message(), "error parsing input");
    assert_eq!(Errors::Unrecognised.message(), "frame is not recognized");
    assert_eq!(Errors::Incomplete.message(), "input is incomplete");
}
