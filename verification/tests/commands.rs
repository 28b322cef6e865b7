use kv_server::command::{
    error_reply, extract_command, handle_command, respond, unpack_bulk_str, verb, Verb,
};
use kv_server::connection::{Connection, Step};
use kv_server::error::ErrorKind;
use kv_server::resp::{encode, Value};
use kv_server::storage::Storage;

fn bulk(text: &str) -> Value {
    Value::BulkString(text.as_bytes().to_vec())
}

fn simple(text: &str) -> Value {
    Value::SimpleString(text.to_string())
}

fn request(words: &[&str]) -> Value {
    Value::Array(words.iter().map(|word| bulk(word)).collect())
}

fn run(storage: &mut Storage, words: &[&str], now: u128) -> Result<Value, ErrorKind> {
    let args: Vec<Value> = words[1..].iter().map(|word| bulk(word)).collect();
    handle_command(words[0].as_bytes(), &args, storage, now)
}

#[test]
fn ping_in_any_case_gives_pong() {
    let mut storage = Storage::new();
    for name in ["PING", "ping", "PiNg", "pINg"] {
        assert_eq!(run(&mut storage, &[name], 0), Ok(simple("PONG")));
    }
}

#[test]
fn names_resolve_without_regard_to_case() {
    assert_eq!(verb(b"SET"), Some(Verb::SetKey));
    assert_eq!(verb(b"set"), Some(Verb::SetKey));
    assert_eq!(verb(b"SeT"), Some(Verb::SetKey));
    assert_eq!(verb(b"gEt"), Some(Verb::GetKey));
    assert_eq!(verb(b"Echo"), Some(Verb::Echo));
    assert_eq!(verb(b"PING"), Some(Verb::Ping));
    assert_eq!(verb(b""), None);
    assert_eq!(verb(b"pin"), None);
    assert_eq!(verb(b"pings"), None);
    assert_eq!(verb(b"p\x49ng"), Some(Verb::Ping));
    assert_eq!(verb(b"p\x09ng"), None);
    assert_eq!(verb(b"FOO"), None);
}

#[test]
fn echo_returns_its_argument() {
    let mut storage = Storage::new();
    assert_eq!(run(&mut storage, &["ECHO", "hello"], 0), Ok(bulk("hello")));
    assert_eq!(run(&mut storage, &["echo", "a", "b"], 0), Ok(bulk("a")));
}

#[test]
fn echo_without_argument_gives_null() {
    let mut storage = Storage::new();
    assert_eq!(run(&mut storage, &["ECHO"], 0), Ok(Value::Null));
}

#[test]
fn echo_of_what_is_no_string_gives_empty_string() {
    let mut storage = Storage::new();
    assert_eq!(handle_command(b"ECHO", &vec![simple("x")], &mut storage, 0), Ok(bulk("")));
    assert_eq!(handle_command(b"ECHO", &vec![Value::Null], &mut storage, 0), Ok(bulk("")));
}

#[test]
fn get_of_missing_key_gives_null() {
    let mut storage = Storage::new();
    assert_eq!(run(&mut storage, &["GET", "missing"], 0), Ok(Value::Null));
}

#[test]
fn set_then_get() {
    let mut storage = Storage::new();
    assert_eq!(run(&mut storage, &["SET", "foo", "bar"], 10), Ok(simple("OK")));
    assert_eq!(run(&mut storage, &["GET", "foo"], 10), Ok(bulk("bar")));
    assert_eq!(run(&mut storage, &["get", "foo"], 1_000_000_000), Ok(bulk("bar")));
}

#[test]
fn set_with_px_expires_after_the_given_milliseconds() {
    let mut storage = Storage::new();
    assert_eq!(run(&mut storage, &["SET", "foo", "bar", "PX", "50"], 1000), Ok(simple("OK")));
    assert_eq!(run(&mut storage, &["GET", "foo"], 1000), Ok(bulk("bar")));
    assert_eq!(run(&mut storage, &["GET", "foo"], 1050), Ok(bulk("bar")));
    assert_eq!(run(&mut storage, &["GET", "foo"], 1060), Ok(Value::Null));
}

#[test]
fn px_is_read_in_any_case() {
    let mut storage = Storage::new();
    assert_eq!(run(&mut storage, &["set", "a", "1", "px", "5"], 0), Ok(simple("OK")));
    assert_eq!(run(&mut storage, &["set", "b", "2", "pX", "+5"], 0), Ok(simple("OK")));
    assert_eq!(run(&mut storage, &["GET", "a"], 5), Ok(bulk("1")));
    assert_eq!(run(&mut storage, &["GET", "b"], 5), Ok(bulk("2")));
    assert_eq!(storage.peek_at("a", 6), None);
    assert_eq!(storage.peek_at("b", 6), None);
}

#[test]
fn ttl_that_is_no_number_means_no_expiry() {
    let mut storage = Storage::new();
    for (key, ttl) in [
        ("a", "soon"),
        ("b", "-5"),
        ("c", ""),
        ("d", "+"),
        ("e", "1.5"),
        ("f", "99999999999999999999999999999999"),
        ("g", " 5"),
    ] {
        assert_eq!(run(&mut storage, &["SET", key, "v", "PX", ttl], 0), Ok(simple("OK")));
        assert_eq!(storage.peek_at(key, u128::MAX).map(|item| item.expires), Some(0));
    }
}

#[test]
fn other_options_than_px_mean_no_expiry() {
    let mut storage = Storage::new();
    assert_eq!(run(&mut storage, &["SET", "a", "v", "EX", "5"], 0), Ok(simple("OK")));
    assert_eq!(run(&mut storage, &["SET", "b", "v", "PX"], 0), Ok(simple("OK")));
    assert_eq!(storage.peek_at("a", 1_000_000).map(|item| item.expires), Some(0));
    assert_eq!(storage.peek_at("b", 1_000_000).map(|item| item.expires), Some(0));
}

#[test]
fn set_without_key_or_value_is_a_missing_argument() {
    let mut storage = Storage::new();
    assert_eq!(run(&mut storage, &["SET"], 0), Err(ErrorKind::MissingArgument));
    assert_eq!(run(&mut storage, &["SET", "foo"], 0), Err(ErrorKind::MissingArgument));
    assert_eq!(storage.peek_at("foo", 0), None);
}

#[test]
fn get_without_key_is_a_missing_argument() {
    let mut storage = Storage::new();
    assert_eq!(run(&mut storage, &["GET"], 0), Err(ErrorKind::MissingArgument));
}

#[test]
fn unknown_name_is_an_unknown_command() {
    let mut storage = Storage::new();
    assert_eq!(run(&mut storage, &["FOO"], 0), Err(ErrorKind::UnknownCommand));
    assert_eq!(run(&mut storage, &["", "x"], 0), Err(ErrorKind::UnknownCommand));
}

#[test]
fn argument_that_is_no_string_is_an_invalid_format() {
    let mut storage = Storage::new();
    assert_eq!(
        handle_command(b"GET", &vec![simple("foo")], &mut storage, 0),
        Err(ErrorKind::InvalidCommandFormat)
    );
    assert_eq!(
        handle_command(b"SET", &vec![bulk("foo"), Value::Array(vec![])], &mut storage, 0),
        Err(ErrorKind::InvalidCommandFormat)
    );
    assert_eq!(
        handle_command(b"SET", &vec![Value::BulkString(vec![0xff]), bulk("v")], &mut storage, 0),
        Err(ErrorKind::InvalidCommandFormat)
    );
    assert_eq!(storage.peek_at("foo", 0), None);
}

#[test]
fn null_key_is_the_empty_key() {
    let mut storage = Storage::new();
    assert_eq!(handle_command(b"SET", &vec![Value::Null, bulk("v")], &mut storage, 0), Ok(simple("OK")));
    assert_eq!(handle_command(b"GET", &vec![bulk("")], &mut storage, 0), Ok(bulk("v")));
}

#[test]
fn values_are_bytes() {
    let mut storage = Storage::new();
    let raw = Value::BulkString(vec![0, 159, 146, 150, 255]);
    assert_eq!(
        handle_command(b"SET", &vec![bulk("k"), Value::BulkString(vec![0, 159, 146, 150, 255])], &mut storage, 0),
        Ok(simple("OK"))
    );
    assert_eq!(handle_command(b"GET", &vec![bulk("k")], &mut storage, 0), Ok(raw));
}

#[test]
fn unpack_takes_bulk_strings_and_null() {
    assert_eq!(unpack_bulk_str(bulk("abc")), Ok(b"abc".to_vec()));
    assert_eq!(unpack_bulk_str(Value::Null), Ok(vec![]));
    assert_eq!(unpack_bulk_str(simple("abc")), Err(ErrorKind::InvalidCommandFormat));
    assert_eq!(unpack_bulk_str(Value::Array(vec![])), Err(ErrorKind::InvalidCommandFormat));
    assert_eq!(
        unpack_bulk_str(Value::Error("abc".to_string())),
        Err(ErrorKind::InvalidCommandFormat)
    );
}

#[test]
fn extract_splits_name_and_arguments() {
    assert_eq!(
        extract_command(request(&["SET", "foo", "bar"])),
        Ok((b"SET".to_vec(), vec![bulk("foo"), bulk("bar")]))
    );
    assert_eq!(extract_command(request(&["PING"])), Ok((b"PING".to_vec(), vec![])));
    assert_eq!(extract_command(Value::Array(vec![])), Ok((vec![], vec![])));
    assert_eq!(
        extract_command(Value::Array(vec![Value::Null, simple("x")])),
        Ok((vec![], vec![simple("x")]))
    );
}

#[test]
fn extract_refuses_what_is_no_command() {
    assert_eq!(extract_command(simple("PING")), Err(ErrorKind::InvalidCommandFormat));
    assert_eq!(extract_command(bulk("PING")), Err(ErrorKind::InvalidCommandFormat));
    assert_eq!(extract_command(Value::Null), Err(ErrorKind::InvalidCommandFormat));
    assert_eq!(
        extract_command(Value::Array(vec![simple("PING")])),
        Err(ErrorKind::InvalidCommandFormat)
    );
    assert_eq!(
        extract_command(Value::Array(vec![Value::Array(vec![]), bulk("x")])),
        Err(ErrorKind::InvalidCommandFormat)
    );
}

#[test]
fn error_replies_are_error_texts() {
    assert_eq!(
        error_reply(b"set", ErrorKind::MissingArgument),
        simple("ERROR: SET requires at least a key and value")
    );
    assert_eq!(
        error_reply(b"GET", ErrorKind::MissingArgument),
        simple("ERROR: GET requires one argument")
    );
    assert_eq!(error_reply(b"FOO", ErrorKind::UnknownCommand), simple("ERROR: Unknown command"));
    assert_eq!(
        error_reply(b"GET", ErrorKind::InvalidCommandFormat),
        simple("ERROR: Command is not a valid bulk string")
    );
    assert_eq!(error_reply(b"", ErrorKind::MalformedInput), simple("ERROR: Malformed input"));
}

#[test]
fn respond_answers_commands_and_passes_over_the_rest() {
    let mut storage = Storage::new();
    assert_eq!(respond(request(&["PING"]), &mut storage, 0), Some(simple("PONG")));
    assert_eq!(
        respond(request(&["FOO"]), &mut storage, 0),
        Some(simple("ERROR: Unknown command"))
    );
    assert_eq!(
        respond(request(&["SET", "k"]), &mut storage, 0),
        Some(simple("ERROR: SET requires at least a key and value"))
    );
    assert_eq!(
        respond(request(&["GET"]), &mut storage, 0),
        Some(simple("ERROR: GET requires one argument"))
    );
    assert_eq!(
        respond(Value::Array(vec![bulk("GET"), simple("k")]), &mut storage, 0),
        Some(simple("ERROR: Command is not a valid bulk string"))
    );
    assert_eq!(respond(simple("PING"), &mut storage, 0), None);
    assert_eq!(respond(Value::Array(vec![]), &mut storage, 0), Some(simple("ERROR: Unknown command")));
}

fn feed(connection: &mut Connection, words: &[&str]) {
    connection.receive(&encode(&request(words)));
}

#[test]
fn scenario_set_with_px_then_get_before_and_after_expiry() {
    let mut storage = Storage::new();
    let mut connection = Connection::new();
    feed(&mut connection, &["SET", "foo", "bar", "PX", "50"]);
    assert_eq!(connection.step(&mut storage, false, 0), Step::Write(b"+OK\r\n".to_vec()));
    feed(&mut connection, &["GET", "foo"]);
    assert_eq!(connection.step(&mut storage, false, 40), Step::Write(b"$3\r\nbar\r\n".to_vec()));
    feed(&mut connection, &["GET", "foo"]);
    assert_eq!(connection.step(&mut storage, false, 100), Step::Write(b"$-1\r\n".to_vec()));
    assert_eq!(connection.step(&mut storage, false, 100), Step::Read);
}

#[test]
fn scenario_echo_missing_key_and_unknown_command() {
    let mut storage = Storage::new();
    let mut connection = Connection::new();
    feed(&mut connection, &["ECHO", "hello"]);
    feed(&mut connection, &["GET", "missing"]);
    feed(&mut connection, &["FOO"]);
    feed(&mut connection, &["PING"]);
    assert_eq!(connection.step(&mut storage, false, 0), Step::Write(b"$5\r\nhello\r\n".to_vec()));
    assert_eq!(connection.step(&mut storage, false, 0), Step::Write(b"$-1\r\n".to_vec()));
    assert_eq!(
        connection.step(&mut storage, false, 0),
        Step::Write(b"+ERROR: Unknown command\r\n".to_vec())
    );
    assert_eq!(connection.step(&mut storage, false, 0), Step::Write(b"+PONG\r\n".to_vec()));
    assert_eq!(connection.step(&mut storage, false, 0), Step::Read);
    assert_eq!(connection.step(&mut storage, true, 0), Step::Close);
}

#[test]
fn request_that_arrives_in_pieces_is_answered_once_whole() {
    let mut storage = Storage::new();
    let mut connection = Connection::new();
    let bytes = encode(&request(&["ECHO", "hello"]));
    for byte in bytes[..bytes.len() - 1].iter() {
        connection.receive(&[*byte]);
        assert_eq!(connection.step(&mut storage, false, 0), Step::Read);
    }
    connection.receive(&bytes[bytes.len() - 1..]);
    assert_eq!(connection.step(&mut storage, false, 0), Step::Write(b"$5\r\nhello\r\n".to_vec()));
}

#[test]
fn request_that_is_no_command_is_skipped() {
    let mut storage = Storage::new();
    let mut connection = Connection::new();
    connection.receive(b"+PING\r\n");
    feed(&mut connection, &["PING"]);
    assert_eq!(connection.step(&mut storage, false, 0), Step::Skip);
    assert_eq!(connection.step(&mut storage, false, 0), Step::Write(b"+PONG\r\n".to_vec()));
}

#[test]
fn stream_that_ends_within_a_request_fails() {
    let mut storage = Storage::new();
    let mut connection = Connection::new();
    connection.receive(b"*2\r\n$4\r\nECHO\r\n");
    assert_eq!(connection.step(&mut storage, false, 0), Step::Read);
    assert_eq!(connection.step(&mut storage, true, 0), Step::Fail(ErrorKind::MalformedInput));
}

#[test]
fn malformed_bytes_fail_the_connection() {
    let mut storage = Storage::new();
    let mut connection = Connection::new();
    connection.receive(b"hello\r\n");
    assert_eq!(connection.step(&mut storage, false, 0), Step::Fail(ErrorKind::MalformedInput));
}

#[test]
fn every_step_sweeps_the_store() {
    let mut storage = Storage::new();
    let mut connection = Connection::new();
    storage.set_at("old", b"v", 10, 0);
    storage.set_at("new", b"w", 100, 0);
    assert_eq!(connection.step(&mut storage, false, 50), Step::Read);
    assert_eq!(storage.peek_at("old", 0), None);
    assert_eq!(storage.peek_at("new", 0).map(|item| item.value.clone()), Some(b"w".to_vec()));
}

#[test]
fn connections_share_one_store() {
    let mut storage = Storage::new();
    let mut writer = Connection::new();
    let mut reader = Connection::new();
    feed(&mut writer, &["SET", "k", "v"]);
    feed(&mut reader, &["GET", "k"]);
    assert_eq!(writer.step(&mut storage, false, 0), Step::Write(b"+OK\r\n".to_vec()));
    assert_eq!(reader.step(&mut storage, false, 1), Step::Write(b"$1\r\nv\r\n".to_vec()));
}
