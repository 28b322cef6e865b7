use kv_server::decode::{decode, decode_next, Decoded, Next};
use kv_server::error::ErrorKind;
use kv_server::resp::{encode, Value};

fn bulk(text: &str) -> Value {
    Value::BulkString(text.as_bytes().to_vec())
}

#[test]
fn encodes_simple_string() {
    assert_eq!(encode(&Value::SimpleString("PONG".to_string())), b"+PONG\r\n".to_vec());
}

#[test]
fn encodes_error_line() {
    assert_eq!(encode(&Value::Error("ERR no".to_string())), b"-ERR no\r\n".to_vec());
}

#[test]
fn encodes_bulk_string_with_byte_length() {
    assert_eq!(encode(&bulk("hello")), b"$5\r\nhello\r\n".to_vec());
    assert_eq!(encode(&bulk("")), b"$0\r\n\r\n".to_vec());
    assert_eq!(
        encode(&Value::BulkString(vec![0, 255, 13, 10, 7, 1, 2, 3, 4, 5, 6, 7])),
        vec![36, 49, 50, 13, 10, 0, 255, 13, 10, 7, 1, 2, 3, 4, 5, 6, 7, 13, 10]
    );
}

#[test]
fn encodes_non_ascii_text_as_utf8() {
    assert_eq!(
        encode(&Value::SimpleString("h\u{e9}".to_string())),
        vec![43, 104, 0xc3, 0xa9, 13, 10]
    );
}

#[test]
fn encodes_null_as_nil_bulk_string() {
    assert_eq!(encode(&Value::Null), b"$-1\r\n".to_vec());
}

#[test]
fn encodes_array_as_count_and_elements() {
    let request = Value::Array(vec![bulk("ECHO"), bulk("hello")]);
    assert_eq!(encode(&request), b"*2\r\n$4\r\nECHO\r\n$5\r\nhello\r\n".to_vec());
    assert_eq!(encode(&Value::Array(vec![])), b"*0\r\n".to_vec());
}

#[test]
fn decodes_each_kind_of_value() {
    assert_eq!(decode(b"+OK\r\n"), Decoded::Complete(Value::SimpleString("OK".to_string()), 5));
    assert_eq!(decode(b"-bad\r\n"), Decoded::Complete(Value::Error("bad".to_string()), 6));
    assert_eq!(decode(b"$3\r\nbar\r\n"), Decoded::Complete(bulk("bar"), 9));
    assert_eq!(decode(b"$-1\r\n"), Decoded::Complete(Value::Null, 5));
    assert_eq!(
        decode(b"*2\r\n$3\r\nGET\r\n$3\r\nfoo\r\n"),
        Decoded::Complete(Value::Array(vec![bulk("GET"), bulk("foo")]), 22)
    );
}

#[test]
fn decodes_only_the_first_value() {
    assert_eq!(
        decode(b"+one\r\n+two\r\n"),
        Decoded::Complete(Value::SimpleString("one".to_string()), 6)
    );
}

#[test]
fn decodes_bulk_string_that_holds_line_ends() {
    assert_eq!(
        decode(b"$4\r\na\r\nb\r\n"),
        Decoded::Complete(Value::BulkString(b"a\r\nb".to_vec()), 10)
    );
}

#[test]
fn decodes_length_with_leading_zeros() {
    assert_eq!(decode(b"$003\r\nbar\r\n"), Decoded::Complete(bulk("bar"), 11));
}

#[test]
fn decodes_utf8_text() {
    assert_eq!(
        decode(&[43, 104, 0xc3, 0xa9, 13, 10]),
        Decoded::Complete(Value::SimpleString("h\u{e9}".to_string()), 6)
    );
}

#[test]
fn text_that_is_not_utf8_is_malformed() {
    assert_eq!(decode(&[43, 0xff, 0xfe, 13, 10]), Decoded::Malformed);
    assert_eq!(decode(&[45, 0xc3, 13, 10]), Decoded::Malformed);
}

#[test]
fn decodes_nested_arrays() {
    let inner = Value::Array(vec![Value::Null, Value::SimpleString("x".to_string())]);
    let outer = Value::Array(vec![inner, bulk("y"), Value::Array(vec![])]);
    let bytes = encode(&outer);
    let used = bytes.len();
    assert_eq!(decode(&bytes), Decoded::Complete(outer, used));
}

#[test]
fn round_trip_gives_the_value_back() {
    let values = vec![
        Value::SimpleString("".to_string()),
        Value::SimpleString("line with \n feed".to_string()),
        Value::Error("ERROR: Unknown command".to_string()),
        Value::BulkString(vec![]),
        Value::BulkString((0..=255).collect()),
        Value::Null,
        Value::Array(vec![Value::Array(vec![Value::Array(vec![Value::Null])])]),
    ];
    for value in values {
        let mut bytes = encode(&value);
        let used = bytes.len();
        bytes.extend_from_slice(b"+next\r\n");
        assert_eq!(decode(&bytes), Decoded::Complete(value, used));
    }
}

#[test]
fn non_numeric_length_is_malformed() {
    assert_eq!(decode(b"$abc\r\nxyz\r\n"), Decoded::Malformed);
    assert_eq!(decode(b"*x\r\n"), Decoded::Malformed);
    assert_eq!(decode(b"$\r\n\r\n"), Decoded::Malformed);
    assert_eq!(decode(b"$+3\r\nbar\r\n"), Decoded::Malformed);
}

#[test]
fn negative_length_other_than_nil_is_malformed() {
    assert_eq!(decode(b"$-2\r\n"), Decoded::Malformed);
    assert_eq!(decode(b"*-1\r\n"), Decoded::Malformed);
}

#[test]
fn body_without_its_terminator_is_malformed() {
    assert_eq!(decode(b"$3\r\nbarXY"), Decoded::Malformed);
    assert_eq!(decode(b"$3\r\nbarbaz\r\n"), Decoded::Malformed);
}

#[test]
fn unknown_tag_is_malformed() {
    assert_eq!(decode(b"?what\r\n"), Decoded::Malformed);
    assert_eq!(decode(b":1\r\n"), Decoded::Malformed);
}

#[test]
fn malformed_element_makes_the_array_malformed() {
    assert_eq!(decode(b"*2\r\n+ok\r\n!no\r\n"), Decoded::Malformed);
}

#[test]
fn truncated_input_is_incomplete() {
    assert_eq!(decode(b""), Decoded::Incomplete);
    assert_eq!(decode(b"+PON"), Decoded::Incomplete);
    assert_eq!(decode(b"+PONG\r"), Decoded::Incomplete);
    assert_eq!(decode(b"$5\r\nhel"), Decoded::Incomplete);
    assert_eq!(decode(b"$5\r\nhello\r"), Decoded::Incomplete);
    assert_eq!(decode(b"*2\r\n$4\r\nECHO\r\n"), Decoded::Incomplete);
    assert_eq!(decode(b"*2\r\n$4\r\nECHO\r\n$5\r\nhel"), Decoded::Incomplete);
}

#[test]
fn length_beyond_any_buffer_is_incomplete() {
    assert_eq!(decode(b"$99999999999999999999999999999999\r\nabc\r\n"), Decoded::Incomplete);
    assert_eq!(decode(b"*99999999999999999999999999999999\r\n+a\r\n"), Decoded::Incomplete);
}

#[test]
fn every_proper_prefix_of_an_encoding_is_incomplete() {
    let bytes = encode(&Value::Array(vec![bulk("SET"), bulk("foo"), bulk("bar")]));
    for cut in 0..bytes.len() {
        assert_eq!(decode(&bytes[..cut]), Decoded::Incomplete);
    }
}

#[test]
fn open_stream_waits_for_more() {
    assert_eq!(decode_next(b"", false), Ok(Next::More));
    assert_eq!(decode_next(b"$5\r\nhel", false), Ok(Next::More));
}

#[test]
fn closed_stream_without_data_is_the_end() {
    assert_eq!(decode_next(b"", true), Ok(Next::End));
}

#[test]
fn closed_stream_within_a_value_is_malformed() {
    assert_eq!(decode_next(b"$5\r\nhel", true), Err(ErrorKind::MalformedInput));
    assert_eq!(decode_next(b"+", true), Err(ErrorKind::MalformedInput));
}

#[test]
fn malformed_bytes_are_an_error_on_any_stream() {
    assert_eq!(decode_next(b"$x\r\n", false), Err(ErrorKind::MalformedInput));
    assert_eq!(decode_next(b"$x\r\n", true), Err(ErrorKind::MalformedInput));
}

#[test]
fn whole_value_is_read_from_a_closed_stream() {
    assert_eq!(
        decode_next(b"+PONG\r\n", true),
        Ok(Next::Value(Value::SimpleString("PONG".to_string()), 7))
    );
}
