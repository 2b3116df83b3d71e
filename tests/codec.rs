use altilium::resp::{parse_resp, serialize_resp, ParseResult, RespValue};

fn bulk(s: &str) -> RespValue {
    RespValue::BulkString(s.as_bytes().to_vec())
}

fn complete(input: &[u8]) -> (RespValue, usize) {
    match parse_resp(input) {
        ParseResult::Complete(v, n) => (v, n),
        ParseResult::Incomplete => panic!("incomplete"),
        ParseResult::Malformed => panic!("malformed"),
    }
}

fn is_incomplete(input: &[u8]) -> bool {
    matches!(parse_resp(input), ParseResult::Incomplete)
}

fn is_malformed(input: &[u8]) -> bool {
    matches!(parse_resp(input), ParseResult::Malformed)
}

#[test]
fn parses_simple_string() {
    assert_eq!(complete(b"+OK\r\n"), (RespValue::SimpleString("OK".to_string()), 5));
}

#[test]
fn parses_empty_simple_string() {
    assert_eq!(complete(b"+\r\n"), (RespValue::SimpleString(String::new()), 3));
}

#[test]
fn parses_error() {
    assert_eq!(complete(b"-ERR bad\r\n"), (RespValue::Error("ERR bad".to_string()), 10));
}

#[test]
fn parses_integers() {
    assert_eq!(complete(b":1000\r\n"), (RespValue::Integer(1000), 7));
    assert_eq!(complete(b":-42\r\n"), (RespValue::Integer(-42), 6));
    assert_eq!(complete(b":+7\r\n"), (RespValue::Integer(7), 5));
    assert_eq!(
        complete(b":-9223372036854775808\r\n"),
        (RespValue::Integer(i64::MIN), 23)
    );
    assert_eq!(
        complete(b":9223372036854775807\r\n"),
        (RespValue::Integer(i64::MAX), 22)
    );
}

#[test]
fn integer_out_of_range_is_malformed() {
    assert!(is_malformed(b":9223372036854775808\r\n"));
    assert!(is_malformed(b":99999999999999999999999\r\n"));
    assert!(is_malformed(b":12a\r\n"));
    assert!(is_malformed(b":\r\n"));
    assert!(is_malformed(b":-\r\n"));
}

#[test]
fn parses_bulk_string() {
    assert_eq!(complete(b"$5\r\nhello\r\n"), (bulk("hello"), 11));
    assert_eq!(complete(b"$0\r\n\r\n"), (bulk(""), 6));
}

#[test]
fn bulk_payload_may_hold_line_breaks() {
    assert_eq!(complete(b"$4\r\na\r\nb\r\n"), (bulk("a\r\nb"), 10));
}

#[test]
fn bulk_length_must_bound_payload() {
    assert!(is_malformed(b"$3\r\nhello\r\n"));
    assert!(is_malformed(b"$-2\r\n"));
}

#[test]
fn parses_array() {
    let (v, n) = complete(b"*2\r\n$3\r\nfoo\r\n:1\r\n");
    assert_eq!(v, RespValue::Array(vec![bulk("foo"), RespValue::Integer(1)]));
    assert_eq!(n, 17);
}

#[test]
fn parses_nested_array() {
    let (v, n) = complete(b"*2\r\n*1\r\n+a\r\n*0\r\n");
    assert_eq!(
        v,
        RespValue::Array(vec![
            RespValue::Array(vec![RespValue::SimpleString("a".to_string())]),
            RespValue::Array(vec![]),
        ])
    );
    assert_eq!(n, 16);
}

#[test]
fn nulls_collapse_to_one_value() {
    assert_eq!(complete(b"$-1\r\n"), (RespValue::Null, 5));
    assert_eq!(complete(b"*-1\r\n"), (RespValue::Null, 5));
    assert_eq!(serialize_resp(RespValue::Null), b"$-1\r\n".to_vec());
}

#[test]
fn only_first_frame_is_consumed() {
    assert_eq!(complete(b"+a\r\n+b\r\n"), (RespValue::SimpleString("a".to_string()), 4));
}

#[test]
fn incomplete_inputs_ask_for_more() {
    assert!(is_incomplete(b""));
    assert!(is_incomplete(b"+OK"));
    assert!(is_incomplete(b"+OK\r"));
    assert!(is_incomplete(b"$5\r\nhel"));
    assert!(is_incomplete(b"$5\r\nhello\r"));
    assert!(is_incomplete(b"*2\r\n$3\r\nfoo\r\n"));
    assert!(is_incomplete(b":12"));
}

#[test]
fn malformed_inputs() {
    assert!(is_malformed(b"?what\r\n"));
    assert!(is_malformed(b"+a\nb\r\n"));
    assert!(is_malformed(b"+ab\rc\r\n"));
    assert!(is_malformed(b"*1\r\n!\r\n"));
}

#[test]
fn lossy_text_replaces_invalid_utf8() {
    let (v, n) = complete(b"+a\xffb\r\n");
    assert_eq!(v, RespValue::SimpleString("a\u{fffd}b".to_string()));
    assert_eq!(n, 6);
}

#[test]
fn serializes_each_kind() {
    assert_eq!(
        serialize_resp(RespValue::SimpleString("OK".to_string())),
        b"+OK\r\n".to_vec()
    );
    assert_eq!(
        serialize_resp(RespValue::Error("ERR x".to_string())),
        b"-ERR x\r\n".to_vec()
    );
    assert_eq!(serialize_resp(RespValue::Integer(-42)), b":-42\r\n".to_vec());
    assert_eq!(serialize_resp(RespValue::Integer(0)), b":0\r\n".to_vec());
    assert_eq!(
        serialize_resp(RespValue::Integer(i64::MIN)),
        b":-9223372036854775808\r\n".to_vec()
    );
    assert_eq!(serialize_resp(bulk("hello")), b"$5\r\nhello\r\n".to_vec());
    assert_eq!(
        serialize_resp(RespValue::Array(vec![bulk("foo"), RespValue::Integer(1)])),
        b"*2\r\n$3\r\nfoo\r\n:1\r\n".to_vec()
    );
    assert_eq!(serialize_resp(RespValue::Array(vec![])), b"*0\r\n".to_vec());
}

#[test]
fn serializes_utf8_text() {
    assert_eq!(
        serialize_resp(RespValue::SimpleString("é".to_string())),
        b"+\xc3\xa9\r\n".to_vec()
    );
}

fn sample_values() -> Vec<RespValue> {
    vec![
        RespValue::SimpleString("hello world".to_string()),
        RespValue::SimpleString("é ü".to_string()),
        RespValue::Error("ERR something".to_string()),
        RespValue::Integer(0),
        RespValue::Integer(-1),
        RespValue::Integer(i64::MAX),
        RespValue::Integer(i64::MIN),
        RespValue::BulkString(vec![0, 13, 10, 255]),
        RespValue::BulkString(vec![]),
        RespValue::Null,
        RespValue::Array(vec![]),
        RespValue::Array(vec![
            bulk("SET"),
            bulk("k"),
            RespValue::Array(vec![RespValue::Integer(3), RespValue::Null]),
        ]),
    ]
}

#[test]
fn round_trip_of_every_kind() {
    for v in sample_values() {
        let bytes = serialize_resp(copy(&v));
        let (back, n) = complete(&bytes);
        assert_eq!(back, v);
        assert_eq!(n, bytes.len());
    }
}

#[test]
fn split_feed_of_every_kind() {
    for v in sample_values() {
        let bytes = serialize_resp(copy(&v));
        for k in 0..bytes.len() {
            assert!(is_incomplete(&bytes[..k]), "prefix of {} bytes", k);
            let mut joined = bytes[..k].to_vec();
            joined.extend_from_slice(&bytes[k..]);
            let (back, n) = complete(&joined);
            assert_eq!(back, v);
            assert_eq!(n, bytes.len());
        }
    }
}

fn copy(v: &RespValue) -> RespValue {
    match v {
        RespValue::SimpleString(s) => RespValue::SimpleString(s.clone()),
        RespValue::Error(s) => RespValue::Error(s.clone()),
        RespValue::Integer(n) => RespValue::Integer(*n),
        RespValue::BulkString(b) => RespValue::BulkString(b.clone()),
        RespValue::Array(a) => RespValue::Array(a.iter().map(copy).collect()),
        RespValue::Null => RespValue::Null,
    }
}

#[test]
fn to_string_reads_text_frames() {
    assert_eq!(bulk("abc").to_string(), Some("abc".to_string()));
    assert_eq!(RespValue::SimpleString("x".to_string()).to_string(), Some("x".to_string()));
    assert_eq!(RespValue::BulkString(vec![0xff]).to_string(), None);
    assert_eq!(RespValue::Integer(1).to_string(), None);
    assert_eq!(RespValue::Null.to_string(), None);
}
