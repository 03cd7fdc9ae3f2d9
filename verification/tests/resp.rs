use tinkv::error::{ProtocolFault, TinkvError};
use tinkv::resp::{parse_i64, parse_length, Deserializer, Error, Value};

fn parse_value(value: &str) -> Result<Option<Value>, TinkvError> {
    let mut de = Deserializer::from_reader(value.as_bytes());
    let v = de.next()?;
    Ok(v)
}

#[test]
fn test_parse_length() {
    let v = parse_length("123".as_bytes());
    assert!(v.is_ok());
    assert_eq!(v.unwrap(), 123);

    let v = parse_length("123abc".as_bytes());
    assert!(v.is_err());
}

#[test]
fn test_simple_string() {
    let r = parse_value("+OK\r\n");
    assert!(r.is_ok());
    let v = r.unwrap().unwrap();
    assert!(v.is_simple_string());
    assert_eq!(v.as_simple_string().unwrap(), "OK");
}

#[test]
fn test_error() {
    let r = parse_value("-CUSTOMERR error message\r\n");
    assert!(r.is_ok());

    let v = r.unwrap().unwrap();
    assert!(v.is_error());

    let e = v.as_error().unwrap();
    assert_eq!(e.name, "CUSTOMERR");
    assert_eq!(e.msg, "error message");
}

#[test]
fn test_integer() {
    let r = parse_value(":1234567\r\n");
    assert!(r.is_ok());

    let v = r.unwrap().unwrap();
    assert!(v.is_integer());

    let r = v.as_integer().unwrap();
    assert_eq!(r, 1234567);
}

#[test]
fn test_bulk_string() {
    let r = parse_value("$5\r\nhello\r\n");
    assert!(r.is_ok());

    let v = r.unwrap().unwrap();
    assert!(v.is_bulk_string());

    let r = v.as_bulk_string().unwrap();
    assert_eq!(r, "hello".as_bytes());

    // null string
    let r = parse_value("$-1\r\n");
    assert!(r.is_ok());

    let v = r.unwrap().unwrap();
    assert!(v.is_null_bulk_string());
    assert!(v.is_null());
}

#[test]
fn test_invalid_bulk_string() {
    let r = parse_value("$5\r\nhell\r\n");
    assert!(r.is_err());

    let r = parse_value("$5\r\nhello\r");
    assert!(r.is_err());

    let r = parse_value("$5\r\nhello\n\r");
    assert!(r.is_err());

    let r = parse_value("$5\rhello\n\r");
    assert!(r.is_err());
}

#[test]
fn test_array() {
    let r = parse_value("*1\r\n:1\r\n");
    assert!(r.is_ok());
    let v = r.unwrap().unwrap();
    assert!(v.is_array());
    let r = v.as_array().unwrap();
    assert_eq!(r.len(), 1);
    assert_eq!(r.get(0).unwrap().as_integer().unwrap(), 1);

    let r = parse_value("*2\r\n:1\r\n$5\r\ntinkv\r\n");
    assert!(r.is_ok());
    let v = r.unwrap().unwrap();
    assert!(v.is_array());
    let r = v.as_array().unwrap();
    assert_eq!(r.len(), 2);
    assert_eq!(r.get(0).unwrap().as_integer().unwrap(), 1);
    assert_eq!(
        r.get(1).unwrap().as_bulk_string().unwrap(),
        "tinkv".as_bytes()
    );

    let r = parse_value("*3\r\n:1\r\n$5\r\ntinkv\r\n+OK\r\n");
    assert!(r.is_ok());
    let v = r.unwrap().unwrap();
    assert!(v.is_array());
    let r = v.as_array().unwrap();
    assert_eq!(r.len(), 3);
    assert_eq!(r.get(0).unwrap().as_integer().unwrap(), 1);
    assert_eq!(
        r.get(1).unwrap().as_bulk_string().unwrap(),
        "tinkv".as_bytes()
    );
    assert_eq!(r.get(2).unwrap().as_simple_string().unwrap(), "OK");

    let r = parse_value("*-1\r\n");
    assert!(r.is_ok());
    let v = r.unwrap().unwrap();
    assert!(v.is_null());
    assert!(v.is_null_array());
}

#[test]
fn test_invalid_array() {
    let r = parse_value("*3\r\n:1\r\n");
    assert!(r.is_err());
    let r = parse_value("*3\r\n:1\n");
    assert!(r.is_err());
}


fn fault_of(value: &str) -> ProtocolFault {
    match parse_value(value) {
        Err(TinkvError::Protocol(fault)) => fault,
        other => panic!("expected a protocol fault, got {:?}", other),
    }
}

#[test]
fn end_of_input_is_not_an_error() {
    assert_eq!(parse_value("").unwrap(), None);
}

#[test]
fn parse_i64_follows_the_decimal_grammar() {
    assert_eq!(parse_i64(b"0"), Some(0));
    assert_eq!(parse_i64(b"-0"), Some(0));
    assert_eq!(parse_i64(b"+5"), Some(5));
    assert_eq!(parse_i64(b"-17"), Some(-17));
    assert_eq!(parse_i64(b"0007"), Some(7));
    assert_eq!(parse_i64(b"9223372036854775807"), Some(i64::MAX));
    assert_eq!(parse_i64(b"-9223372036854775808"), Some(i64::MIN));
    assert_eq!(parse_i64(b"9223372036854775808"), None);
    assert_eq!(parse_i64(b"-9223372036854775809"), None);
    assert_eq!(parse_i64(b"99999999999999999999999"), None);
    assert_eq!(parse_i64(b""), None);
    assert_eq!(parse_i64(b"-"), None);
    assert_eq!(parse_i64(b"+"), None);
    assert_eq!(parse_i64(b" 1"), None);
    assert_eq!(parse_i64(b"1 "), None);
    assert_eq!(parse_i64(b"1-"), None);
    assert_eq!(parse_i64(b"--1"), None);
    assert_eq!(parse_i64(&[0x31, 0xff]), None);
}

#[test]
fn each_fault_has_its_input() {
    assert_eq!(fault_of("\r\n"), ProtocolFault::InvalidPrefix);
    assert_eq!(fault_of("?what\r\n"), ProtocolFault::InvalidPrefix);
    assert_eq!(fault_of(":12a\r\n"), ProtocolFault::InvalidInteger);
    assert_eq!(fault_of(":\r\n"), ProtocolFault::InvalidInteger);
    assert_eq!(fault_of("$abc\r\n"), ProtocolFault::InvalidLength);
    assert_eq!(fault_of("*x\r\n"), ProtocolFault::InvalidLength);
    assert_eq!(fault_of("$-2\r\n"), ProtocolFault::NegativeLength);
    assert_eq!(fault_of("$5\r\nhell\r\n"), ProtocolFault::TruncatedBulkString);
    assert_eq!(fault_of("$5\r\nhello\r"), ProtocolFault::TruncatedBulkString);
    assert_eq!(fault_of("$9223372036854775807\r\nhello\r\n"), ProtocolFault::TruncatedBulkString);
    assert_eq!(fault_of("$5\r\nhello\n\r"), ProtocolFault::MissingTerminator);
    assert_eq!(fault_of("$5\r\nhelloXY"), ProtocolFault::MissingTerminator);
    assert_eq!(fault_of("$5\rhello\n\r"), ProtocolFault::InvalidLength);
    assert_eq!(fault_of("*3\r\n:1\r\n"), ProtocolFault::MissingElements);
    assert_eq!(fault_of("*3\r\n:1\n"), ProtocolFault::MissingElements);
    assert_eq!(fault_of("*2\r\n:1\r\n:x\r\n"), ProtocolFault::InvalidInteger);
}

#[test]
fn error_without_whitespace_is_named_err() {
    let v = parse_value("-oops\r\n").unwrap().unwrap();
    let e = v.as_error().unwrap();
    assert_eq!(e.name, "ERR");
    assert_eq!(e.msg, "oops");
}

#[test]
fn error_splits_at_first_whitespace_only() {
    let v = parse_value("-WRONGTYPE\tthe  key holds\r\n").unwrap().unwrap();
    let e = v.as_error().unwrap();
    assert_eq!(e.name, "WRONGTYPE");
    assert_eq!(e.msg, "the  key holds");

    let v = parse_value("- lead\r\n").unwrap().unwrap();
    let e = v.as_error().unwrap();
    assert_eq!(e.name, "");
    assert_eq!(e.msg, "lead");
}

#[test]
fn error_splits_at_wide_whitespace() {
    let v = parse_value("-ERR\u{2003}wide gap\r\n").unwrap().unwrap();
    let e = v.as_error().unwrap();
    assert_eq!(e.name, "ERR");
    assert_eq!(e.msg, "wide gap");
}

#[test]
fn invalid_utf8_is_replaced() {
    let mut de = Deserializer::from_reader(&[b'+', b'a', 0xff, b'b', b'\r', b'\n']);
    let v = de.next().unwrap().unwrap();
    assert_eq!(v.as_simple_string().unwrap(), "a\u{fffd}b");
    assert_eq!(
        Value::simple_string_from_slice(&[0xc3, 0xa9]).as_simple_string().unwrap(),
        "\u{e9}"
    );
}

#[test]
fn integers_with_sign() {
    assert_eq!(parse_value(":-42\r\n").unwrap().unwrap().as_integer(), Some(-42));
    assert_eq!(parse_value(":+42\r\n").unwrap().unwrap().as_integer(), Some(42));
    assert_eq!(
        Value::integer_from_slice(b"-9223372036854775808").unwrap().as_integer(),
        Some(i64::MIN)
    );
}

#[test]
fn empty_bulk_string_and_binary_content() {
    let v = parse_value("$0\r\n\r\n").unwrap().unwrap();
    assert_eq!(v.as_bulk_string().unwrap(), b"");
    let v = parse_value("$4\r\n\r\n\r\n\r\n").unwrap().unwrap();
    assert_eq!(v.as_bulk_string().unwrap(), b"\r\n\r\n");
}

#[test]
fn array_of_negative_length_is_empty() {
    let v = parse_value("*-2\r\n").unwrap().unwrap();
    assert_eq!(v.as_array().unwrap().len(), 0);
    let v = parse_value("*0\r\n").unwrap().unwrap();
    assert_eq!(v.as_array().unwrap().len(), 0);
}

#[test]
fn nested_arrays() {
    let v = parse_value("*2\r\n*2\r\n:1\r\n*0\r\n$-1\r\n").unwrap().unwrap();
    let outer = v.as_array().unwrap();
    assert_eq!(outer.len(), 2);
    let inner = outer[0].as_array().unwrap();
    assert_eq!(inner.len(), 2);
    assert_eq!(inner[0].as_integer(), Some(1));
    assert_eq!(inner[1].as_array().unwrap().len(), 0);
    assert!(outer[1].is_null_bulk_string());
}

#[test]
fn values_come_one_after_another() {
    let mut de = Deserializer::from_reader(b"+OK\r\n:7\n$2\r\nhi\r\n+last");
    assert_eq!(de.next().unwrap().unwrap().as_simple_string(), Some("OK"));
    assert_eq!(de.next().unwrap().unwrap().as_integer(), Some(7));
    assert_eq!(de.next().unwrap().unwrap().as_bulk_string().unwrap(), b"hi");
    assert_eq!(de.next().unwrap().unwrap().as_simple_string(), Some("last"));
    assert_eq!(de.next().unwrap(), None);
    assert_eq!(de.next().unwrap(), None);
}

#[test]
fn unterminated_last_line_keeps_its_carriage_return() {
    let mut de = Deserializer::from_reader(b"+tail\r");
    assert_eq!(de.next().unwrap().unwrap().as_simple_string(), Some("tail\r"));
}

#[test]
fn iterator_yields_values_then_faults() {
    let mut it = Deserializer::from_reader(b":1\r\n?\r\n:2\r\n").into_iter();
    assert_eq!(it.next().unwrap().unwrap().as_integer(), Some(1));
    assert_eq!(
        it.next().unwrap().unwrap_err(),
        TinkvError::Protocol(ProtocolFault::InvalidPrefix)
    );
    assert_eq!(it.next().unwrap().unwrap().as_integer(), Some(2));
    assert!(it.next().is_none());
}

#[test]
fn next_line_and_next_value_work_apart() {
    let mut de = Deserializer::from_reader(b"$3\r\nabc\r\n");
    let line = de.next_line().unwrap().unwrap();
    assert_eq!(line, b"$3".to_vec());
    let v = de.next_value(&line).unwrap();
    assert_eq!(v.as_bulk_string().unwrap(), b"abc");
    assert_eq!(de.next_line().unwrap(), None);
}

#[test]
fn bulk_string_from_reader() {
    let mut reader = tinkv::util::ByteLineReader::new(b"hello\r\nrest");
    let v = Value::bulk_string_from_slice(5, &mut reader).unwrap();
    assert_eq!(v.as_bulk_string().unwrap(), b"hello");
    assert_eq!(reader.remaining(), 4);
    assert!(Value::bulk_string_from_slice(-1, &mut reader).unwrap().is_null_bulk_string());
    assert_eq!(reader.remaining(), 4);
    assert!(Value::bulk_string_from_slice(3, &mut reader).is_err());
    assert_eq!(reader.remaining(), 0);
}

#[test]
fn kinds_exclude_each_other() {
    let v = parse_value(":1\r\n").unwrap().unwrap();
    assert!(v.is_integer());
    assert!(!v.is_simple_string());
    assert!(!v.is_error());
    assert!(!v.is_bulk_string());
    assert!(!v.is_array());
    assert!(!v.is_null());
    assert!(!v.is_null_array());
    assert!(!v.is_null_bulk_string());
    assert_eq!(v.as_simple_string(), None);
    assert!(v.as_error().is_none());
    assert_eq!(v.as_bulk_string(), None);
    assert_eq!(v.as_array(), None);
    assert_eq!(v.as_null_array(), None);
    assert_eq!(v.as_null_bulk_string(), None);
}

#[test]
fn default_clone_and_error_value() {
    assert!(Value::default().is_null_bulk_string());
    assert_eq!(Value::default().as_null_bulk_string(), Some(()));
    let e = Error::new("NAME", "what happened");
    let v = e.as_error_value();
    assert_eq!(v, Value::Error { name: "NAME".to_string(), msg: "what happened".to_string() });
    let nested = parse_value("*3\r\n+a\r\n$1\r\nb\r\n*1\r\n-E m\r\n").unwrap().unwrap();
    assert_eq!(nested.clone(), nested);
    assert_eq!(Value::error_from_slice(b"E m"), Value::Error {
        name: "E".to_string(),
        msg: "m".to_string()
    });
}

#[test]
fn parse_length_reports_what_it_cannot_read() {
    assert_eq!(parse_length(b"1x").unwrap_err(), TinkvError::Protocol(ProtocolFault::InvalidLength));
    assert_eq!(parse_length(b"-1").unwrap(), -1);
}
