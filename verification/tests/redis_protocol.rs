use prism_cache::redis_protocol::RedisError;
use prism_cache::redis_protocol::RedisFrame;

#[test]
fn test_parse_simple_string() {
    let data = b"+OK\r\n";
    let frame = RedisFrame::parse(data).unwrap();

    match frame {
        RedisFrame::SimpleString(s) => assert_eq!(s, "OK"),
        _ => panic!("Expected SimpleString, got {:?}", frame_name(&frame)),
    }
}

#[test]
fn test_parse_error() {
    let data = b"-Error message\r\n";
    let frame = RedisFrame::parse(data).unwrap();

    match frame {
        RedisFrame::Error(s) => assert_eq!(s, "Error message"),
        _ => panic!("Expected Error, got {:?}", frame_name(&frame)),
    }
}

#[test]
fn test_parse_integer() {
    let data = b":1000\r\n";
    let frame = RedisFrame::parse(data).unwrap();

    match frame {
        RedisFrame::Integer(i) => assert_eq!(i, 1000),
        _ => panic!("Expected Integer, got {:?}", frame_name(&frame)),
    }
}

#[test]
fn test_parse_bulk_string() {
    let data = b"$5\r\nhello\r\n";
    let frame = RedisFrame::parse(data).unwrap();

    match frame {
        RedisFrame::BulkString(s) => assert_eq!(s, "hello"),
        _ => panic!("Expected BulkString, got {:?}", frame_name(&frame)),
    }
}

#[test]
fn test_parse_null() {
    let data = b"$-1\r\n";
    let frame = RedisFrame::parse(data).unwrap();

    match frame {
        RedisFrame::Null => {}
        _ => panic!("Expected Null, got {:?}", frame_name(&frame)),
    }
}

#[test]
fn test_parse_empty_array() {
    let data = b"*0\r\n";
    let frame = RedisFrame::parse(data).unwrap();

    match frame {
        RedisFrame::Array(arr) => assert_eq!(arr.len(), 0),
        _ => panic!("Expected Array, got {:?}", frame_name(&frame)),
    }
}

#[test]
fn test_parse_array() {
    let data = b"*3\r\n$3\r\nSET\r\n$3\r\nkey\r\n$5\r\nvalue\r\n";
    let frame = RedisFrame::parse(data).unwrap();

    match frame {
        RedisFrame::Array(arr) => {
            assert_eq!(arr.len(), 3);

            match &arr[0] {
                RedisFrame::BulkString(s) => assert_eq!(s, "SET"),
                other => panic!("Expected BulkString, got {:?}", frame_name(other)),
            }

            match &arr[1] {
                RedisFrame::BulkString(s) => assert_eq!(s, "key"),
                other => panic!("Expected BulkString, got {:?}", frame_name(other)),
            }

            match &arr[2] {
                RedisFrame::BulkString(s) => assert_eq!(s, "value"),
                other => panic!("Expected BulkString, got {:?}", frame_name(other)),
            }
        }
        _ => panic!("Expected Array, got {:?}", frame_name(&frame)),
    }
}

#[test]
fn test_parse_nested_array() {
    let data = b"*2\r\n*2\r\n+inner1\r\n+inner2\r\n$5\r\nouter\r\n";
    let frame = RedisFrame::parse(data).unwrap();

    match frame {
        RedisFrame::Array(arr) => {
            assert_eq!(arr.len(), 2);

            match &arr[0] {
                RedisFrame::Array(inner) => {
                    assert_eq!(inner.len(), 2);
                    match &inner[0] {
                        RedisFrame::SimpleString(s) => assert_eq!(s, "inner1"),
                        other => panic!("Expected SimpleString, got {:?}", frame_name(other)),
                    }
                    match &inner[1] {
                        RedisFrame::SimpleString(s) => assert_eq!(s, "inner2"),
                        other => panic!("Expected SimpleString, got {:?}", frame_name(other)),
                    }
                }
                other => panic!("Expected Array, got {:?}", frame_name(other)),
            }

            match &arr[1] {
                RedisFrame::BulkString(s) => assert_eq!(s, "outer"),
                other => panic!("Expected BulkString, got {:?}", frame_name(other)),
            }
        }
        _ => panic!("Expected Array, got {:?}", frame_name(&frame)),
    }
}

#[test]
fn test_to_bytes_simple_string() {
    let frame = RedisFrame::SimpleString("OK".to_string());
    let bytes = frame.to_bytes();
    assert_eq!(bytes, b"+OK\r\n");
}

#[test]
fn test_to_bytes_error() {
    let frame = RedisFrame::Error("Error message".to_string());
    let bytes = frame.to_bytes();
    assert_eq!(bytes, b"-Error message\r\n");
}

#[test]
fn test_to_bytes_integer() {
    let frame = RedisFrame::Integer(1000);
    let bytes = frame.to_bytes();
    assert_eq!(bytes, b":1000\r\n");
}

#[test]
fn test_to_bytes_bulk_string() {
    let frame = RedisFrame::BulkString("hello".to_string());
    let bytes = frame.to_bytes();
    assert_eq!(bytes, b"$5\r\nhello\r\n");
}

#[test]
fn test_to_bytes_null() {
    let frame = RedisFrame::Null;
    let bytes = frame.to_bytes();
    assert_eq!(bytes, b"$-1\r\n");
}

#[test]
fn test_to_bytes_array() {
    let frame = RedisFrame::Array(vec![
        RedisFrame::BulkString("SET".to_string()),
        RedisFrame::BulkString("key".to_string()),
        RedisFrame::BulkString("value".to_string()),
    ]);
    let bytes = frame.to_bytes();
    assert_eq!(bytes, b"*3\r\n$3\r\nSET\r\n$3\r\nkey\r\n$5\r\nvalue\r\n");
}

#[test]
fn test_parse_invalid_protocol() {
    let data = b"invalid data";
    let result = RedisFrame::parse(data);
    assert!(result.is_err());
}

#[test]
fn test_parse_incomplete_simple_string() {
    let data = b"+OK";
    let result = RedisFrame::parse(data);
    assert!(result.is_err());
}

#[test]
fn test_parse_incomplete_bulk_string() {
    let data = b"$5\r\nhell";
    let result = RedisFrame::parse(data);
    assert!(result.is_err());
}

#[test]
fn test_as_string() {
    let simple = RedisFrame::SimpleString("simple".to_string());
    assert_eq!(simple.as_string(), Some("simple"));

    let bulk = RedisFrame::BulkString("bulk".to_string());
    assert_eq!(bulk.as_string(), Some("bulk"));

    let integer = RedisFrame::Integer(42);
    assert_eq!(integer.as_string(), None);
}

#[test]
fn test_roundtrip() {
    // Parsing and then serializing gives the original bytes back.
    let original = b"*3\r\n$3\r\nSET\r\n$3\r\nkey\r\n$5\r\nvalue\r\n";
    let frame = RedisFrame::parse(original).unwrap();
    let serialized = frame.to_bytes();
    assert_eq!(serialized, original);
}

#[test]
fn test_parse_inline_command() {
    // An inline command line is complete once a terminator arrives.
    let frame = RedisFrame::parse(b"GET users:1\r\n").unwrap();
    match frame {
        RedisFrame::Array(arr) => {
            assert_eq!(arr.len(), 2);
            assert_eq!(arr[0].as_string(), Some("GET"));
            assert_eq!(arr[1].as_string(), Some("users:1"));
        }
        _ => panic!("Expected Array"),
    }
}

#[test]
fn test_parse_negative_integer() {
    let frame = RedisFrame::parse(b":-42\r\n").unwrap();
    match frame {
        RedisFrame::Integer(i) => assert_eq!(i, -42),
        _ => panic!("Expected Integer"),
    }
}

#[test]
fn test_error_messages() {
    assert_eq!(
        RedisError::Protocol("bad".to_string()).message(),
        "Protocol error: bad"
    );
    assert_eq!(
        RedisError::UnknownCommand("FOO".to_string()).message(),
        "unknown command 'FOO'"
    );
    assert_eq!(
        RedisError::WrongArity("GET".to_string()).message(),
        "wrong number of arguments for 'GET'"
    );
    assert_eq!(
        RedisError::NotFound("x".to_string()).message(),
        "Not found: x"
    );
    assert_eq!(
        RedisError::Internal("boom".to_string()).message(),
        "Internal: boom"
    );
}

fn frame_name(f: &RedisFrame) -> &'static str {
    match f {
        RedisFrame::SimpleString(_) => "SimpleString",
        RedisFrame::Error(_) => "Error",
        RedisFrame::Integer(_) => "Integer",
        RedisFrame::BulkString(_) => "BulkString",
        RedisFrame::Array(_) => "Array",
        RedisFrame::Null => "Null",
    }
}
