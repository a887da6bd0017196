//! End-to-end exchanges against the mock-backed gateway: bytes in, bytes
//! out, exactly as a client on the socket would see them.

use prism_cache::config::AppConfig;
use prism_cache::connection::Connection;
use prism_cache::connection::FeedStep;
use prism_cache::storage::StorageService;

fn gateway() -> StorageService {
    StorageService::new(&AppConfig::default()).unwrap()
}

fn responses(step: FeedStep) -> Vec<u8> {
    match step {
        FeedStep::Responses(b) => b,
        FeedStep::Await(_, _) => panic!("unexpected remote suspension"),
    }
}

const USER1_JSON: &str =
    "{\"age\":30,\"email\":\"john@example.com\",\"id\":\"1\",\"name\":\"John Doe\"}";

fn bulk(payload: &str) -> Vec<u8> {
    let mut out = Vec::new();
    out.extend_from_slice(format!("${}\r\n", payload.len()).as_bytes());
    out.extend_from_slice(payload.as_bytes());
    out.extend_from_slice(b"\r\n");
    out
}

#[test]
fn ping_answers_pong() {
    let mut storage = gateway();
    let mut conn = Connection::new();
    let out = responses(conn.feed(b"*1\r\n$4\r\nPING\r\n", &mut storage, 0));
    assert_eq!(out, b"+PONG\r\n");
}

#[test]
fn get_miss_then_hit_returns_record_json() {
    let mut storage = gateway();
    let mut conn = Connection::new();
    let request = b"*2\r\n$3\r\nGET\r\n$7\r\nusers:1\r\n";
    let out = responses(conn.feed(request, &mut storage, 0));
    assert_eq!(out, bulk(USER1_JSON));
    // The second identical request, within the TTL, is served from the
    // cache and answers the same bytes.
    let out2 = responses(conn.feed(request, &mut storage, 10));
    assert_eq!(out2, bulk(USER1_JSON));
}

#[test]
fn get_unknown_id_returns_null() {
    let mut storage = gateway();
    let mut conn = Connection::new();
    let out = responses(conn.feed(b"*2\r\n$3\r\nGET\r\n$8\r\nusers:99\r\n", &mut storage, 0));
    assert_eq!(out, b"$-1\r\n");
}

#[test]
fn hget_single_field_returns_value() {
    let mut storage = gateway();
    let mut conn = Connection::new();
    let out = responses(conn.feed(
        b"*3\r\n$4\r\nHGET\r\n$7\r\nusers:1\r\n$4\r\nname\r\n",
        &mut storage,
        0,
    ));
    assert_eq!(out, bulk("\"John Doe\""));
}

#[test]
fn hget_multi_field_with_one_missing() {
    let mut storage = gateway();
    let mut conn = Connection::new();
    let out = responses(conn.feed(
        b"*4\r\n$4\r\nHGET\r\n$7\r\nusers:1\r\n$4\r\nname\r\n$7\r\nmissing\r\n",
        &mut storage,
        0,
    ));
    let mut expected = Vec::new();
    expected.extend_from_slice(b"*2\r\n");
    expected.extend_from_slice(&bulk("\"John Doe\""));
    expected.extend_from_slice(b"$-1\r\n");
    assert_eq!(out, expected);
}

#[test]
fn unknown_command_reports_error() {
    let mut storage = gateway();
    let mut conn = Connection::new();
    let out = responses(conn.feed(b"*1\r\n$3\r\nFOO\r\n", &mut storage, 0));
    assert_eq!(out, b"-ERR unknown command 'FOO'\r\n");
}

#[test]
fn oversize_buffer_is_discarded_and_connection_survives() {
    let mut storage = gateway();
    let mut conn = Connection::new();
    // 11 KiB that never parses as a frame: no terminator arrives.
    let garbage = vec![b'X'; 11 * 1024];
    let out = responses(conn.feed(&garbage, &mut storage, 0));
    assert_eq!(out, b"-ERR Command too large\r\n");
    // The connection keeps serving.
    let out2 = responses(conn.feed(b"*1\r\n$4\r\nPING\r\n", &mut storage, 0));
    assert_eq!(out2, b"+PONG\r\n");
}

#[test]
fn pipelined_requests_answer_in_order() {
    let mut storage = gateway();
    let mut conn = Connection::new();
    let mut stream = Vec::new();
    stream.extend_from_slice(b"*1\r\n$4\r\nPING\r\n");
    stream.extend_from_slice(b"*2\r\n$3\r\nGET\r\n$8\r\nusers:99\r\n");
    stream.extend_from_slice(b"*1\r\n$4\r\nPING\r\n");
    let out = responses(conn.feed(&stream, &mut storage, 0));
    assert_eq!(out, b"+PONG\r\n$-1\r\n+PONG\r\n");
}

#[test]
fn split_frame_across_reads_is_answered_once_complete() {
    let mut storage = gateway();
    let mut conn = Connection::new();
    let out = responses(conn.feed(b"*1\r\n$4\r\nPI", &mut storage, 0));
    assert_eq!(out, b"");
    let out2 = responses(conn.feed(b"NG\r\n", &mut storage, 0));
    assert_eq!(out2, b"+PONG\r\n");
}

#[test]
fn set_is_acknowledged_but_stores_nothing() {
    let mut storage = gateway();
    let mut conn = Connection::new();
    let get = b"*2\r\n$3\r\nGET\r\n$7\r\nusers:1\r\n";
    let before = responses(conn.feed(get, &mut storage, 0));
    let set = b"*3\r\n$3\r\nSET\r\n$7\r\nusers:1\r\n$5\r\nother\r\n";
    let ack = responses(conn.feed(set, &mut storage, 1));
    assert_eq!(ack, b"+OK\r\n");
    let after = responses(conn.feed(get, &mut storage, 2));
    assert_eq!(before, after);
}

#[test]
fn get_without_colon_is_a_protocol_error() {
    let mut storage = gateway();
    let mut conn = Connection::new();
    let out = responses(conn.feed(b"*2\r\n$3\r\nGET\r\n$7\r\nnocolon\r\n", &mut storage, 0));
    assert_eq!(out, b"-ERR Protocol error: Expected provider:id format\r\n");
}

#[test]
fn key_splits_at_first_colon() {
    // `a:b:c` resolves provider `a` (unregistered, so a null reply) rather
    // than erroring: the id keeps its colons.
    let mut storage = gateway();
    let mut conn = Connection::new();
    let out = responses(conn.feed(b"*2\r\n$3\r\nGET\r\n$5\r\na:b:c\r\n", &mut storage, 0));
    assert_eq!(out, b"$-1\r\n");
}

#[test]
fn wrong_arity_reports_error() {
    let mut storage = gateway();
    let mut conn = Connection::new();
    let out = responses(conn.feed(b"*1\r\n$3\r\nGET\r\n", &mut storage, 0));
    assert_eq!(out, b"-ERR wrong number of arguments for 'GET'\r\n");
}

#[test]
fn undecodable_bytes_report_protocol_error() {
    let mut storage = gateway();
    let mut conn = Connection::new();
    // A line frame whose CR is not followed by LF cannot be decoded.
    let out = responses(conn.feed(b"+bad\rX", &mut storage, 0));
    assert_eq!(out, b"-ERR Protocol error: Expected CRLF after line\r\n");
    // The buffer was discarded; the connection keeps serving.
    let out2 = responses(conn.feed(b"*1\r\n$4\r\nPING\r\n", &mut storage, 0));
    assert_eq!(out2, b"+PONG\r\n");
}

#[test]
fn inline_command_round_trip() {
    let mut storage = gateway();
    let mut conn = Connection::new();
    let out = responses(conn.feed(b"PING\r\n", &mut storage, 0));
    assert_eq!(out, b"+PONG\r\n");
}

#[test]
fn expired_entry_is_refetched_from_backend() {
    let mut storage = gateway();
    let mut conn = Connection::new();
    let get = b"*2\r\n$3\r\nGET\r\n$7\r\nusers:1\r\n";
    // Default TTL is 300 seconds: an entry written at 0 is gone at 300.
    let first = responses(conn.feed(get, &mut storage, 0));
    assert_eq!(first, bulk(USER1_JSON));
    let later = responses(conn.feed(get, &mut storage, 300));
    assert_eq!(later, bulk(USER1_JSON));
}

#[test]
fn command_names_are_case_insensitive() {
    let mut storage = gateway();
    let mut conn = Connection::new();
    let out = responses(conn.feed(b"*1\r\n$4\r\nping\r\n", &mut storage, 0));
    assert_eq!(out, b"+PONG\r\n");
    let out2 = responses(conn.feed(b"*2\r\n$3\r\nget\r\n$7\r\nusers:1\r\n", &mut storage, 0));
    assert_eq!(out2, bulk(USER1_JSON));
}
