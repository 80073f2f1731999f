use mini_redis::cmd::Cmd;
use mini_redis::conn::{extract_frame, on_zero_read, respond, EofKind, ReadStep};
use mini_redis::frame::{Frame, FrameIter};
use mini_redis::store::Store;

fn req(parts: &[&str]) -> Frame {
    let mut vec: Vec<Frame> = Vec::new();
    for p in parts {
        vec.push(Frame::Bulk(p.as_bytes().to_vec()));
    }
    Frame::Array(vec)
}

#[test]
fn frame_to_command_test() {
    let mut vec = Vec::new();
    vec.push(Frame::Simple("SET".to_string()));
    vec.push(Frame::Simple("FOO".to_string()));
    vec.push(Frame::Simple("abcd".to_string()));

    let frame = Frame::Array(vec);
    let command: Cmd = Cmd::try_from(frame, 0).unwrap();
    assert!(matches!(command, Cmd::SetCmd(_)));
}

#[test]
fn set_test() {
    let mut store = Store::new();
    let resp = respond(req(&["SET", "a", "b"]), &mut store, 0);
    assert_eq!(resp, Frame::Simple("OK".to_string()));
    assert_eq!(store.get_bytes("a", 0), Some(b"b".to_vec()));
}

#[test]
fn set_then_get() {
    let mut store = Store::new();
    let resp = respond(req(&["SET", "foo", "bar"]), &mut store, 0);
    assert_eq!(resp, Frame::Simple("OK".to_string()));
    let resp = respond(req(&["GET", "foo"]), &mut store, 0);
    assert_eq!(resp, Frame::Bulk(b"bar".to_vec()));
}

#[test]
fn get_missing_is_nil() {
    let mut store = Store::new();
    let resp = respond(req(&["GET", "missing"]), &mut store, 0);
    assert_eq!(resp, Frame::Integer(-1));
}

#[test]
fn decrby_counts_down() {
    let mut store = Store::new();
    respond(req(&["SET", "counter", "10"]), &mut store, 0);
    let resp = respond(req(&["DECRBY", "counter", "3"]), &mut store, 0);
    assert_eq!(resp, Frame::Integer(7));
    assert_eq!(store.get_bytes("counter", 0), Some(b"7".to_vec()));
}

#[test]
fn incrby_creates_missing_key() {
    let mut store = Store::new();
    let resp = respond(req(&["INCRBY", "newkey"]), &mut store, 0);
    assert_eq!(resp, Frame::Integer(1));
    assert_eq!(store.get_bytes("newkey", 0), Some(b"1".to_vec()));
}

#[test]
fn append_concatenates_in_place() {
    let mut store = Store::new();
    respond(req(&["SET", "foo", "bar"]), &mut store, 0);
    let resp = respond(req(&["APPEND", "foo", "baz"]), &mut store, 0);
    assert_eq!(resp, Frame::Simple("OK".to_string()));
    let resp = respond(req(&["GET", "foo"]), &mut store, 0);
    assert_eq!(resp, Frame::Bulk(b"barbaz".to_vec()));
}

#[test]
fn append_missing_key_is_noop() {
    let mut store = Store::new();
    let resp = respond(req(&["APPEND", "nope", "baz"]), &mut store, 0);
    assert_eq!(resp, Frame::Simple("OK".to_string()));
    assert_eq!(store.get_bytes("nope", 0), None);
}

#[test]
fn mget_in_request_order() {
    let mut store = Store::new();
    respond(req(&["SET", "foo", "bar"]), &mut store, 0);
    let resp = respond(req(&["MGET", "foo", "missing"]), &mut store, 0);
    assert_eq!(
        resp,
        Frame::Array(vec![Frame::Bulk(b"bar".to_vec()), Frame::Integer(-1)])
    );
}

#[test]
fn del_removes_keys() {
    let mut store = Store::new();
    respond(req(&["SET", "a", "1"]), &mut store, 0);
    respond(req(&["SET", "b", "2"]), &mut store, 0);
    let resp = respond(req(&["DEL", "a", "b"]), &mut store, 0);
    assert_eq!(resp, Frame::Simple("OK".to_string()));
    assert_eq!(store.get_bytes("a", 0), None);
    assert_eq!(store.get_bytes("b", 0), None);
}

#[test]
fn ping_pongs() {
    let mut store = Store::new();
    let resp = respond(req(&["PING"]), &mut store, 0);
    assert_eq!(resp, Frame::Bulk(b"pong".to_vec()));
}

#[test]
fn lowercase_names_match() {
    let mut store = Store::new();
    let resp = respond(req(&["set", "k", "v"]), &mut store, 7);
    assert_eq!(resp, Frame::Simple("OK".to_string()));
    let resp = respond(req(&["get", "k"]), &mut store, 7);
    assert_eq!(resp, Frame::Bulk(b"v".to_vec()));
}

#[test]
fn unknown_command_is_error_response() {
    let mut store = Store::new();
    let resp = respond(req(&["FLY"]), &mut store, 0);
    assert_eq!(resp, Frame::Error("Unknown Command".to_string()));
}

#[test]
fn leftover_arguments_are_protocol_error() {
    let mut store = Store::new();
    let resp = respond(req(&["GET", "a", "b"]), &mut store, 0);
    assert!(matches!(resp, Frame::Error(_)));
    assert_ne!(resp, Frame::Error("Unknown Command".to_string()));
}

#[test]
fn missing_arguments_are_protocol_error() {
    let mut store = Store::new();
    let resp = respond(req(&["GET"]), &mut store, 0);
    assert!(matches!(resp, Frame::Error(_)));
    let resp = respond(req(&["SET", "only-key"]), &mut store, 0);
    assert!(matches!(resp, Frame::Error(_)));
}

#[test]
fn non_array_request_is_protocol_error() {
    let mut store = Store::new();
    let resp = respond(Frame::Simple("GET".to_string()), &mut store, 0);
    assert!(matches!(resp, Frame::Error(_)));
}

#[test]
fn unknown_set_keyword_names_token() {
    let mut store = Store::new();
    let resp = respond(req(&["SET", "k", "v", "BOGUS"]), &mut store, 0);
    match resp {
        Frame::Error(m) => assert!(m.contains("BOGUS")),
        other => panic!("expected an error frame, got {:?}", other),
    }
}

#[test]
fn stored_non_integer_fails_decrby() {
    let mut store = Store::new();
    respond(req(&["SET", "k", "pear"]), &mut store, 0);
    let resp = respond(req(&["DECRBY", "k", "1"]), &mut store, 0);
    assert!(matches!(resp, Frame::Error(_)));
    assert_eq!(store.get_bytes("k", 0), Some(b"pear".to_vec()));
}

#[test]
fn set_with_expiry_expires_lazily() {
    let mut store = Store::new();
    let resp = respond(req(&["SET", "k", "v", "EX", "10"]), &mut store, 0);
    assert_eq!(resp, Frame::Simple("OK".to_string()));
    assert_eq!(store.get_bytes("k", 9_999), Some(b"v".to_vec()));
    assert_eq!(store.get_bytes("k", 10_000), None);
    assert_eq!(store.get_bytes("k", 20_000), None);
}

#[test]
fn pxat_sets_absolute_expiry() {
    let mut store = Store::new();
    respond(req(&["SET", "k", "v", "PXAT", "500"]), &mut store, 100);
    assert_eq!(store.get_bytes("k", 499), Some(b"v".to_vec()));
    assert_eq!(store.get_bytes("k", 500), None);
}

#[test]
fn set_nx_and_xx_preconditions() {
    let mut store = Store::new();
    let resp = respond(req(&["SET", "k", "v1", "XX"]), &mut store, 0);
    assert_eq!(resp, Frame::Integer(-1));
    assert_eq!(store.get_bytes("k", 0), None);

    respond(req(&["SET", "k", "v1"]), &mut store, 0);
    let resp = respond(req(&["SET", "k", "v2", "NX"]), &mut store, 0);
    assert_eq!(resp, Frame::Integer(-1));
    assert_eq!(store.get_bytes("k", 0), Some(b"v1".to_vec()));
}

#[test]
fn set_get_flag_returns_previous() {
    let mut store = Store::new();
    respond(req(&["SET", "k", "old"]), &mut store, 0);
    let resp = respond(req(&["SET", "k", "new", "GET"]), &mut store, 0);
    assert_eq!(resp, Frame::Bulk(b"old".to_vec()));
    assert_eq!(store.get_bytes("k", 0), Some(b"new".to_vec()));
}

#[test]
fn set_keepttl_preserves_expiry() {
    let mut store = Store::new();
    respond(req(&["SET", "k", "v1", "PX", "100"]), &mut store, 0);
    respond(req(&["SET", "k", "v2", "KEEPTTL"]), &mut store, 0);
    assert_eq!(store.get_bytes("k", 50), Some(b"v2".to_vec()));
    assert_eq!(store.get_bytes("k", 100), None);
}

#[test]
fn purge_removes_due_entries_and_reports_next() {
    let mut store = Store::new();
    store.set_bytes("a", b"1".to_vec(), Some(100));
    store.set_bytes("b", b"2".to_vec(), Some(200));
    store.set_bytes("c", b"3".to_vec(), None);

    assert_eq!(store.purge_expired(50), Some(100));
    assert_eq!(store.get_bytes("a", 50), Some(b"1".to_vec()));

    assert_eq!(store.purge_expired(100), Some(200));
    assert_eq!(store.get_bytes("a", 100), None);
    assert_eq!(store.get_bytes("b", 150), Some(b"2".to_vec()));

    assert_eq!(store.purge_expired(500), None);
    assert_eq!(store.get_bytes("b", 150), None);
    assert_eq!(store.get_bytes("c", 500), Some(b"3".to_vec()));
}

#[test]
fn overwrite_replaces_expiry_index_pair() {
    let mut store = Store::new();
    store.set_bytes("k", b"v1".to_vec(), Some(100));
    store.set_bytes("k", b"v2".to_vec(), Some(300));
    assert_eq!(store.get_bytes("k", 200), Some(b"v2".to_vec()));
    assert_eq!(store.purge_expired(250), Some(300));
    assert_eq!(store.get_bytes("k", 200), Some(b"v2".to_vec()));
    assert_eq!(store.purge_expired(300), None);
    assert_eq!(store.get_bytes("k", 200), None);
}

#[test]
fn update_keeps_expiry() {
    let mut store = Store::new();
    store.set_bytes("k", b"v1".to_vec(), Some(100));
    store.update_bytes("k", b"v2".to_vec());
    assert_eq!(store.get_bytes("k", 99), Some(b"v2".to_vec()));
    assert_eq!(store.get_bytes("k", 100), None);
}

#[test]
fn remove_returns_previous_bytes() {
    let mut store = Store::new();
    store.set_bytes("k", b"v".to_vec(), Some(100));
    assert_eq!(store.remove("k"), Some(b"v".to_vec()));
    assert_eq!(store.remove("k"), None);
    assert_eq!(store.purge_expired(1_000), None);
}

#[test]
fn frame_iter_typed_extraction() {
    let mut iter = FrameIter::new(vec![
        Frame::Simple("GET".to_string()),
        Frame::Bulk(b"12".to_vec()),
        Frame::Integer(3),
    ]);
    assert_eq!(iter.next_string(), Ok("GET".to_string()));
    assert_eq!(iter.next_int(), Ok(12));
    assert!(iter.has_remaining());
    assert!(iter.finish().is_err());
    assert_eq!(iter.next_int(), Ok(3));
    assert!(!iter.has_remaining());
    assert_eq!(iter.finish(), Ok(()));
    assert!(matches!(
        iter.next_string(),
        Err(mini_redis::frame::FrameError::EndOfStream)
    ));
}

#[test]
fn read_step_decisions() {
    let mut buffer = b"*1\r\n$4\r\nPING\r\n".to_vec();
    match extract_frame(&mut buffer) {
        ReadStep::Frame(f) => assert_eq!(f, Frame::Array(vec![Frame::Bulk(b"PING".to_vec())])),
        other => panic!("expected a frame, got {:?}", other),
    }
    assert!(buffer.is_empty());

    let mut buffer = b"*1\r\n$4\r\nPI".to_vec();
    assert!(matches!(extract_frame(&mut buffer), ReadStep::NeedMore));
    assert_eq!(buffer, b"*1\r\n$4\r\nPI".to_vec());

    let mut buffer = b"!oops\r\n".to_vec();
    assert!(matches!(extract_frame(&mut buffer), ReadStep::Bad(_)));
    assert!(buffer.is_empty());

    assert_eq!(on_zero_read(0), EofKind::CleanClose);
    assert_eq!(on_zero_read(12), EofKind::Reset);
}

#[test]
fn pipelined_requests_each_get_a_response() {
    let mut store = Store::new();
    let mut buffer: Vec<u8> = Vec::new();
    buffer.extend_from_slice(&req(&["SET", "foo", "bar"]).to_protocol().unwrap());
    buffer.extend_from_slice(&req(&["GET", "foo"]).to_protocol().unwrap());

    match extract_frame(&mut buffer) {
        ReadStep::Frame(f) => {
            assert_eq!(respond(f, &mut store, 0), Frame::Simple("OK".to_string()));
        }
        other => panic!("expected the first frame, got {:?}", other),
    }
    assert!(!buffer.is_empty(), "the second request must stay buffered");
    match extract_frame(&mut buffer) {
        ReadStep::Frame(f) => {
            assert_eq!(respond(f, &mut store, 0), Frame::Bulk(b"bar".to_vec()));
        }
        other => panic!("expected the second frame, got {:?}", other),
    }
    assert!(buffer.is_empty());
}

#[test]
fn mget_non_string_argument_is_error() {
    let mut store = Store::new();
    respond(req(&["SET", "foo", "bar"]), &mut store, 0);
    let frame = Frame::Array(vec![
        Frame::Bulk(b"MGET".to_vec()),
        Frame::Bulk(b"foo".to_vec()),
        Frame::Integer(5),
    ]);
    let resp = respond(frame, &mut store, 0);
    assert!(matches!(resp, Frame::Error(_)));
    assert_ne!(resp, Frame::Error("Unknown Command".to_string()));
}

#[test]
fn del_non_string_argument_is_error() {
    let mut store = Store::new();
    respond(req(&["SET", "foo", "bar"]), &mut store, 0);
    let frame = Frame::Array(vec![
        Frame::Bulk(b"DEL".to_vec()),
        Frame::Integer(5),
        Frame::Bulk(b"foo".to_vec()),
    ]);
    let resp = respond(frame, &mut store, 0);
    assert!(matches!(resp, Frame::Error(_)));
    assert_eq!(store.get_bytes("foo", 0), Some(b"bar".to_vec()));
}

#[test]
fn getdel_removes_and_returns() {
    let mut store = Store::new();
    store.set_bytes("k", b"v".to_vec(), None);
    let mut iter = FrameIter::new(vec![Frame::Bulk(b"k".to_vec())]);
    let cmd = mini_redis::cmd::GetDel::parse_frames(&mut iter).unwrap();
    let resp = cmd.execute(&mut store);
    assert_eq!(resp, Frame::Bulk(b"v".to_vec()));
    assert_eq!(store.get_bytes("k", 0), None);
}

#[test]
fn command_info_to_frame() {
    let info = mini_redis::cmd::CommandInfo::new("get".to_string(), 2, Vec::new());
    let frame = info.to_frame();
    assert_eq!(frame, Frame::Array(vec![Frame::Simple("get".to_string())]));
}
