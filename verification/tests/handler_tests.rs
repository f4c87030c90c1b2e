use key_store_lite::{acknowledgement, CodecError, HandlerState, Store};

#[test]
fn acknowledgement_is_the_bytes_of_key() {
    assert_eq!(acknowledgement(), b"key".to_vec());
}

#[test]
fn full_connection_walk() {
    let mut store = Store::new();
    let mut handler = HandlerState::new();
    assert!(matches!(handler, HandlerState::Accepted));

    handler.begin();
    assert!(matches!(handler, HandlerState::ReadingHeader));

    handler.header_received(&b"PUT 27    ".to_vec());
    let length = match &handler {
        HandlerState::ReadingPayload { command, length } => {
            assert_eq!(command, &b"PUT".to_vec());
            *length
        },
        _ => panic!("header should decode"),
    };
    assert_eq!(length, 27);

    let payload = b"{\"key\":\"a\",\"value\":\"b\"}    ".to_vec();
    assert_eq!(payload.len(), 27);
    handler.payload_received(&payload);
    match &handler {
        HandlerState::Decoded { request } => {
            assert_eq!(request.key, "a");
            assert_eq!(request.value, "b");
        },
        _ => panic!("payload should decode"),
    }

    handler.commit(&mut store);
    assert!(matches!(handler, HandlerState::Committed));
    assert_eq!(store.get(&"a".to_string()), Some(&"b".to_string()));

    handler.acknowledged();
    assert!(matches!(handler, HandlerState::Acknowledged));

    handler.closed();
    assert!(matches!(handler, HandlerState::Closed));
}

#[test]
fn malformed_header_fails_and_store_is_untouched() {
    let store = Store::new();
    let mut handler = HandlerState::new();
    handler.begin();
    handler.header_received(&b"PUT abc   ".to_vec());
    match &handler {
        HandlerState::Failed { error } => assert_eq!(*error, CodecError::ParseError),
        _ => panic!("handler should fail"),
    }
    assert_eq!(store.get(&"a".to_string()), None);
}

#[test]
fn short_header_fails_with_frame_error() {
    let mut handler = HandlerState::new();
    handler.begin();
    handler.header_received(&b"PUT 2".to_vec());
    match &handler {
        HandlerState::Failed { error } => assert_eq!(*error, CodecError::FrameError),
        _ => panic!("handler should fail"),
    }
}

#[test]
fn truncated_payload_fails_and_store_is_untouched() {
    let store = Store::new();
    let mut handler = HandlerState::new();
    handler.begin();
    handler.header_received(&b"PUT 27    ".to_vec());
    assert!(matches!(handler, HandlerState::ReadingPayload { .. }));
    handler.payload_received(&b"{\"key\":\"a\"".to_vec());
    match &handler {
        HandlerState::Failed { error } => assert_eq!(*error, CodecError::IoError),
        _ => panic!("handler should fail"),
    }
    assert_eq!(store.get(&"a".to_string()), None);
}

#[test]
fn bad_payload_fails_with_decode_error() {
    let mut handler = HandlerState::new();
    handler.begin();
    handler.header_received(&b"PUT 7     ".to_vec());
    handler.payload_received(&b"not {} json".to_vec());
    match &handler {
        HandlerState::Failed { error } => assert_eq!(*error, CodecError::DecodeError),
        _ => panic!("handler should fail"),
    }
}

#[test]
fn io_failure_can_fail_any_live_state() {
    let mut handler = HandlerState::new();
    handler.fail(CodecError::IoError);
    match &handler {
        HandlerState::Failed { error } => assert_eq!(*error, CodecError::IoError),
        _ => panic!("handler should fail"),
    }
}

#[test]
fn identical_frame_twice_is_idempotent() {
    let mut store = Store::new();
    for _ in 0..2 {
        let mut handler = HandlerState::new();
        handler.begin();
        handler.header_received(&b"PUT 23    ".to_vec());
        handler.payload_received(&b"{\"key\":\"a\",\"value\":\"b\"}".to_vec());
        handler.commit(&mut store);
    }
    assert_eq!(store.get(&"a".to_string()), Some(&"b".to_string()));
}
