use smsg_gateway::msg::{decode_message, Message, MessageError, Request, Response};

fn decode(payload: &[u8]) -> Result<Message, MessageError> {
    decode_message(&payload.to_vec())
}

#[test]
fn response_shaped_start_line_parses_as_response() {
    match decode(b"SMSG/0.1 7 200 OK\n").unwrap() {
        Message::Response(r) => {
            assert_eq!(r.protocol, "SMSG");
            assert_eq!(r.version, "0.1");
            assert_eq!(r.id, 7);
            assert_eq!(r.code, 200);
            assert_eq!(r.text, "OK");
            assert!(r.body.is_none());
        },
        Message::Request(_) => panic!("parsed as request"),
    }
}

#[test]
fn request_shaped_start_line_parses_as_request() {
    match decode(b"7 create widget SMSG/0.1\n").unwrap() {
        Message::Request(r) => {
            assert_eq!(r.id, 7);
            assert_eq!(r.action, "create");
            assert_eq!(r.kind, "widget");
            assert_eq!(r.protocol, "SMSG");
            assert_eq!(r.version, "0.1");
            assert!(r.body.is_none());
        },
        Message::Response(_) => panic!("parsed as response"),
    }
}

#[test]
fn request_round_trips_without_body() {
    let m = Request::new(
        "SMSG".to_string(),
        "0.1".to_string(),
        7,
        "create".to_string(),
        "widget".to_string(),
        None,
    );
    let payload = m.encode();
    assert_eq!(payload, b"7 create widget SMSG/0.1\n".to_vec());
    match decode_message(&payload).unwrap() {
        Message::Request(r) => {
            assert_eq!(r.protocol, "SMSG");
            assert_eq!(r.version, "0.1");
            assert_eq!(r.id, 7);
            assert_eq!(r.action, "create");
            assert_eq!(r.kind, "widget");
            assert!(r.body.is_none());
        },
        Message::Response(_) => panic!("parsed as response"),
    }
}

#[test]
fn request_round_trips_with_json_body() {
    let body = b"{\"a\": [1, 2]}".to_vec();
    let m = Request::new(
        "SMSG".to_string(),
        "0.1".to_string(),
        12,
        "set".to_string(),
        "lamp".to_string(),
        Some(body.clone()),
    );
    let payload = m.encode();
    assert_eq!(payload, b"12 set lamp SMSG/0.1\n{\"a\": [1, 2]}".to_vec());
    match decode_message(&payload).unwrap() {
        Message::Request(r) => {
            assert_eq!(r.id, 12);
            assert_eq!(r.action, "set");
            assert_eq!(r.kind, "lamp");
            assert_eq!(r.body.unwrap(), body);
        },
        Message::Response(_) => panic!("parsed as response"),
    }
}

#[test]
fn response_round_trips_with_json_body() {
    let body = b"{\"ok\": true}".to_vec();
    let m = Response::new(
        "SMSG".to_string(),
        "0.1".to_string(),
        3,
        404,
        "missing".to_string(),
        Some(body.clone()),
    );
    let payload = m.encode();
    assert_eq!(payload, b"SMSG/0.1 3 404 missing\n{\"ok\": true}".to_vec());
    match decode_message(&payload).unwrap() {
        Message::Response(r) => {
            assert_eq!(r.protocol, "SMSG");
            assert_eq!(r.version, "0.1");
            assert_eq!(r.id, 3);
            assert_eq!(r.code, 404);
            assert_eq!(r.text, "missing");
            assert_eq!(r.body.unwrap(), body);
        },
        Message::Request(_) => panic!("parsed as request"),
    }
}

#[test]
fn non_ascii_fields_round_trip() {
    let m = Request::new(
        "SMSG".to_string(),
        "0.1".to_string(),
        9,
        "caf\u{e9}".to_string(),
        "d\u{e9}cor".to_string(),
        None,
    );
    let payload = m.encode();
    match decode_message(&payload).unwrap() {
        Message::Request(r) => {
            assert_eq!(r.action, "caf\u{e9}");
            assert_eq!(r.kind, "d\u{e9}cor");
            assert_eq!(r.id, 9);
        },
        Message::Response(_) => panic!("parsed as response"),
    }
}

#[test]
fn three_tokens_are_malformed() {
    match decode(b"a b c\n") {
        Err(MessageError::MalformedStartLine { expected, found }) => {
            assert_eq!(expected, 4);
            assert_eq!(found, 3);
        },
        _ => panic!("expected a malformed start line error"),
    }
}

#[test]
fn five_tokens_are_malformed() {
    match decode(b"a b c d e\n") {
        Err(MessageError::MalformedStartLine { expected, found }) => {
            assert_eq!(expected, 4);
            assert_eq!(found, 5);
        },
        _ => panic!("expected a malformed start line error"),
    }
}

#[test]
fn repeated_separators_collapse_between_tokens() {
    match decode(b"  7\tcreate  widget   SMSG/0.1 \n").unwrap() {
        Message::Request(r) => {
            assert_eq!(r.id, 7);
            assert_eq!(r.action, "create");
            assert_eq!(r.kind, "widget");
        },
        Message::Response(_) => panic!("parsed as response"),
    }
}

#[test]
fn missing_newline_means_no_start_line() {
    assert!(matches!(decode(b"SMSG/0.1 7 200 OK"), Err(MessageError::NoStartLine)));
    assert!(matches!(decode(b""), Err(MessageError::NoStartLine)));
}

#[test]
fn invalid_utf8_start_line_is_rejected() {
    assert!(matches!(decode(&[0xff, 0xfe, b'\n']), Err(MessageError::ParseUtf8)));
}

#[test]
fn invalid_json_body_is_rejected() {
    assert!(matches!(decode(b"7 a b SMSG/0.1\nnot json"), Err(MessageError::DecodeJson)));
    assert!(matches!(decode(b"SMSG/0.1 7 200 OK\n{\"k\": }"), Err(MessageError::DecodeJson)));
}

#[test]
fn body_error_is_reported_before_token_count() {
    // The body is parsed before the start line's tokens are counted.
    assert!(matches!(decode(b"a b c\nnot json"), Err(MessageError::DecodeJson)));
}

#[test]
fn body_may_span_lines() {
    // Only the first newline cuts the start line; the body is the whole
    // remainder, newlines included.
    match decode(b"7 a b SMSG/0.1\n{\n  \"a\": 1\n}").unwrap() {
        Message::Request(r) => {
            assert_eq!(r.body.unwrap(), b"{\n  \"a\": 1\n}".to_vec());
        },
        Message::Response(_) => panic!("parsed as response"),
    }
}

#[test]
fn empty_remainder_after_newline_is_no_body() {
    match decode(b"7 a b SMSG/0.1\n").unwrap() {
        Message::Request(r) => assert!(r.body.is_none()),
        Message::Response(_) => panic!("parsed as response"),
    }
}

#[test]
fn non_numeric_request_id_is_rejected() {
    assert!(matches!(decode(b"x a b SMSG/0.1\n"), Err(MessageError::InvalidId)));
}

#[test]
fn non_numeric_response_id_is_rejected() {
    assert!(matches!(decode(b"SMSG/0.1 x 200 OK\n"), Err(MessageError::InvalidId)));
}

#[test]
fn non_numeric_response_code_is_rejected() {
    assert!(matches!(decode(b"SMSG/0.1 7 xx OK\n"), Err(MessageError::InvalidCode)));
}

#[test]
fn overlong_id_is_rejected() {
    assert!(matches!(
        decode(b"99999999999999999999999999 a b SMSG/0.1\n"),
        Err(MessageError::InvalidId)
    ));
}

#[test]
fn leading_plus_sign_on_id_is_accepted() {
    match decode(b"+7 a b SMSG/0.1\n").unwrap() {
        Message::Request(r) => assert_eq!(r.id, 7),
        Message::Response(_) => panic!("parsed as response"),
    }
}

#[test]
fn version_token_splits_at_first_slash() {
    match decode(b"7 a b SMSG/0.1/beta\n").unwrap() {
        Message::Request(r) => {
            assert_eq!(r.protocol, "SMSG");
            assert_eq!(r.version, "0.1/beta");
        },
        Message::Response(_) => panic!("parsed as response"),
    }
}

#[test]
fn proto_token_without_slash_has_empty_version() {
    match decode(b"7 a b SMSG\n").unwrap() {
        Message::Request(r) => {
            assert_eq!(r.protocol, "SMSG");
            assert_eq!(r.version, "");
        },
        Message::Response(_) => panic!("parsed as response"),
    }
}
