use busclient::auth::{auth_identity, auth_line, begin_line, parse_auth_response};
use busclient::client::{match_reply, Correlator, ReplyAction, MSG_ERROR, MSG_METHOD_RETURN};
use busclient::connect::{resolve_bus_path, BusPath};
use busclient::error::Error;
use busclient::frame::{build_method_call, build_method_call_fields, dispatch_frame, encode_message,
    frame_endian, needed_length};
use busclient::scalar::Endian;
use busclient::transport::Transport;
use busclient::value::Value;

#[test]
fn auth_identity_encodes_digit_characters() {
    // uid 1000 -> "1000" -> the hex of each ASCII digit
    assert_eq!(auth_identity(1000), b"31303030".to_vec());
    assert_eq!(auth_identity(0), b"30".to_vec());
}

#[test]
fn auth_lines_are_literal() {
    let line = auth_line(&b"31303030".to_vec());
    assert_eq!(line, b"\0AUTH EXTERNAL 31303030\r\n".to_vec());
    assert_eq!(begin_line(), b"BEGIN\r\n".to_vec());
}

#[test]
fn handshake_accepts_ok_reply() {
    let guid: Vec<u8> = b"0123456789abcdef0123456789abcdef".to_vec();
    let mut line = b"OK ".to_vec();
    line.extend_from_slice(&guid);
    line.extend_from_slice(b"\r\n");
    assert_eq!(parse_auth_response(&line).unwrap(), guid);
}

#[test]
fn handshake_rejects_bad_replies() {
    assert_eq!(
        parse_auth_response(&b"REJECTED EXTERNAL\r\n".to_vec()),
        Err(Error::Authenticate)
    );
    // missing the \r\n ending
    assert_eq!(
        parse_auth_response(&b"OK 0123456789abcdef0123456789abcdef".to_vec()),
        Err(Error::Authenticate)
    );
    assert_eq!(parse_auth_response(&b"OK \r\n".to_vec()), Err(Error::Authenticate));
}

#[test]
fn transport_fill_consume_keeps_bytes() {
    let mut t = Transport::new();
    t.fill(&vec![1, 2, 3, 4, 5]);
    assert_eq!(t.available(), 5);
    t.consume(2);
    assert_eq!(t.available(), 3);
    assert_eq!(t.peek(3), vec![3, 4, 5]);
    t.fill(&vec![6, 7]);
    assert_eq!(t.available(), 5);
    t.consume(3);
    assert_eq!(t.peek(2), vec![6, 7]);
    t.send(&vec![9, 8]);
    assert_eq!(t.take_send(), vec![9, 8]);
    assert_eq!(t.take_send(), Vec::<u8>::new());
}

#[test]
fn serials_strictly_increase() {
    let mut c = Correlator::new();
    let s1 = c.allocate_serial();
    let s2 = c.allocate_serial();
    assert_eq!(s1, 1);
    assert_eq!(s2, 2);
    assert!(s2 > s1);
}

#[test]
fn wrong_reply_serial_is_ignored() {
    let r = match_reply(7, MSG_METHOD_RETURN, Some(8), None, vec![Value::Byte(1)]);
    assert_eq!(r, ReplyAction::Ignore);
    let r = match_reply(7, MSG_METHOD_RETURN, None, None, vec![]);
    assert_eq!(r, ReplyAction::Ignore);
}

#[test]
fn error_reply_surfaces_bus_error() {
    let r = match_reply(
        7,
        MSG_ERROR,
        Some(7),
        Some(b"org.freedesktop.DBus.Error.ServiceUnknown".to_vec()),
        vec![Value::Str(b"no such name".to_vec())],
    );
    match r {
        ReplyAction::Fail(name, body) => {
            assert_eq!(name, b"org.freedesktop.DBus.Error.ServiceUnknown".to_vec());
            assert_eq!(body, vec![Value::Str(b"no such name".to_vec())]);
        },
        _ => panic!("expected a bus error"),
    }
}

#[test]
fn resolve_session_address() {
    assert_eq!(
        resolve_bus_path(BusPath::Session, Some(&b"unix:path=/run/bus".to_vec())).unwrap(),
        b"/run/bus".to_vec()
    );
    assert_eq!(
        resolve_bus_path(BusPath::Session, Some(&b"tcp:host=x".to_vec())),
        Err(Error::Connect)
    );
    assert_eq!(resolve_bus_path(BusPath::Session, None), Err(Error::Connect));
    let p = b"/tmp/sock".to_vec();
    assert_eq!(resolve_bus_path(BusPath::UnixSocketFile(&p), None).unwrap(), p);
}

#[test]
fn method_call_frame_prologue() {
    // the ListNames call: no body, so no signature field
    let frame = build_method_call(
        Endian::Little,
        1,
        &b"org.freedesktop.DBus".to_vec(),
        &b"/org/freedesktop/DBus".to_vec(),
        &b"org.freedesktop.DBus".to_vec(),
        &b"ListNames".to_vec(),
        None,
    )
    .unwrap();
    assert_eq!(&frame[0..4], &[108, 1, 0, 1]);
    // no body: length zero
    assert_eq!(&frame[4..8], &[0, 0, 0, 0]);
    // the serial
    assert_eq!(&frame[8..12], &[1, 0, 0, 0]);
    // the prologue announces exactly the frame that was built
    assert_eq!(needed_length(Endian::Little, &frame), Some(frame.len()));
}

#[test]
fn method_call_carries_body_signature() {
    // a call with a body gets a signature field matching the body exactly
    let frame = build_method_call(
        Endian::Little,
        2,
        &b"org.freedesktop.DBus".to_vec(),
        &b"/org/freedesktop/DBus".to_vec(),
        &b"org.freedesktop.DBus.Properties".to_vec(),
        &b"Get".to_vec(),
        Some(Value::Struct(vec![
            Value::Str(b"org.mpris.MediaPlayer2.Player".to_vec()),
            Value::Str(b"PlaybackStatus".to_vec()),
        ])),
    )
    .unwrap();
    // the frame is internally consistent: it parses as a whole frame and
    // its body decodes back against the declared signature
    assert_eq!(needed_length(Endian::Little, &frame), Some(frame.len()));
    assert!(dispatch_frame(&frame, 7).is_ok());
}

#[test]
fn build_method_call_rejects_bad_body() {
    // an array whose element does not match its declared element type
    // cannot be put on the wire
    let bad = Value::Array(b"s".to_vec(), vec![Value::Uint32(5)]);
    let r = build_method_call(
        Endian::Little,
        1,
        &b"d".to_vec(),
        &b"/".to_vec(),
        &b"i".to_vec(),
        &b"m".to_vec(),
        Some(bad),
    );
    assert_eq!(r, Err(Error::Malformed));
}

#[test]
fn frame_endian_markers() {
    assert_eq!(frame_endian(108), Ok(Endian::Little));
    assert_eq!(frame_endian(66), Ok(Endian::Big));
    assert_eq!(frame_endian(0), Err(Error::Malformed));
    assert_eq!(frame_endian(76), Err(Error::Malformed));
}

fn reply_fields(serial: u32, body_sig: &[u8], error_name: Option<&[u8]>) -> Value {
    let mut entries = vec![Value::Struct(vec![
        Value::Byte(5),
        Value::Variant(b"u".to_vec(), Box::new(Value::Uint32(serial))),
    ])];
    if !body_sig.is_empty() {
        entries.push(Value::Struct(vec![
            Value::Byte(8),
            Value::Variant(b"g".to_vec(), Box::new(Value::Signature(body_sig.to_vec()))),
        ]));
    }
    if let Some(name) = error_name {
        entries.push(Value::Struct(vec![
            Value::Byte(4),
            Value::Variant(b"s".to_vec(), Box::new(Value::Str(name.to_vec()))),
        ]));
    }
    Value::Array(b"(yv)".to_vec(), entries)
}

#[test]
fn list_names_reply_round_trip() {
    // a mock server's method-return to ListNames: body is an array of
    // strings that contains the bus's own name
    let body_val = Value::Array(
        b"s".to_vec(),
        vec![
            Value::Str(b"org.freedesktop.DBus".to_vec()),
            Value::Str(b":1.7".to_vec()),
        ],
    );
    let hf = reply_fields(99, b"as", None);
    let frame = encode_message(Endian::Little, 2, 1, 41, &hf, &vec![body_val]);
    assert_eq!(needed_length(Endian::Little, &frame), Some(frame.len()));
    match dispatch_frame(&frame, 99).unwrap() {
        ReplyAction::Return(body) => match body.into_iter().next() {
            Some(Value::Array(_, names)) => {
                assert!(names.contains(&Value::Str(b"org.freedesktop.DBus".to_vec())));
            },
            _ => panic!("body must decode as an array of strings"),
        },
        _ => panic!("a matching method-return must yield its body"),
    }
    // the same frame answers nothing when another serial is pending
    let hf = reply_fields(99, b"as", None);
    let body_val = Value::Array(b"s".to_vec(), vec![Value::Str(b"x".to_vec())]);
    let frame = encode_message(Endian::Little, 2, 1, 41, &hf, &vec![body_val]);
    assert_eq!(dispatch_frame(&frame, 100).unwrap(), ReplyAction::Ignore);
}

#[test]
fn playback_status_reply_round_trip() {
    // a mock reply to Properties.Get: a variant holding a string
    let body_val = Value::Variant(b"s".to_vec(), Box::new(Value::Str(b"Playing".to_vec())));
    let hf = reply_fields(3, b"v", None);
    let frame = encode_message(Endian::Little, 2, 1, 8, &hf, &vec![body_val]);
    match dispatch_frame(&frame, 3).unwrap() {
        ReplyAction::Return(body) => match body.into_iter().next() {
            Some(Value::Variant(sv, inner)) => {
                assert_eq!(sv, b"s".to_vec());
                let status = *inner;
                assert!(
                    status == Value::Str(b"Playing".to_vec())
                        || status == Value::Str(b"Paused".to_vec())
                        || status == Value::Str(b"Stopped".to_vec())
                );
            },
            _ => panic!("body must decode as a variant"),
        },
        _ => panic!("a matching method-return must yield its body"),
    }
}

#[test]
fn error_reply_round_trip() {
    // a mock error frame for the pending call surfaces the bus error name
    let hf = reply_fields(5, b"s", Some(b"org.freedesktop.DBus.Error.ServiceUnknown"));
    let body_val = Value::Str(b"gone".to_vec());
    let frame = encode_message(Endian::Little, 3, 1, 12, &hf, &vec![body_val]);
    match dispatch_frame(&frame, 5).unwrap() {
        ReplyAction::Fail(name, body) => {
            assert_eq!(name, b"org.freedesktop.DBus.Error.ServiceUnknown".to_vec());
            assert_eq!(body, vec![Value::Str(b"gone".to_vec())]);
        },
        _ => panic!("a matching error frame must fail the call"),
    }
}

#[test]
fn malformed_frames_are_fatal() {
    // an unknown byte-order marker
    let mut frame = vec![0u8; 16];
    frame[0] = 7;
    assert_eq!(dispatch_frame(&frame, 1), Err(Error::Malformed));
    // a declared body that runs past the frame's end
    let hf = reply_fields(9, b"s", None);
    let body_val = Value::Str(b"hello".to_vec());
    let mut frame = encode_message(Endian::Little, 2, 1, 2, &hf, &vec![body_val]);
    frame.truncate(frame.len() - 3);
    assert_eq!(dispatch_frame(&frame, 9), Err(Error::Malformed));
    // trailing garbage after the declared body is inconsistent framing
    let hf = reply_fields(9, b"s", None);
    let body_val = Value::Str(b"hello".to_vec());
    let mut frame = encode_message(Endian::Little, 2, 1, 2, &hf, &vec![body_val]);
    frame.push(0);
    assert_eq!(dispatch_frame(&frame, 9), Err(Error::Malformed));
}
