use mcp_core::codec::DecodeError;
use mcp_core::message::{decode_message, encode_message, ErrorDescriptor, Message, Outcome};
use mcp_core::value::Value;

fn obj(fields: Vec<(&[u8], Value)>) -> Value {
    Value::Obj(fields.into_iter().map(|(k, v)| (k.to_vec(), v)).collect())
}

fn request(id: u64, method: &[u8], params: Value) -> Message {
    Message::Request {
        id,
        method: method.to_vec(),
        params,
    }
}

#[test]
fn encode_request_exact_bytes() {
    let m = request(1, b"ping", obj(vec![]));
    let bytes = encode_message(m);
    assert_eq!(bytes, b"{\"id\":1,\"method\":\"ping\",\"params\":{}}".to_vec());
}

#[test]
fn decode_request_exact() {
    let bytes = b"{\"id\":1,\"method\":\"ping\",\"params\":{}}";
    let m = decode_message(bytes).unwrap();
    assert_eq!(m, request(1, b"ping", obj(vec![])));
}

#[test]
fn round_trip_request_with_arguments() {
    let m = request(
        42,
        b"tools/call",
        obj(vec![
            (b"name", Value::Str(b"add".to_vec())),
            (
                b"arguments",
                obj(vec![(b"a", Value::Int(3)), (b"b", Value::Int(2))]),
            ),
        ]),
    );
    let bytes = encode_message(m);
    let m2 = decode_message(&bytes).unwrap();
    let again = encode_message(m2);
    assert_eq!(bytes, again);
}

#[test]
fn round_trip_notification() {
    let m = Message::Notification {
        method: b"progress".to_vec(),
        params: obj(vec![(b"pct", Value::Int(50))]),
    };
    let bytes = encode_message(m);
    let m2 = decode_message(&bytes).unwrap();
    assert_eq!(
        m2,
        Message::Notification {
            method: b"progress".to_vec(),
            params: obj(vec![(b"pct", Value::Int(50))]),
        }
    );
}

#[test]
fn round_trip_success_response() {
    let m = Message::Response {
        id: 7,
        outcome: Outcome::Success(Value::Arr(vec![
            Value::Null,
            Value::Bool(true),
            Value::Bool(false),
            Value::Str(b"hi".to_vec()),
        ])),
    };
    let bytes = encode_message(m);
    let m2 = decode_message(&bytes).unwrap();
    let again = encode_message(m2);
    assert_eq!(bytes, again);
}

#[test]
fn round_trip_error_response() {
    let m = Message::Response {
        id: 9,
        outcome: Outcome::Failure(ErrorDescriptor {
            code: -32601,
            message: b"method not found".to_vec(),
        }),
    };
    let bytes = encode_message(m);
    assert_eq!(
        bytes,
        b"{\"id\":9,\"error\":{\"code\":-32601,\"message\":\"method not found\"}}".to_vec()
    );
    let m2 = decode_message(&bytes).unwrap();
    match m2 {
        Message::Response { id, outcome } => {
            assert_eq!(id, 9);
            match outcome {
                Outcome::Failure(e) => {
                    assert_eq!(e.code, -32601);
                    assert_eq!(e.message, b"method not found".to_vec());
                }
                _ => panic!("expected an error outcome"),
            }
        }
        _ => panic!("expected a response"),
    }
}

#[test]
fn round_trip_extreme_integers() {
    let m = request(
        1,
        b"m",
        obj(vec![
            (b"lo", Value::Int(i64::MIN)),
            (b"hi", Value::Int(i64::MAX)),
            (b"z", Value::Int(0)),
        ]),
    );
    let bytes = encode_message(m);
    let m2 = decode_message(&bytes).unwrap();
    assert_eq!(
        m2,
        request(
            1,
            b"m",
            obj(vec![
                (b"lo", Value::Int(i64::MIN)),
                (b"hi", Value::Int(i64::MAX)),
                (b"z", Value::Int(0)),
            ])
        )
    );
}

#[test]
fn truncated_input_is_incomplete() {
    assert_eq!(
        decode_message(b"{\"id\":1,\"method\":\"pi"),
        Err(DecodeError::Incomplete)
    );
    assert_eq!(decode_message(b"{"), Err(DecodeError::Incomplete));
    assert_eq!(decode_message(b""), Err(DecodeError::Incomplete));
}

#[test]
fn malformed_input_is_malformed() {
    assert_eq!(decode_message(b"nope"), Err(DecodeError::Malformed));
    assert_eq!(
        decode_message(b"{\"id\":01,\"method\":\"p\",\"params\":{}}"),
        Err(DecodeError::Malformed)
    );
    assert_eq!(
        decode_message(b"{\"id\":-0,\"method\":\"p\",\"params\":{}}"),
        Err(DecodeError::Malformed)
    );
    // a raw control byte inside a string can never appear on the wire
    assert_eq!(
        decode_message(b"{\"id\":1,\"method\":\"p\x01\",\"params\":{}}"),
        Err(DecodeError::Malformed)
    );
}

#[test]
fn wrong_shape_is_unknown_shape() {
    // a structurally valid record that is not a message shape
    assert_eq!(
        decode_message(b"{\"id\":1}"),
        Err(DecodeError::UnknownShape)
    );
    assert_eq!(decode_message(b"[]"), Err(DecodeError::UnknownShape));
}

#[test]
fn round_trip_nested_containers() {
    let m = request(
        3,
        b"m",
        obj(vec![
            (b"empty_arr", Value::Arr(vec![])),
            (b"empty_obj", obj(vec![])),
            (
                b"nested",
                Value::Arr(vec![
                    Value::Arr(vec![Value::Int(1), Value::Int(2)]),
                    obj(vec![(b"deep", Value::Arr(vec![Value::Null]))]),
                ]),
            ),
        ]),
    );
    let bytes = encode_message(m);
    let m2 = decode_message(&bytes).unwrap();
    let again = encode_message(m2);
    assert_eq!(bytes, again);
}
