use mcp_core::errors::ProtocolError;
use mcp_core::message::{Message, Outcome};
use mcp_core::router::{Handler, ParamField, ParamSchema, ToolDescriptor, ToolRouter, ValueKind};
use mcp_core::session::{ServerConfig, SessionManager};
use mcp_core::value::Value;

fn add_router() -> ToolRouter {
    let mut r = ToolRouter::new();
    assert!(r.register(
        ToolDescriptor {
            name: b"add".to_vec(),
            description: b"Adds a and b".to_vec(),
            schema: ParamSchema {
                required: vec![
                    ParamField {
                        name: b"a".to_vec(),
                        kind: ValueKind::Int,
                    },
                    ParamField {
                        name: b"b".to_vec(),
                        kind: ValueKind::Int,
                    },
                ],
            },
        },
        Handler::Add,
    ));
    r
}

fn config() -> ServerConfig {
    ServerConfig {
        protocol_version: b"2025-03-26".to_vec(),
        name: b"calculator".to_vec(),
        version: b"0.1.0".to_vec(),
        instructions: b"A simple calculator tool".to_vec(),
        capabilities: vec![(b"tools".to_vec(), Value::Obj(vec![]))],
    }
}

fn manager() -> SessionManager {
    SessionManager::new(add_router(), config())
}

fn init_session(m: &mut SessionManager, sid: u64, now: u64) {
    let reply = m
        .dispatch(
            sid,
            Message::Request {
                id: 1,
                method: b"initialize".to_vec(),
                params: Value::Obj(vec![]),
            },
            now,
        )
        .unwrap();
    match reply.expect("the handshake draws a reply") {
        Message::Response {
            outcome: Outcome::Success(_),
            ..
        } => {}
        other => panic!("the handshake did not succeed: {:?}", other),
    }
}

fn call_add(id: u64, a: i64, b: i64) -> Message {
    Message::Request {
        id,
        method: b"tools/call".to_vec(),
        params: Value::Obj(vec![
            (b"name".to_vec(), Value::Str(b"add".to_vec())),
            (
                b"arguments".to_vec(),
                Value::Obj(vec![
                    (b"a".to_vec(), Value::Int(a)),
                    (b"b".to_vec(), Value::Int(b)),
                ]),
            ),
        ]),
    }
}

fn expect_success_value(reply: Option<Message>) -> (u64, Value) {
    match reply.expect("expected a reply") {
        Message::Response {
            id,
            outcome: Outcome::Success(v),
        } => (id, v),
        other => panic!("expected a success response, got {:?}", other),
    }
}

#[test]
fn unknown_session_is_rejected() {
    let mut m = manager();
    let r = m.dispatch(12345, call_add(1, 1, 1), 0);
    assert_eq!(r, Err(ProtocolError::UnknownSession));
}

#[test]
fn call_through_session_adds() {
    let mut m = manager();
    let sid = m.create_session(0).unwrap();
    init_session(&mut m, sid, 0);
    let reply = m.dispatch(sid, call_add(7, 3, 2), 1).unwrap();
    let (id, v) = expect_success_value(reply);
    assert_eq!(id, 7);
    let expected = Value::Obj(vec![
        (
            b"content".to_vec(),
            Value::Arr(vec![Value::Obj(vec![
                (b"type".to_vec(), Value::Str(b"text".to_vec())),
                (b"text".to_vec(), Value::Str(b"5".to_vec())),
            ])]),
        ),
        (b"isError".to_vec(), Value::Bool(false)),
    ]);
    assert_eq!(v, expected);
}

#[test]
fn initialize_reports_identity() {
    let mut m = manager();
    let sid = m.create_session(0).unwrap();
    let reply = m
        .dispatch(
            sid,
            Message::Request {
                id: 1,
                method: b"initialize".to_vec(),
                params: Value::Obj(vec![]),
            },
            0,
        )
        .unwrap();
    let (_, v) = expect_success_value(reply);
    match v {
        Value::Obj(fields) => {
            assert_eq!(fields[0].0, b"protocolVersion".to_vec());
            assert_eq!(fields[0].1, Value::Str(b"2025-03-26".to_vec()));
            assert_eq!(fields[4].0, b"instructions".to_vec());
            assert_eq!(
                fields[4].1,
                Value::Str(b"A simple calculator tool".to_vec())
            );
        }
        other => panic!("expected a record, got {:?}", other),
    }
}

#[test]
fn tools_list_reports_the_registry() {
    let mut m = manager();
    let sid = m.create_session(0).unwrap();
    init_session(&mut m, sid, 0);
    let reply = m
        .dispatch(
            sid,
            Message::Request {
                id: 2,
                method: b"tools/list".to_vec(),
                params: Value::Obj(vec![]),
            },
            0,
        )
        .unwrap();
    let (_, v) = expect_success_value(reply);
    let expected = Value::Obj(vec![(
        b"tools".to_vec(),
        Value::Arr(vec![Value::Obj(vec![
            (b"name".to_vec(), Value::Str(b"add".to_vec())),
            (
                b"description".to_vec(),
                Value::Str(b"Adds a and b".to_vec()),
            ),
        ])]),
    )]);
    assert_eq!(v, expected);
}

#[test]
fn unknown_method_gets_error_response() {
    let mut m = manager();
    let sid = m.create_session(0).unwrap();
    init_session(&mut m, sid, 0);
    let reply = m
        .dispatch(
            sid,
            Message::Request {
                id: 3,
                method: b"resources/list".to_vec(),
                params: Value::Obj(vec![]),
            },
            0,
        )
        .unwrap();
    match reply.expect("expected a reply") {
        Message::Response {
            id,
            outcome: Outcome::Failure(e),
        } => {
            assert_eq!(id, 3);
            assert_eq!(e.code, -32601);
            assert_eq!(e.message, b"method not found".to_vec());
        }
        other => panic!("expected an error response, got {:?}", other),
    }
}

#[test]
fn sessions_do_not_observe_each_other() {
    let mut m = manager();
    let s1 = m.create_session(0).unwrap();
    let s2 = m.create_session(0).unwrap();
    assert_ne!(s1, s2);
    init_session(&mut m, s1, 0);
    init_session(&mut m, s2, 0);
    // activity and work in one session leave the other fully usable
    let reply1 = m.dispatch(s1, call_add(1, 1, 1), 5).unwrap();
    let (_, v1) = expect_success_value(reply1);
    let reply2 = m.dispatch(s2, call_add(1, 20, 22), 6).unwrap();
    let (_, v2) = expect_success_value(reply2);
    assert_ne!(v1, v2);
    // a response consumed by one session's table is an orphan there,
    // and the other session never sees it
    let r = m.dispatch(
        s1,
        Message::Response {
            id: 9,
            outcome: Outcome::Success(Value::Null),
        },
        7,
    );
    assert_eq!(r, Ok(None));
    let again = m.dispatch(s2, call_add(2, 1, 2), 8).unwrap();
    expect_success_value(again);
}

#[test]
fn idle_session_is_evicted() {
    let mut m = manager();
    let s1 = m.create_session(0).unwrap();
    let s2 = m.create_session(90).unwrap();
    init_session(&mut m, s1, 0);
    init_session(&mut m, s2, 90);
    m.evict_idle(50, 100);
    // the stale session is gone from later lookups
    assert_eq!(
        m.dispatch(s1, call_add(1, 1, 1), 100),
        Err(ProtocolError::UnknownSession)
    );
    // the fresh one lives on
    let reply = m.dispatch(s2, call_add(1, 2, 2), 100).unwrap();
    expect_success_value(reply);
}

#[test]
fn notification_draws_no_reply() {
    let mut m = manager();
    let sid = m.create_session(0).unwrap();
    let r = m.dispatch(
        sid,
        Message::Notification {
            method: b"progress".to_vec(),
            params: Value::Obj(vec![]),
        },
        1,
    );
    assert_eq!(r, Ok(None));
}

#[test]
fn server_request_resolves_in_its_own_session() {
    let mut m = manager();
    let s1 = m.create_session(0).unwrap();
    let s2 = m.create_session(0).unwrap();
    let (id, msg) = m
        .begin_session_request(s1, b"roots/list".to_vec(), Value::Obj(vec![]), None, 1)
        .unwrap();
    assert_eq!(
        msg,
        Message::Request {
            id,
            method: b"roots/list".to_vec(),
            params: Value::Obj(vec![]),
        }
    );
    // the client's answer lands in the session that asked
    let r = m.dispatch(
        s1,
        Message::Response {
            id,
            outcome: Outcome::Success(Value::Arr(vec![])),
        },
        2,
    );
    assert_eq!(r, Ok(None));
    // the other session never had the entry, so there it is an orphan
    let r = m.dispatch(
        s2,
        Message::Response {
            id,
            outcome: Outcome::Success(Value::Arr(vec![])),
        },
        3,
    );
    assert_eq!(r, Ok(None));
}

#[test]
fn server_refuses_work_before_the_handshake() {
    let mut m = manager();
    let sid = m.create_session(0).unwrap();
    let reply = m.dispatch(sid, call_add(5, 3, 2), 1).unwrap();
    match reply.expect("expected a reply") {
        Message::Response {
            id,
            outcome: Outcome::Failure(e),
        } => {
            assert_eq!(id, 5);
            assert_eq!(e.code, -32002);
            assert_eq!(e.message, b"not initialized".to_vec());
        }
        other => panic!("expected an error response, got {:?}", other),
    }
    // the handshake itself is always answered
    init_session(&mut m, sid, 2);
    let reply = m.dispatch(sid, call_add(6, 3, 2), 3).unwrap();
    expect_success_value(reply);
}
