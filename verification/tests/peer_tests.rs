use mcp_core::errors::{ProtocolError, RpcError, TransportError};
use mcp_core::message::{Message, Outcome};
use mcp_core::peer::{Peer, PeerEvent};
use mcp_core::value::Value;

fn peer() -> Peer {
    Peer::new(
        b"2025-03-26".to_vec(),
        b"calculator http client".to_vec(),
        b"0.0.1".to_vec(),
        vec![(b"tools".to_vec(), Value::Obj(vec![]))],
        vec![b"2025-03-26".to_vec()],
    )
}

fn init_response(id: u64, version: &[u8]) -> Message {
    Message::Response {
        id,
        outcome: Outcome::Success(Value::Obj(vec![
            (
                b"protocolVersion".to_vec(),
                Value::Str(version.to_vec()),
            ),
            (
                b"capabilities".to_vec(),
                Value::Obj(vec![(b"tools".to_vec(), Value::Obj(vec![]))]),
            ),
            (b"name".to_vec(), Value::Str(b"calculator".to_vec())),
        ])),
    }
}

#[test]
fn operations_fail_before_handshake() {
    let mut p = peer();
    assert_eq!(
        p.list_tools_request(None).unwrap_err(),
        ProtocolError::NotInitialized
    );
    assert_eq!(
        p.call_tool_request(b"add".to_vec(), Value::Obj(vec![]), None)
            .unwrap_err(),
        ProtocolError::NotInitialized
    );
}

#[test]
fn handshake_completes_on_matching_version() {
    let mut p = peer();
    let (id, msg) = p.start_initialize(None).unwrap();
    match msg {
        Message::Request {
            id: mid, method, ..
        } => {
            assert_eq!(mid, id);
            assert_eq!(method, b"initialize".to_vec());
        }
        other => panic!("expected a request, got {:?}", other),
    }
    let ev = p.handle_message(init_response(id, b"2025-03-26"));
    assert_eq!(ev, PeerEvent::HandshakeComplete);
    // the connection is now usable
    let (_, msg) = p.list_tools_request(None).unwrap();
    match msg {
        Message::Request { method, .. } => assert_eq!(method, b"tools/list".to_vec()),
        other => panic!("expected a request, got {:?}", other),
    }
}

#[test]
fn version_mismatch_fails_the_handshake_for_good() {
    let mut p = peer();
    let (id, _) = p.start_initialize(None).unwrap();
    let ev = p.handle_message(init_response(id, b"1999-01-01"));
    assert_eq!(
        ev,
        PeerEvent::HandshakeFailed(ProtocolError::VersionMismatch)
    );
    // no later operation succeeds on this connection
    assert_eq!(
        p.list_tools_request(None).unwrap_err(),
        ProtocolError::NotInitialized
    );
    assert_eq!(
        p.call_tool_request(b"add".to_vec(), Value::Obj(vec![]), None)
            .unwrap_err(),
        ProtocolError::NotInitialized
    );
}

#[test]
fn malformed_handshake_payload_fails() {
    let mut p = peer();
    let (id, _) = p.start_initialize(None).unwrap();
    let ev = p.handle_message(Message::Response {
        id,
        outcome: Outcome::Success(Value::Int(3)),
    });
    assert_eq!(
        ev,
        PeerEvent::HandshakeFailed(ProtocolError::MalformedMessage)
    );
}

#[test]
fn orphan_response_still_awaits_the_handshake() {
    let mut p = peer();
    let (id, _) = p.start_initialize(None).unwrap();
    let ev = p.handle_message(Message::Response {
        id: id + 100,
        outcome: Outcome::Success(Value::Null),
    });
    assert_eq!(ev, PeerEvent::Orphan);
    // the handshake is still outstanding and can complete
    let ev = p.handle_message(init_response(id, b"2025-03-26"));
    assert_eq!(ev, PeerEvent::HandshakeComplete);
}

#[test]
fn ordinary_response_resolves_its_own_request() {
    let mut p = peer();
    let (id, _) = p.start_initialize(None).unwrap();
    p.handle_message(init_response(id, b"2025-03-26"));
    let (a, _) = p.call_tool_request(b"add".to_vec(), Value::Obj(vec![]), None).unwrap();
    let (b, _) = p.list_tools_request(None).unwrap();
    assert_ne!(a, b);
    let ev = p.handle_message(Message::Response {
        id: a,
        outcome: Outcome::Success(Value::Str(b"5".to_vec())),
    });
    assert_eq!(
        ev,
        PeerEvent::Resolved {
            id: a,
            outcome: Outcome::Success(Value::Str(b"5".to_vec())),
        }
    );
    // the other request is still outstanding: resolving it works too
    let ev = p.handle_message(Message::Response {
        id: b,
        outcome: Outcome::Success(Value::Null),
    });
    assert_eq!(
        ev,
        PeerEvent::Resolved {
            id: b,
            outcome: Outcome::Success(Value::Null),
        }
    );
}

#[test]
fn disconnect_cancels_every_outstanding_request() {
    let mut p = peer();
    let (id, _) = p.start_initialize(None).unwrap();
    p.handle_message(init_response(id, b"2025-03-26"));
    let (a, _) = p.call_tool_request(b"add".to_vec(), Value::Obj(vec![]), None).unwrap();
    let (b, _) = p.list_tools_request(None).unwrap();
    let mut failed = p.on_disconnect();
    failed.sort_by_key(|p| p.0);
    assert_eq!(
        failed,
        vec![
            (a, RpcError::Transport(TransportError::Disconnected)),
            (b, RpcError::Transport(TransportError::Disconnected)),
        ]
    );
    // the connection is unusable afterwards
    assert_eq!(
        p.list_tools_request(None).unwrap_err(),
        ProtocolError::NotInitialized
    );
}

#[test]
fn timeout_resolves_only_the_late_request() {
    let mut p = peer();
    let (id, _) = p.start_initialize(None).unwrap();
    p.handle_message(init_response(id, b"2025-03-26"));
    let (late, _) = p
        .call_tool_request(b"add".to_vec(), Value::Obj(vec![]), Some(10))
        .unwrap();
    let (patient, _) = p.list_tools_request(Some(1000)).unwrap();
    let timed = p.expire_requests(50);
    assert_eq!(
        timed,
        vec![(late, RpcError::Transport(TransportError::Timeout))]
    );
    // the patient request can still resolve
    let ev = p.handle_message(Message::Response {
        id: patient,
        outcome: Outcome::Success(Value::Null),
    });
    assert_eq!(
        ev,
        PeerEvent::Resolved {
            id: patient,
            outcome: Outcome::Success(Value::Null),
        }
    );
}

#[test]
fn generic_request_carries_method_and_params() {
    let mut p = peer();
    let (id, _) = p.start_initialize(None).unwrap();
    p.handle_message(init_response(id, b"2025-03-26"));
    let (rid, msg) = p
        .send_request(
            b"resources/list".to_vec(),
            Value::Obj(vec![]),
            None,
        )
        .unwrap();
    assert_eq!(
        msg,
        Message::Request {
            id: rid,
            method: b"resources/list".to_vec(),
            params: Value::Obj(vec![]),
        }
    );
}

#[test]
fn notification_bypasses_the_table() {
    let mut p = peer();
    let (id, _) = p.start_initialize(None).unwrap();
    p.handle_message(init_response(id, b"2025-03-26"));
    let note = p.send_notification(b"progress".to_vec(), Value::Int(50));
    assert_eq!(
        note,
        Message::Notification {
            method: b"progress".to_vec(),
            params: Value::Int(50),
        }
    );
    // nothing outstanding: a disconnect cancels nothing
    let failed = p.on_disconnect();
    assert_eq!(failed, vec![]);
}
