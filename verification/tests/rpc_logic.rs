use signal_bot::context::MessageTarget;
use signal_bot::error::RpcError;
use signal_bot::rpc::{
    classify_incoming, edit_target, IncomingLine, interpret_response, precheck_call, request_for,
    transport_for_socket, whoami_from, LineKind, RequestTracker, Transport,
};
use signal_bot::types::{JsonRpcError, JsonRpcResponse};

#[test]
fn socket_names_its_transport() {
    match transport_for_socket("tcp://localhost:7583") {
        Transport::Tcp(a) => assert_eq!(a, "localhost:7583"),
        _ => panic!("expected tcp"),
    }
    match transport_for_socket("/tmp/signal-cli.sock") {
        Transport::Unix(p) => assert_eq!(p, "/tmp/signal-cli.sock"),
        _ => panic!("expected unix"),
    }
}

#[test]
fn request_framing() {
    let r = request_for(42, "send", obj("a", 1));
    assert_eq!(r.jsonrpc, "2.0");
    assert_eq!(r.id, Some(42));
    assert_eq!(r.method, "send");
    assert_eq!(r.params, Some(obj("a", 1)));
}

fn obj(k: &str, v: i64) -> serde_json::Value {
    let mut m = serde_json::Map::new();
    m.insert(k.to_string(), serde_json::Value::from(v));
    serde_json::Value::Object(m)
}

fn response(result: Option<serde_json::Value>, error: Option<JsonRpcError>) -> JsonRpcResponse {
    JsonRpcResponse { jsonrpc: "2.0".to_string(), id: Some(1), result, error }
}

#[test]
fn response_error_wins_over_result() {
    let e = JsonRpcError { code: -32601, message: "no such method".to_string(), data: None };
    match interpret_response(response(Some(serde_json::Value::from(1)), Some(e))) {
        Err(RpcError::RpcError { code, message }) => {
            assert_eq!(code, -32601);
            assert_eq!(message, "no such method");
        }
        _ => panic!("expected rpc error"),
    }
}

#[test]
fn response_result_and_missing_result() {
    match interpret_response(response(Some(obj("timestamp", 5)), None)) {
        Ok(v) => assert_eq!(v, obj("timestamp", 5)),
        _ => panic!("expected ok"),
    }
    match interpret_response(response(None, None)) {
        Err(RpcError::InvalidResponse(m)) => assert_eq!(m, "Missing result in response"),
        _ => panic!("expected invalid response"),
    }
}

#[test]
fn lines_are_classified() {
    let line = |id: Option<u64>, method: Option<&str>, envelope: bool| {
        Some(IncomingLine {
            response_id: id,
            method: method.map(|m| m.to_string()),
            envelope: if envelope { Some(serde_json::Value::Null) } else { None },
        })
    };
    assert!(matches!(classify_incoming("   ", &line(Some(3), Some("receive"), true)), LineKind::Blank));
    assert!(matches!(classify_incoming("{}", &line(Some(3), Some("receive"), true)), LineKind::Response(3)));
    assert!(matches!(classify_incoming("{}", &line(None, Some("receive"), true)), LineKind::Notification));
    assert!(matches!(classify_incoming("{}", &line(None, Some("receive"), false)), LineKind::Unhandled));
    assert!(matches!(classify_incoming("{}", &line(None, Some("send"), true)), LineKind::Unhandled));
    assert!(matches!(classify_incoming("{}", &line(None, None, true)), LineKind::Unhandled));
    assert!(matches!(classify_incoming("not json", &None), LineKind::Unhandled));
}

#[test]
fn disconnected_calls_fail() {
    assert!(precheck_call(true).is_ok());
    assert!(matches!(precheck_call(false), Err(RpcError::ConnectionLost)));
}

#[test]
fn tracker_delivers_to_the_right_call() {
    let mut t: RequestTracker<&str> = RequestTracker::new();
    let a = t.begin("first");
    let b = t.begin("second");
    assert_eq!((a, b), (1, 2));
    assert_eq!(t.complete(b), Some("second"));
    assert_eq!(t.complete(b), None);
    assert_eq!(t.complete(99), None);
    let c = t.begin("third");
    assert_eq!(c, 3);
    let mut rest = t.drain();
    rest.sort();
    assert_eq!(rest, vec!["first", "third"]);
    assert_eq!(t.complete(a), None);
    assert!(t.drain().is_empty());
}

#[test]
fn edit_target_prefers_recipient() {
    match edit_target(Some("+1"), Some("g")) {
        Ok(MessageTarget::Recipient(r)) => assert_eq!(r, "+1"),
        _ => panic!("expected recipient"),
    }
    match edit_target(None, Some("g")) {
        Ok(MessageTarget::Group(g)) => assert_eq!(g, "g"),
        _ => panic!("expected group"),
    }
    match edit_target(None, None) {
        Err(RpcError::InvalidResponse(m)) => assert_eq!(m, "Missing recipient or group_id for edit_message"),
        _ => panic!("expected error"),
    }
}

#[test]
fn whoami_prefers_number() {
    assert_eq!(whoami_from(Some("+1".into()), Some("u".into())).ok(), Some("+1".to_string()));
    assert_eq!(whoami_from(None, Some("u".into())).ok(), Some("u".to_string()));
    match whoami_from(None, None) {
        Err(RpcError::InvalidResponse(m)) => assert_eq!(m, "getUser didn't return a valid string"),
        _ => panic!("expected error"),
    }
}

#[test]
fn request_ids_all_differ() {
    let mut t: RequestTracker<u32> = RequestTracker::new();
    let mut ids = std::collections::HashSet::new();
    for i in 0..1000u32 {
        assert!(ids.insert(t.begin(i)));
    }
    assert_eq!(t.complete(500), Some(499));
    assert_eq!(t.drain().len(), 999);
}
