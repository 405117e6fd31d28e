use rustycable::anycable::{CommandResponse, Status};
use rustycable::redis_client::RedisMessage;
use rustycable::hub::HubAction;
use rustycable::rpc_client::{command_request, connect_request, disconnect_request};
use rustycable::server::{collect_headers, should_report, ConnectionErrorKind, ACTIONCABLE_PROTOCOL};
use rustycable::session::ClientMessageType;
use rustycable::str_map::StrMap;

#[test]
fn status_numbers() {
    assert_eq!(Status::from_i32(0), Some(Status::Error));
    assert_eq!(Status::from_i32(1), Some(Status::Success));
    assert_eq!(Status::from_i32(2), Some(Status::Failure));
    assert_eq!(Status::from_i32(3), None);
    assert_eq!(Status::from_i32(-1), None);
    assert_eq!(Status::Failure.to_i32(), 2);
    let r = CommandResponse {
        status: 9,
        disconnect: false,
        stop_streams: false,
        streams: vec![],
        transmissions: vec![],
        error_msg: String::new(),
    };
    assert_eq!(r.status(), Status::Error);
}

#[test]
fn str_map_basics() {
    let mut m: StrMap<u8> = StrMap::new();
    assert_eq!(m.len(), 0);
    m.insert("a".to_string(), 1);
    m.insert("b".to_string(), 2);
    m.insert("a".to_string(), 3);
    assert_eq!(m.len(), 2);
    assert_eq!(m.get(&"a".to_string()), Some(&3));
    assert!(m.contains_key(&"b".to_string()));
    assert_eq!(m.remove(&"b".to_string()), Some(2));
    assert_eq!(m.remove(&"b".to_string()), None);
    assert_eq!(m.len(), 1);
    assert_eq!(m.key_at(0), "a");
    assert_eq!(*m.value_at(0), 3);
}

#[test]
fn later_header_wins() {
    let h = collect_headers(&vec![
        ("host".to_string(), "one".to_string()),
        ("cookie".to_string(), "c".to_string()),
        ("host".to_string(), "two".to_string()),
    ]);
    assert_eq!(h.len(), 2);
    assert_eq!(h.get(&"host".to_string()).map(|s| s.as_str()), Some("two"));
}

#[test]
fn reported_errors() {
    assert!(!should_report(ConnectionErrorKind::ConnectionClosed));
    assert!(!should_report(ConnectionErrorKind::Protocol));
    assert!(!should_report(ConnectionErrorKind::Utf8));
    assert!(should_report(ConnectionErrorKind::Other));
    assert_eq!(ACTIONCABLE_PROTOCOL, "actioncable-v1-json");
}

#[test]
fn probe_requests() {
    let c = connect_request();
    assert_eq!(c.path, "");
    assert_eq!(c.headers.len(), 0);
    let d = disconnect_request();
    assert!(d.subscriptions.is_empty() && d.identifiers.is_empty() && d.path.is_empty());
    let m = command_request(ClientMessageType::Message);
    assert_eq!(m.command, "message");
    assert!(m.identifier.is_empty() && m.data.is_empty() && m.connection_identifiers.is_empty());
    assert_eq!(command_request(ClientMessageType::Subscribe).command, "subscribe");
}

#[test]
fn redis_message_becomes_broadcast() {
    let m = RedisMessage { stream: "chat".to_string(), data: "\"x\"".to_string() };
    match m.into_action::<u32>() {
        HubAction::Broadcast { stream, data } => {
            assert_eq!(stream, "chat");
            assert_eq!(data, "\"x\"");
        }
        _ => panic!("expected a broadcast"),
    }
}
