use rustycable::anycable::CommandResponse;
use rustycable::hub::HubAction;
use rustycable::session::{
    broadcast_outcome, fetch_or_create_uid, ping_message, uid_from_headers, ClientMessage,
    ClientMessageType, Outgoing, SessionState,
};
use rustycable::server::collect_headers;
use rustycable::session::{frame_action, keep_pinging, FrameAction};

fn s(x: &str) -> String {
    x.to_string()
}

fn msg(command: ClientMessageType, identifier: &str, data: Option<&str>) -> ClientMessage {
    ClientMessage { command, identifier: s(identifier), data: data.map(s) }
}

fn response(streams: &[&str], transmissions: &[&str]) -> CommandResponse {
    CommandResponse {
        status: 1,
        disconnect: false,
        stop_streams: false,
        streams: streams.iter().map(|x| s(x)).collect(),
        transmissions: transmissions.iter().map(|x| s(x)).collect(),
        error_msg: String::new(),
    }
}

#[test]
fn command_names() {
    assert_eq!(ClientMessageType::Subscribe.to_string(), "subscribe");
    assert_eq!(ClientMessageType::Unsubscribe.to_string(), "unsubscribe");
    assert_eq!(ClientMessageType::Message.to_string(), "message");
}

#[test]
fn subscription_lifecycle() {
    let mut state = SessionState::new(s("uid-1"), s("{\"user\":1}"));
    let m = msg(ClientMessageType::Message, "Chat", Some("hi"));
    assert!(state.command_for(&m).is_none());
    let u = msg(ClientMessageType::Unsubscribe, "Chat", None);
    assert!(state.command_for(&u).is_none());

    let sub = msg(ClientMessageType::Subscribe, "Chat", None);
    let cmd = state.command_for(&sub).expect("first subscription is forwarded");
    assert_eq!(cmd.command, "subscribe");
    assert_eq!(cmd.identifier, "Chat");
    assert_eq!(cmd.connection_identifiers, "{\"user\":1}");
    assert_eq!(cmd.data, "");

    let requests: Vec<HubAction<u32>> = state.apply_response(&sub, &response(&["s1", "s2"], &["t"]));
    assert_eq!(requests.len(), 2);
    for (req, stream) in requests.iter().zip(["s1", "s2"]) {
        match req {
            HubAction::Subscribe { session_id, stream: st, identifier } => {
                assert_eq!(session_id, "uid-1");
                assert_eq!(st, stream);
                assert_eq!(identifier, "Chat");
            }
            _ => panic!("expected a subscription request"),
        }
    }
    assert!(state.is_subscribed(&s("Chat")));
    assert!(state.command_for(&sub).is_none());

    let cmd = state.command_for(&m).expect("messages pass once subscribed");
    assert_eq!(cmd.command, "message");
    assert_eq!(cmd.data, "hi");
    let none: Vec<HubAction<u32>> = state.apply_response(&m, &response(&["ignored"], &[]));
    assert!(none.is_empty());
    assert!(state.is_subscribed(&s("Chat")));

    let cmd = state.command_for(&u).expect("unsubscription passes once subscribed");
    assert_eq!(cmd.command, "unsubscribe");
    let none: Vec<HubAction<u32>> = state.apply_response(&u, &response(&["ignored"], &[]));
    assert!(none.is_empty());
    assert!(!state.is_subscribed(&s("Chat")));
    assert!(state.command_for(&m).is_none());
}

#[test]
fn broadcast_frames() {
    match broadcast_outcome(false, "Chat", "{\"b\": 2, \"a\": [1, true, null]}") {
        Outgoing::Send(frame) => {
            assert_eq!(frame, "{\"identifier\":\"Chat\",\"message\":{\"a\":[1,true,null],\"b\":2}}")
        }
        _ => panic!("expected a frame"),
    }
    match broadcast_outcome(false, "say \"hi\"\n\u{1}\\", "\"text\"") {
        Outgoing::Send(frame) => assert_eq!(
            frame,
            "{\"identifier\":\"say \\\"hi\\\"\\n\\u0001\\\\\",\"message\":\"text\"}"
        ),
        _ => panic!("expected a frame"),
    }
    assert!(matches!(broadcast_outcome(true, "Chat", "1"), Outgoing::Skip));
    assert!(matches!(broadcast_outcome(false, "Chat", "{oops"), Outgoing::Malformed));
}

#[test]
fn ping_frame_shape() {
    let p = ping_message().expect("the clock reads after the epoch");
    assert!(p.starts_with("{\"message\":"));
    assert!(p.ends_with(",\"type\":\"ping\"}"));
    assert_eq!(
        rustycable::session::ping_for_reading(Some(17)),
        Some(s("{\"message\":17,\"type\":\"ping\"}"))
    );
    assert_eq!(rustycable::session::ping_for_reading(None), None);
    assert_eq!(rustycable::session::ping_for_reading(Some(u64::MAX)), None);
    assert_eq!(rustycable::json::ping_frame(-42), "{\"message\":-42,\"type\":\"ping\"}");
    assert_eq!(rustycable::json::ping_frame(1700000000), "{\"message\":1700000000,\"type\":\"ping\"}");
}

#[test]
fn uid_comes_from_request_id_header() {
    let headers = collect_headers(&vec![(s("X-Request-ID"), s("abc")), (s("host"), s("h"))]);
    assert_eq!(uid_from_headers(&headers, s("fallback")), "abc");
    assert_eq!(fetch_or_create_uid(&headers), "abc");
    let lower = collect_headers(&vec![(s("host"), s("h")), (s("x-request-id"), s("req-42"))]);
    assert_eq!(uid_from_headers(&lower, s("fallback")), "req-42");
    assert_eq!(fetch_or_create_uid(&lower), "req-42");
    let mixed = collect_headers(&vec![(s("X-REQUEST-id"), s("m"))]);
    assert_eq!(uid_from_headers(&mixed, s("fallback")), "m");
    let none = collect_headers(&vec![(s("x-request-ids"), s("no")), (s("host"), s("h"))]);
    assert_eq!(uid_from_headers(&none, s("fallback")), "fallback");
    let fresh = fetch_or_create_uid(&none);
    assert_eq!(fresh.len(), 36);
    let chars: Vec<char> = fresh.chars().collect();
    for (i, c) in chars.iter().enumerate() {
        if i == 8 || i == 13 || i == 18 || i == 23 {
            assert_eq!(*c, '-');
        } else {
            assert!(c.is_ascii_hexdigit() && !c.is_ascii_uppercase());
        }
    }
    assert_eq!(chars[14], '4');
    assert!(matches!(chars[19], '8' | '9' | 'a' | 'b'));
}

#[test]
fn frame_decisions() {
    assert!(matches!(frame_action(true, false), FrameAction::Process));
    assert!(matches!(frame_action(false, true), FrameAction::CloseAndEcho));
    assert!(matches!(frame_action(false, false), FrameAction::Ignore));
    assert!(keep_pinging(false));
    assert!(!keep_pinging(true));
}

#[test]
fn subscription_survives_other_channels() {
    let mut state = SessionState::new(s("u"), s("ids"));
    let sub = msg(ClientMessageType::Subscribe, "Chat", None);
    let _: Vec<HubAction<u32>> = state.apply_response(&sub, &response(&["s"], &[]));
    let other_sub = msg(ClientMessageType::Subscribe, "News", None);
    let _: Vec<HubAction<u32>> = state.apply_response(&other_sub, &response(&["n"], &[]));
    let other_unsub = msg(ClientMessageType::Unsubscribe, "News", None);
    let _: Vec<HubAction<u32>> = state.apply_response(&other_unsub, &response(&[], &[]));
    assert!(state.command_for(&sub).is_none());
    assert!(state.command_for(&other_sub).is_some());
}
