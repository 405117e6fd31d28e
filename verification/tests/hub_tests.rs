use rustycable::hub::{Delivery, Hub, HubAction, HubOutcome};

fn s(x: &str) -> String {
    x.to_string()
}

fn pairs(ds: &[Delivery]) -> Vec<(String, String)> {
    let mut v: Vec<(String, String)> = ds
        .iter()
        .map(|d| (d.session_id.clone(), d.identifier.clone()))
        .collect();
    v.sort();
    v
}

#[test]
fn broadcast_reaches_registered_subscribers() {
    let mut hub: Hub<u32> = Hub::new();
    hub.add_session(s("a"), s("ids-a"), 1);
    hub.add_session(s("b"), s("ids-b"), 2);
    hub.subscribe_session(s("a"), s("chat"), s("ChatChannel"));
    hub.subscribe_session(s("b"), s("chat"), s("RoomChannel"));
    hub.subscribe_session(s("b"), s("news"), s("NewsChannel"));
    assert_eq!(
        pairs(&hub.broadcast(&s("chat"))),
        vec![(s("a"), s("ChatChannel")), (s("b"), s("RoomChannel"))]
    );
    assert_eq!(pairs(&hub.broadcast(&s("news"))), vec![(s("b"), s("NewsChannel"))]);
    assert_eq!(hub.session(&s("b")), Some(&2));
}

#[test]
fn broadcast_to_unknown_stream_reaches_nobody() {
    let mut hub: Hub<u32> = Hub::new();
    hub.add_session(s("a"), s("ids"), 1);
    hub.subscribe_session(s("a"), s("chat"), s("C"));
    assert!(hub.broadcast(&s("other")).is_empty());
}

#[test]
fn unregistered_subscriber_is_skipped() {
    let mut hub: Hub<u32> = Hub::new();
    hub.subscribe_session(s("ghost"), s("chat"), s("C"));
    assert!(hub.broadcast(&s("chat")).is_empty());
    hub.add_session(s("ghost"), s("ids"), 7);
    assert_eq!(pairs(&hub.broadcast(&s("chat"))), vec![(s("ghost"), s("C"))]);
}

#[test]
fn resubscribing_replaces_identifier() {
    let mut hub: Hub<u32> = Hub::new();
    hub.add_session(s("a"), s("ids"), 1);
    hub.subscribe_session(s("a"), s("chat"), s("First"));
    hub.subscribe_session(s("a"), s("chat"), s("Second"));
    assert_eq!(pairs(&hub.broadcast(&s("chat"))), vec![(s("a"), s("Second"))]);
}

#[test]
fn unsubscribe_stops_only_that_channel() {
    let mut hub: Hub<u32> = Hub::new();
    hub.add_session(s("a"), s("ids"), 1);
    hub.add_session(s("b"), s("ids"), 2);
    hub.subscribe_session(s("a"), s("chat"), s("Chat"));
    hub.subscribe_session(s("a"), s("news"), s("News"));
    hub.subscribe_session(s("b"), s("chat"), s("Chat"));
    hub.unsubscribe_from_channel(&s("a"), &s("Chat"));
    assert_eq!(pairs(&hub.broadcast(&s("chat"))), vec![(s("b"), s("Chat"))]);
    assert_eq!(pairs(&hub.broadcast(&s("news"))), vec![(s("a"), s("News"))]);
}

#[test]
fn unsubscribe_of_session_without_subscriptions_does_nothing() {
    let mut hub: Hub<u32> = Hub::new();
    hub.add_session(s("a"), s("ids"), 1);
    hub.unsubscribe_from_channel(&s("a"), &s("Chat"));
    assert!(hub.broadcast(&s("chat")).is_empty());
}

#[test]
fn removed_session_receives_nothing() {
    let mut hub: Hub<u32> = Hub::new();
    hub.add_session(s("a"), s("ids"), 1);
    hub.add_session(s("b"), s("ids"), 2);
    hub.subscribe_session(s("a"), s("chat"), s("Chat"));
    hub.subscribe_session(s("a"), s("news"), s("News"));
    hub.subscribe_session(s("b"), s("chat"), s("Chat"));
    hub.remove_session(&s("a"), &s("ids"));
    assert_eq!(pairs(&hub.broadcast(&s("chat"))), vec![(s("b"), s("Chat"))]);
    assert!(hub.broadcast(&s("news")).is_empty());
    assert_eq!(hub.session(&s("a")), None);
}

#[test]
fn unsubscribe_all_channels_of_a_session() {
    let mut hub: Hub<u32> = Hub::new();
    hub.add_session(s("a"), s("ids"), 1);
    hub.subscribe_session(s("a"), s("chat"), s("Chat"));
    hub.subscribe_session(s("a"), s("news"), s("News"));
    hub.unsubscribe_from_channels(&s("a"));
    assert!(hub.broadcast(&s("chat")).is_empty());
    assert!(hub.broadcast(&s("news")).is_empty());
    assert_eq!(hub.session(&s("a")), Some(&1));
}

#[test]
fn handle_runs_actions() {
    let mut hub: Hub<u32> = Hub::new();
    assert!(matches!(
        hub.handle(HubAction::Add { uid: s("a"), identifiers: s("ids"), session: 5 }),
        HubOutcome::Continue
    ));
    assert!(matches!(
        hub.handle(HubAction::Subscribe {
            session_id: s("a"),
            stream: s("chat"),
            identifier: s("Chat")
        }),
        HubOutcome::Continue
    ));
    match hub.handle(HubAction::Broadcast { stream: s("chat"), data: s("\"{\\\"text\\\":1}\"") }) {
        HubOutcome::Deliver { data, deliveries } => {
            assert_eq!(data, s("{\"text\":1}"));
            assert_eq!(pairs(&deliveries), vec![(s("a"), s("Chat"))]);
        }
        _ => panic!("expected a delivery"),
    }
    assert!(matches!(
        hub.handle(HubAction::Unsubscribe { session_id: s("a"), identifier: s("Chat") }),
        HubOutcome::Continue
    ));
    match hub.handle(HubAction::Broadcast { stream: s("chat"), data: s("\"x\"") }) {
        HubOutcome::Deliver { data, deliveries } => {
            assert_eq!(data, s("x"));
            assert!(deliveries.is_empty());
        }
        _ => panic!("expected a delivery"),
    }
    assert!(matches!(
        hub.handle(HubAction::Remove { uid: s("a"), identifiers: s("ids") }),
        HubOutcome::Continue
    ));
    assert!(matches!(hub.handle(HubAction::Shutdown), HubOutcome::Stop));
}

#[test]
fn handle_faults_where_the_state_cannot_serve() {
    let mut hub: Hub<u32> = Hub::new();
    hub.add_session(s("a"), s("ids"), 1);
    // a registered session that never subscribed cannot be removed
    assert!(matches!(
        hub.handle(HubAction::Remove { uid: s("a"), identifiers: s("ids") }),
        HubOutcome::Fault
    ));
    assert_eq!(hub.session(&s("a")), Some(&1));
    hub.subscribe_session(s("a"), s("chat"), s("Chat"));
    // a session cannot unsubscribe a channel it never subscribed to
    assert!(matches!(
        hub.handle(HubAction::Unsubscribe { session_id: s("a"), identifier: s("Other") }),
        HubOutcome::Fault
    ));
    // the removal needs the identifiers the session was registered with
    assert!(matches!(
        hub.handle(HubAction::Remove { uid: s("a"), identifiers: s("unknown") }),
        HubOutcome::Fault
    ));
    // broadcast data must be a JSON string
    assert!(matches!(
        hub.handle(HubAction::Broadcast { stream: s("chat"), data: s("{\"a\":1}") }),
        HubOutcome::Fault
    ));
    assert!(matches!(
        hub.handle(HubAction::Broadcast { stream: s("chat"), data: s("not json") }),
        HubOutcome::Fault
    ));
    // an unregistered uid is removed without fuss
    assert!(matches!(
        hub.handle(HubAction::Remove { uid: s("zzz"), identifiers: s("none") }),
        HubOutcome::Continue
    ));
}

#[test]
fn subscribe_then_unsubscribe_restores_the_stream() {
    let mut hub: Hub<u32> = Hub::new();
    hub.add_session(s("a"), s("ids"), 1);
    hub.add_session(s("b"), s("ids"), 2);
    hub.subscribe_session(s("b"), s("chat"), s("Chat"));
    let before = pairs(&hub.broadcast(&s("chat")));
    hub.subscribe_session(s("a"), s("chat"), s("Chat"));
    assert_eq!(pairs(&hub.broadcast(&s("chat"))).len(), 2);
    hub.unsubscribe_from_channel(&s("a"), &s("Chat"));
    assert_eq!(pairs(&hub.broadcast(&s("chat"))), before);
}

#[test]
fn fresh_hub_single_subscriber() {
    let mut hub: Hub<u32> = Hub::new();
    hub.add_session(s("a"), s("ids"), 1);
    hub.subscribe_session(s("a"), s("st"), s("id"));
    assert_eq!(pairs(&hub.broadcast(&s("st"))), vec![(s("a"), s("id"))]);
    hub.unsubscribe_from_channel(&s("a"), &s("id"));
    assert!(hub.broadcast(&s("st")).is_empty());
}

#[test]
fn handle_all_runs_actions_in_order_until_shutdown() {
    let mut hub: Hub<u32> = Hub::new();
    let outcomes = hub.handle_all(vec![
        HubAction::Add { uid: s("a"), identifiers: s("ids"), session: 1 },
        HubAction::Subscribe { session_id: s("a"), stream: s("st"), identifier: s("id") },
        HubAction::Broadcast { stream: s("st"), data: s("\"d1\"") },
        HubAction::Unsubscribe { session_id: s("a"), identifier: s("id") },
        HubAction::Broadcast { stream: s("st"), data: s("\"d2\"") },
        HubAction::Shutdown,
        HubAction::Subscribe { session_id: s("a"), stream: s("st"), identifier: s("id") },
    ]);
    assert_eq!(outcomes.len(), 6);
    assert!(matches!(outcomes[0], HubOutcome::Continue));
    assert!(matches!(outcomes[1], HubOutcome::Continue));
    match &outcomes[2] {
        HubOutcome::Deliver { data, deliveries } => {
            assert_eq!(data, "d1");
            assert_eq!(pairs(deliveries), vec![(s("a"), s("id"))]);
        }
        _ => panic!("expected a delivery"),
    }
    assert!(matches!(outcomes[3], HubOutcome::Continue));
    match &outcomes[4] {
        HubOutcome::Deliver { data, deliveries } => {
            assert_eq!(data, "d2");
            assert!(deliveries.is_empty());
        }
        _ => panic!("expected a delivery"),
    }
    assert!(matches!(outcomes[5], HubOutcome::Stop));
    // the action after the shutdown was not handled
    assert!(hub.broadcast(&s("st")).is_empty());
}
