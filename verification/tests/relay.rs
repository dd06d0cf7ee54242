use relay_hub::dispatch::{classify, dispatch, scope_for, Outcome, Route, Scope, SelfDelivery};
use relay_hub::envelope::{is_ping, Inbound};
use relay_hub::key::ConnectionKey;
use relay_hub::queue::{was_accepted, QueueHandle};
use relay_hub::registry::{Entry, Registry};
use tokio::sync::mpsc::error::{SendError, TryRecvError};
use tokio::sync::mpsc::{unbounded_channel, UnboundedReceiver};

fn key(channel: &str, id: usize) -> ConnectionKey {
    ConnectionKey::new(channel.to_string(), id)
}

fn text(payload: &str) -> Inbound {
    Inbound::Text(payload.to_string())
}

fn join(registry: &mut Registry, channel: &str, id: usize) -> UnboundedReceiver<String> {
    let (handle, rx) = QueueHandle::open();
    registry.register(key(channel, id), handle);
    rx
}

fn drain(rx: &mut UnboundedReceiver<String>) -> Vec<String> {
    let mut got = Vec::new();
    while let Ok(message) = rx.try_recv() {
        got.push(message);
    }
    got
}

fn ids(outcomes: &[Outcome]) -> Vec<usize> {
    outcomes.iter().map(|o| o.recipient.id()).collect()
}

#[test]
fn key_keeps_channel_and_identity() {
    let k = key("room1", 7);
    assert_eq!(k.channel(), "room1");
    assert_eq!(k.id(), 7);
    assert!(k.matches(&key("room1", 7)));
    assert!(!k.matches(&key("room1", 8)));
    assert!(!k.matches(&key("room2", 7)));
    assert!(k.same_channel(&key("room1", 8)));
    assert!(!k.same_channel(&key("room2", 7)));
    assert_eq!(k.clone(), k);
}

#[test]
fn new_registry_is_empty() {
    let registry = Registry::new();
    assert_eq!(registry.len(), 0);
    assert!(registry.is_empty());
    assert!(!registry.contains(&key("room1", 1)));
}

#[test]
fn register_adds_and_overwrites() {
    let mut registry = Registry::new();
    let mut first = join(&mut registry, "room1", 1);
    assert_eq!(registry.len(), 1);
    assert!(registry.contains(&key("room1", 1)));
    let mut second = join(&mut registry, "room1", 1);
    assert_eq!(registry.len(), 1);
    let _other = join(&mut registry, "room1", 2);
    assert_eq!(registry.len(), 2);
    let frame = text("hi");
    let outcomes = dispatch(&registry, &key("room1", 2), &frame, SelfDelivery::Exclude);
    assert_eq!(ids(&outcomes), vec![1]);
    assert!(outcomes[0].accepted);
    assert_eq!(drain(&mut second), vec!["hi".to_string()]);
    assert_eq!(first.try_recv(), Err(TryRecvError::Disconnected));
}

#[test]
fn same_identity_on_two_channels_is_two_connections() {
    let mut registry = Registry::new();
    let _a = join(&mut registry, "room1", 1);
    let _b = join(&mut registry, "room2", 1);
    assert_eq!(registry.len(), 2);
    assert!(registry.unregister(&key("room1", 1)).is_some());
    assert!(registry.contains(&key("room2", 1)));
    assert!(!registry.contains(&key("room1", 1)));
}

#[test]
fn unregister_is_idempotent() {
    let mut registry = Registry::new();
    let _a = join(&mut registry, "room1", 1);
    let _b = join(&mut registry, "room1", 2);
    assert!(registry.unregister(&key("room1", 1)).is_some());
    assert_eq!(registry.len(), 1);
    assert!(registry.unregister(&key("room1", 1)).is_none());
    assert_eq!(registry.len(), 1);
    assert!(registry.contains(&key("room1", 2)));
}

#[test]
fn unregister_of_absent_key_changes_nothing() {
    let mut registry = Registry::new();
    assert!(registry.unregister(&key("room1", 1)).is_none());
    assert!(registry.is_empty());
    let _a = join(&mut registry, "room1", 1);
    assert!(registry.unregister(&key("room1", 9)).is_none());
    assert!(registry.unregister(&key("room9", 1)).is_none());
    assert_eq!(registry.len(), 1);
    assert!(registry.contains(&key("room1", 1)));
}

#[test]
fn unregister_returns_the_registered_handle() {
    let mut registry = Registry::new();
    let mut a = join(&mut registry, "room1", 1);
    let handle = registry.unregister(&key("room1", 1)).unwrap();
    assert!(handle.enqueue("late"));
    assert_eq!(drain(&mut a), vec!["late".to_string()]);
}

fn entry_ids(found: &[&Entry]) -> Vec<usize> {
    found.iter().map(|e| e.key().id()).collect()
}

#[test]
fn snapshot_selects_by_predicate_in_registration_order() {
    let mut registry = Registry::new();
    let _a = join(&mut registry, "room1", 1);
    let _c = join(&mut registry, "room2", 3);
    let _b = join(&mut registry, "room1", 2);
    let _d = join(&mut registry, "room1", 4);
    let anchor = key("room1", 2);
    let peers = registry
        .snapshot_matching(|k: &ConnectionKey| k.same_channel(&anchor) && !k.matches(&anchor));
    assert_eq!(entry_ids(&peers), vec![1, 4]);
    let channel = registry.snapshot_matching(|k: &ConnectionKey| k.same_channel(&anchor));
    assert_eq!(entry_ids(&channel), vec![1, 2, 4]);
    let only = registry.snapshot_matching(|k: &ConnectionKey| k.matches(&anchor));
    assert_eq!(entry_ids(&only), vec![2]);
    let odd = registry.snapshot_matching(|k: &ConnectionKey| k.id() % 2 == 1);
    assert_eq!(entry_ids(&odd), vec![1, 3]);
    let all = registry.snapshot_matching(|_k: &ConnectionKey| true);
    assert_eq!(entry_ids(&all), vec![1, 3, 2, 4]);
    let none = registry.snapshot_matching(|_k: &ConnectionKey| false);
    assert!(none.is_empty());
    let strangers = registry.snapshot_matching(|k: &ConnectionKey| k.channel() == "room3");
    assert!(strangers.is_empty());
}

#[test]
fn snapshot_entries_carry_their_queue() {
    let mut registry = Registry::new();
    let mut a = join(&mut registry, "room1", 1);
    let mut b = join(&mut registry, "room1", 2);
    let found = registry.snapshot_matching(|k: &ConnectionKey| k.id() == 1);
    assert_eq!(found.len(), 1);
    assert!(found[0].handle().enqueue("direct"));
    assert_eq!(drain(&mut a), vec!["direct".to_string()]);
    assert!(drain(&mut b).is_empty());
}

#[test]
fn enqueue_keeps_order() {
    let (handle, mut rx) = QueueHandle::open();
    assert!(handle.enqueue("one"));
    assert!(handle.enqueue("two"));
    assert!(handle.enqueue("three"));
    assert_eq!(drain(&mut rx), vec!["one".to_string(), "two".to_string(), "three".to_string()]);
}

#[test]
fn enqueue_on_a_dead_queue_is_dropped() {
    let (handle, rx) = QueueHandle::open();
    drop(rx);
    assert!(!handle.enqueue("lost"));
    assert!(!handle.enqueue("lost again"));
}

#[test]
fn send_results_are_told_apart() {
    assert!(was_accepted(&Ok(())));
    assert!(!was_accepted(&Err(SendError("lost".to_string()))));
}

#[test]
fn handle_wraps_an_existing_sender() {
    let (tx, mut rx) = unbounded_channel::<String>();
    let handle = QueueHandle::new(tx);
    assert!(handle.enqueue("x"));
    assert_eq!(rx.try_recv(), Ok("x".to_string()));
    assert_eq!(rx.try_recv(), Err(TryRecvError::Empty));
}

#[test]
fn probe_is_recognised() {
    assert!(is_ping("{\"command\":\"ping\"}"));
    assert!(is_ping("  {\t\"command\" :\n\"ping\"\r\n}  "));
    assert!(is_ping("{ \"command\": \"ping\" }\n"));
}

#[test]
fn probe_may_carry_other_members() {
    assert!(is_ping("{\"command\":\"ping\",\"seq\":5}"));
    assert!(is_ping("{\"seq\": -1.5e3, \"command\": \"ping\"}"));
    assert!(is_ping("{\"ok\":true,\"none\":null,\"command\":\"ping\",\"tail\":\"x\"}"));
    assert!(is_ping("{\"data\":{\"a\":[1,\"}\",{\"b\":[]}]},\"command\":\"ping\"}"));
    assert!(is_ping("{\"list\" : [ \"]\", [ ] ] , \"command\" : \"ping\" }"));
    assert!(is_ping("{\"quote\":\"a\\\"b\",\"command\":\"ping\"}"));
    assert!(is_ping("{\"slash\":\"a\\\\\",\"command\":\"ping\"}"));
    assert!(is_ping("{\"nested\":{\"s\":\"\\\"}\"},\"command\":\"ping\"}"));
}

#[test]
fn other_text_is_no_probe() {
    assert!(!is_ping(""));
    assert!(!is_ping("   "));
    assert!(!is_ping("ping"));
    assert!(!is_ping("hello"));
    assert!(!is_ping("\"hello\""));
    assert!(!is_ping("{}"));
    assert!(!is_ping("{"));
    assert!(!is_ping("{\"command\":\"pong\"}"));
    assert!(!is_ping("{\"command\":\"PING\"}"));
    assert!(!is_ping("{\"command\":\"ping\""));
    assert!(!is_ping("{\"command\":\"ping\"}}"));
    assert!(!is_ping("{\"command\":\"ping\"} x"));
    assert!(!is_ping("{\"command\":\"ping\",}"));
    assert!(!is_ping("{,\"command\":\"ping\"}"));
    assert!(!is_ping("{\"command\" \"ping\"}"));
    assert!(!is_ping("{\"command\":}"));
    assert!(!is_ping("{\"command\":\"ping\" \"seq\":5}"));
    assert!(!is_ping("{\"comm and\":\"ping\"}"));
    assert!(!is_ping("{\"command\":\"pi ng\"}"));
    assert!(!is_ping("{\"command\":ping}"));
    assert!(!is_ping("{\"command\":[\"ping\"]}"));
    assert!(!is_ping("{\"text\":\"ping\"}"));
    assert!(!is_ping("{\"ping\":\"command\"}"));
    assert!(!is_ping("[{\"command\":\"ping\"}]"));
    assert!(!is_ping("{\"data\":{\"command\":\"ping\"}}"));
    assert!(!is_ping("{\"data\":\"\\\"command\\\":\\\"ping\\\"\"}"));
    assert!(!is_ping("{\"data\":[1,2,\"command\":\"ping\"}"));
    assert!(!is_ping("{\"data\":\"open,\"command\":\"ping\"}"));
    assert!(!is_ping("{\"data\":\"x\\"));
    assert!(!is_ping("\u{a0}{\"command\":\"ping\"}"));
    assert!(!is_ping("{\"command\":\"p\u{ee}ng\"}"));
}

#[test]
fn frames_are_classified() {
    assert_eq!(classify(&Inbound::Other), Route::Discard);
    assert_eq!(classify(&text("hello")), Route::FanOut);
    assert_eq!(classify(&text("")), Route::FanOut);
    assert_eq!(classify(&text("{\"command\":\"join\"}")), Route::FanOut);
    assert_eq!(classify(&text("{\"command\":\"ping\"}")), Route::Echo);
}

#[test]
fn scopes_follow_route_and_policy() {
    assert_eq!(scope_for(Route::Discard, SelfDelivery::Exclude), None);
    assert_eq!(scope_for(Route::Discard, SelfDelivery::Include), None);
    assert_eq!(scope_for(Route::Echo, SelfDelivery::Exclude), Some(Scope::Only));
    assert_eq!(scope_for(Route::Echo, SelfDelivery::Include), Some(Scope::Only));
    assert_eq!(scope_for(Route::FanOut, SelfDelivery::Exclude), Some(Scope::Peers));
    assert_eq!(scope_for(Route::FanOut, SelfDelivery::Include), Some(Scope::Channel));
}

#[test]
fn three_connections_two_rooms() {
    let mut registry = Registry::new();
    let mut a = join(&mut registry, "room1", 1);
    let mut b = join(&mut registry, "room1", 2);
    let mut c = join(&mut registry, "room2", 3);
    let sender = key("room1", 1);

    let frame = text("hello");
    let outcomes = dispatch(&registry, &sender, &frame, SelfDelivery::Exclude);
    assert_eq!(ids(&outcomes), vec![2]);
    assert!(outcomes[0].accepted);
    assert_eq!(outcomes[0].recipient, key("room1", 2));
    assert_eq!(outcomes[0].payload, "hello");
    assert_eq!(drain(&mut b), vec!["hello".to_string()]);
    assert!(drain(&mut c).is_empty());
    assert!(drain(&mut a).is_empty());

    let probe = "{\"command\":\"ping\"}";
    let frame = text(probe);
    let outcomes = dispatch(&registry, &sender, &frame, SelfDelivery::Exclude);
    assert_eq!(ids(&outcomes), vec![1]);
    assert_eq!(drain(&mut a), vec![probe.to_string()]);
    assert!(drain(&mut b).is_empty());
    assert!(drain(&mut c).is_empty());
}

#[test]
fn broadcast_reaches_every_peer_on_the_channel() {
    let mut registry = Registry::new();
    let mut a = join(&mut registry, "lobby", 1);
    let mut b = join(&mut registry, "lobby", 2);
    let mut c = join(&mut registry, "lobby", 3);
    let frame = text("all");
    let outcomes = dispatch(&registry, &key("lobby", 2), &frame, SelfDelivery::Exclude);
    assert_eq!(ids(&outcomes), vec![1, 3]);
    assert_eq!(drain(&mut a), vec!["all".to_string()]);
    assert!(drain(&mut b).is_empty());
    assert_eq!(drain(&mut c), vec!["all".to_string()]);
}

#[test]
fn include_self_serves_the_sender_too() {
    let mut registry = Registry::new();
    let mut a = join(&mut registry, "room1", 1);
    let mut b = join(&mut registry, "room1", 2);
    let mut c = join(&mut registry, "room2", 3);
    let frame = text("hello");
    let outcomes = dispatch(&registry, &key("room1", 1), &frame, SelfDelivery::Include);
    assert_eq!(ids(&outcomes), vec![1, 2]);
    assert_eq!(drain(&mut a), vec!["hello".to_string()]);
    assert_eq!(drain(&mut b), vec!["hello".to_string()]);
    assert!(drain(&mut c).is_empty());
}

#[test]
fn other_channels_never_hear_a_broadcast() {
    let mut registry = Registry::new();
    let _a = join(&mut registry, "room1", 1);
    let mut c = join(&mut registry, "room2", 1);
    let mut d = join(&mut registry, "room", 2);
    for policy in [SelfDelivery::Exclude, SelfDelivery::Include] {
        let frame = text("secret");
        let outcomes = dispatch(&registry, &key("room1", 1), &frame, policy);
        assert!(outcomes.iter().all(|o| o.recipient.channel() == "room1"));
    }
    assert!(drain(&mut c).is_empty());
    assert!(drain(&mut d).is_empty());
}

#[test]
fn recipient_sees_messages_in_sending_order() {
    let mut registry = Registry::new();
    let _a = join(&mut registry, "room1", 1);
    let mut b = join(&mut registry, "room1", 2);
    let sender = key("room1", 1);
    dispatch(&registry, &sender, &text("m1"), SelfDelivery::Exclude);
    dispatch(&registry, &sender, &text("m2"), SelfDelivery::Exclude);
    dispatch(&registry, &sender, &text("m3"), SelfDelivery::Exclude);
    assert_eq!(drain(&mut b), vec!["m1".to_string(), "m2".to_string(), "m3".to_string()]);
}

#[test]
fn probe_goes_to_the_sender_alone_under_either_policy() {
    let probe = " { \"seq\" : 7, \"command\" : \"ping\" } ";
    for policy in [SelfDelivery::Exclude, SelfDelivery::Include] {
        let mut registry = Registry::new();
        let mut a = join(&mut registry, "room1", 1);
        let mut b = join(&mut registry, "room1", 2);
        let mut c = join(&mut registry, "room2", 3);
        let frame = text(probe);
        let outcomes = dispatch(&registry, &key("room1", 1), &frame, policy);
        assert_eq!(ids(&outcomes), vec![1]);
        assert!(outcomes[0].accepted);
        assert_eq!(outcomes[0].payload, probe);
        assert_eq!(drain(&mut a), vec![probe.to_string()]);
        assert!(drain(&mut b).is_empty());
        assert!(drain(&mut c).is_empty());
    }
}

#[test]
fn probe_from_an_unregistered_sender_goes_nowhere() {
    let mut registry = Registry::new();
    let mut b = join(&mut registry, "room1", 2);
    let frame = text("{\"command\":\"ping\"}");
    let outcomes = dispatch(&registry, &key("room1", 1), &frame, SelfDelivery::Exclude);
    assert!(outcomes.is_empty());
    assert!(drain(&mut b).is_empty());
}

#[test]
fn other_commands_are_forwarded_as_received() {
    let mut registry = Registry::new();
    let _a = join(&mut registry, "room1", 1);
    let mut b = join(&mut registry, "room1", 2);
    let payload = "{ \"command\" : \"say\",  \"body\":\"hi\" }";
    dispatch(&registry, &key("room1", 1), &text(payload), SelfDelivery::Exclude);
    assert_eq!(drain(&mut b), vec![payload.to_string()]);
    let broken = "{ \"command\" : \"ping\"";
    dispatch(&registry, &key("room1", 1), &text(broken), SelfDelivery::Exclude);
    assert_eq!(drain(&mut b), vec![broken.to_string()]);
}

#[test]
fn lonely_sender_enqueues_nothing() {
    let mut registry = Registry::new();
    let mut a = join(&mut registry, "room1", 1);
    let mut c = join(&mut registry, "room2", 2);
    let frame = text("anyone?");
    let outcomes = dispatch(&registry, &key("room1", 1), &frame, SelfDelivery::Exclude);
    assert!(outcomes.is_empty());
    assert!(drain(&mut a).is_empty());
    assert!(drain(&mut c).is_empty());
}

#[test]
fn empty_registry_enqueues_nothing() {
    let registry = Registry::new();
    let frame = text("anyone?");
    let outcomes = dispatch(&registry, &key("room1", 1), &frame, SelfDelivery::Include);
    assert!(outcomes.is_empty());
}

#[test]
fn non_text_frames_are_discarded() {
    let mut registry = Registry::new();
    let mut a = join(&mut registry, "room1", 1);
    let mut b = join(&mut registry, "room1", 2);
    for policy in [SelfDelivery::Exclude, SelfDelivery::Include] {
        let outcomes = dispatch(&registry, &key("room1", 1), &Inbound::Other, policy);
        assert!(outcomes.is_empty());
    }
    assert!(drain(&mut a).is_empty());
    assert!(drain(&mut b).is_empty());
}

#[test]
fn dead_recipient_does_not_stop_the_broadcast() {
    let mut registry = Registry::new();
    let _a = join(&mut registry, "room1", 1);
    let b = join(&mut registry, "room1", 2);
    let mut c = join(&mut registry, "room1", 3);
    drop(b);
    let frame = text("still here");
    let outcomes = dispatch(&registry, &key("room1", 1), &frame, SelfDelivery::Exclude);
    assert_eq!(ids(&outcomes), vec![2, 3]);
    assert!(!outcomes[0].accepted);
    assert!(outcomes[1].accepted);
    assert!(outcomes.iter().all(|o| o.payload == "still here"));
    assert_eq!(drain(&mut c), vec!["still here".to_string()]);
    assert!(registry.contains(&key("room1", 2)));
}

#[test]
fn payload_is_forwarded_byte_for_byte() {
    let mut registry = Registry::new();
    let _a = join(&mut registry, "caf\u{e9}", 1);
    let mut b = join(&mut registry, "caf\u{e9}", 2);
    let mut c = join(&mut registry, "cafe", 3);
    let payload = "  h\u{e9}llo \u{2713}\n{\"command\": \"ping\" ";
    let frame = text(payload);
    let outcomes = dispatch(&registry, &key("caf\u{e9}", 1), &frame, SelfDelivery::Exclude);
    assert_eq!(ids(&outcomes), vec![2]);
    assert_eq!(drain(&mut b), vec![payload.to_string()]);
    assert!(drain(&mut c).is_empty());
}

#[test]
fn empty_text_is_still_a_broadcast() {
    let mut registry = Registry::new();
    let _a = join(&mut registry, "room1", 1);
    let mut b = join(&mut registry, "room1", 2);
    let frame = text("");
    let outcomes = dispatch(&registry, &key("room1", 1), &frame, SelfDelivery::Exclude);
    assert_eq!(ids(&outcomes), vec![2]);
    assert_eq!(drain(&mut b), vec![String::new()]);
}
