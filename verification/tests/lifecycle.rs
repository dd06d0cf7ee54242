use relay_hub::dispatch::SelfDelivery;
use relay_hub::envelope::Inbound;
use relay_hub::key::ConnectionKey;
use relay_hub::queue::QueueHandle;
use relay_hub::registry::Registry;
use relay_hub::session::{advance, Event, Phase, Session};
use tokio::sync::mpsc::UnboundedReceiver;

fn key(channel: &str, id: usize) -> ConnectionKey {
    ConnectionKey::new(channel.to_string(), id)
}

fn connect(registry: &mut Registry, channel: &str, id: usize) -> (Session, UnboundedReceiver<String>) {
    let (handle, rx) = QueueHandle::open();
    let mut session = Session::new(key(channel, id));
    assert!(session.activate(registry, handle));
    (session, rx)
}

fn drain(rx: &mut UnboundedReceiver<String>) -> Vec<String> {
    let mut got = Vec::new();
    while let Ok(message) = rx.try_recv() {
        got.push(message);
    }
    got
}

#[test]
fn phase_table() {
    let phases = [Phase::Connecting, Phase::Active, Phase::Draining, Phase::Closed];
    assert_eq!(advance(Phase::Connecting, Event::Registered), Phase::Active);
    assert_eq!(advance(Phase::Active, Event::Registered), Phase::Active);
    assert_eq!(advance(Phase::Draining, Event::Registered), Phase::Draining);
    assert_eq!(advance(Phase::Closed, Event::Registered), Phase::Closed);
    assert_eq!(advance(Phase::Connecting, Event::StreamEnded), Phase::Connecting);
    assert_eq!(advance(Phase::Active, Event::StreamEnded), Phase::Draining);
    assert_eq!(advance(Phase::Draining, Event::StreamEnded), Phase::Draining);
    assert_eq!(advance(Phase::Closed, Event::StreamEnded), Phase::Closed);
    for phase in phases {
        assert_eq!(advance(phase, Event::Unregistered), Phase::Closed);
    }
}

#[test]
fn new_session_is_connecting_and_unregistered() {
    let registry = Registry::new();
    let session = Session::new(key("room1", 1));
    assert_eq!(session.phase(), Phase::Connecting);
    assert_eq!(session.key(), &key("room1", 1));
    assert!(!registry.contains(session.key()));
}

#[test]
fn activation_registers_once() {
    let mut registry = Registry::new();
    let (mut session, _rx) = connect(&mut registry, "room1", 1);
    assert_eq!(session.phase(), Phase::Active);
    assert!(registry.contains(&key("room1", 1)));
    assert_eq!(registry.len(), 1);
    let (again, _rx2) = QueueHandle::open();
    assert!(!session.activate(&mut registry, again));
    assert_eq!(session.phase(), Phase::Active);
    assert_eq!(registry.len(), 1);
}

#[test]
fn session_is_unregistered_after_its_stream_ends() {
    let mut registry = Registry::new();
    let (mut a, _rx_a) = connect(&mut registry, "room1", 1);
    let (_b, _rx_b) = connect(&mut registry, "room1", 2);
    a.stream_ended();
    assert_eq!(a.phase(), Phase::Draining);
    assert!(registry.contains(&key("room1", 1)));
    assert!(a.close(&mut registry).is_some());
    assert_eq!(a.phase(), Phase::Closed);
    assert!(!registry.contains(&key("room1", 1)));
    assert!(registry.contains(&key("room1", 2)));
    assert_eq!(registry.len(), 1);
}

#[test]
fn abrupt_close_unregisters_too() {
    let mut registry = Registry::new();
    let (mut a, _rx_a) = connect(&mut registry, "room1", 1);
    assert!(a.close(&mut registry).is_some());
    assert_eq!(a.phase(), Phase::Closed);
    assert!(registry.is_empty());
}

#[test]
fn closing_twice_unregisters_once() {
    let mut registry = Registry::new();
    let (mut a, _rx_a) = connect(&mut registry, "room1", 1);
    a.stream_ended();
    assert!(a.close(&mut registry).is_some());
    let (mut successor, _rx) = connect(&mut registry, "room1", 1);
    assert!(a.close(&mut registry).is_none());
    assert_eq!(a.phase(), Phase::Closed);
    assert!(registry.contains(&key("room1", 1)));
    assert!(successor.close(&mut registry).is_some());
    assert!(registry.is_empty());
}

#[test]
fn closing_a_connecting_session_leaves_the_registry_alone() {
    let mut registry = Registry::new();
    let (_other, _rx) = connect(&mut registry, "room1", 2);
    let mut session = Session::new(key("room1", 1));
    assert!(session.close(&mut registry).is_none());
    assert_eq!(session.phase(), Phase::Closed);
    assert_eq!(registry.len(), 1);
    let (late, _rx2) = QueueHandle::open();
    assert!(!session.activate(&mut registry, late));
    assert_eq!(registry.len(), 1);
}

#[test]
fn only_an_active_session_relays() {
    let mut registry = Registry::new();
    let (mut a, _rx_a) = connect(&mut registry, "room1", 1);
    let (_b, mut rx_b) = connect(&mut registry, "room1", 2);
    let hello = Inbound::Text("hello".to_string());

    let outcomes = a.receive(&registry, &hello, SelfDelivery::Exclude);
    assert_eq!(outcomes.len(), 1);
    assert_eq!(outcomes[0].recipient, key("room1", 2));
    assert_eq!(drain(&mut rx_b), vec!["hello".to_string()]);

    a.stream_ended();
    assert!(a.receive(&registry, &hello, SelfDelivery::Exclude).is_empty());
    a.close(&mut registry);
    assert!(a.receive(&registry, &hello, SelfDelivery::Exclude).is_empty());
    assert!(drain(&mut rx_b).is_empty());

    let idle = Session::new(key("room1", 3));
    assert!(idle.receive(&registry, &hello, SelfDelivery::Include).is_empty());
    assert!(drain(&mut rx_b).is_empty());
}

#[test]
fn closed_session_no_longer_hears_its_channel() {
    let mut registry = Registry::new();
    let (a, _rx_a) = connect(&mut registry, "room1", 1);
    let (mut b, mut rx_b) = connect(&mut registry, "room1", 2);
    b.stream_ended();
    let draining = Inbound::Text("draining".to_string());
    let during = a.receive(&registry, &draining, SelfDelivery::Exclude);
    assert_eq!(during.len(), 1);
    b.close(&mut registry);
    let gone = Inbound::Text("gone".to_string());
    let after = a.receive(&registry, &gone, SelfDelivery::Exclude);
    assert!(after.is_empty());
    assert_eq!(drain(&mut rx_b), vec!["draining".to_string()]);
}
