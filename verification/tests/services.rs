use std::sync::Arc;

use netchat::buffers::chat::ChatBuffer;
use netchat::buffers::Buffer;
use netchat::identity::{fresh_id, ID_LEN};
use netchat::router::{Destination, Router};
use netchat::services::chat::ChatService;
use netchat::services::discovery::{Discovery, HEARTBEAT_INTERVAL, HEARTBEAT_TIMEOUT};
use netchat::transport::ble::PeripheralRequest;
use netchat::{Message, NetChat};

fn text(text: &str) -> String {
    text.to_string()
}

fn chat(message: &str, target: &str) -> Message {
    Message::Chat { message: text(message), target: text(target) }
}

fn beat(id: &str) -> Message {
    Message::HeartBeat { id: text(id) }
}

fn sorted(mut names: Vec<String>) -> Vec<String> {
    names.sort();
    names
}

#[test]
fn chat_shows_messages_to_everyone_and_to_itself() {
    let service = ChatService::new(text("me"));
    assert_eq!(service.handle("bob", chat("hello", "")), Some(text("[bob]: hello")));
    assert_eq!(service.handle("bob", chat("psst", "me")), Some(text("[bob]: psst")));
}

#[test]
fn chat_hides_messages_to_others_and_heartbeats() {
    let service = ChatService::new(text("me"));
    assert_eq!(service.handle("bob", chat("psst", "you")), None);
    assert_eq!(service.handle("bob", beat("me")), None);
}

#[test]
fn typed_line_is_echoed_and_goes_to_everyone() {
    let outgoing = ChatService::compose(text("good morning"));
    assert_eq!(outgoing.echo, "[You]: good morning");
    match &outgoing.message {
        Message::Chat { message, target } => {
            assert_eq!(message, "good morning");
            assert_eq!(target, "");
        }
        other => panic!("unexpected {:?}", other),
    }
    let other = ChatService::new(text("someone"));
    assert_eq!(other.handle("bob", outgoing.message), Some(text("[bob]: good morning")));
}

#[test]
fn heartbeat_times() {
    assert_eq!(HEARTBEAT_INTERVAL, 5_000_000_000);
    assert_eq!(HEARTBEAT_TIMEOUT, 15_000_000_000);
}

#[test]
fn discovered_device_is_connected_to_once() {
    let mut discovery = Discovery::new(vec![], text("me"));
    let device = text("dev");
    assert!(discovery.on_discovered(&device));
    discovery.on_connect(device.clone(), false, 0);
    assert!(discovery.on_discovered(&device));
    discovery.on_connect(device.clone(), true, 0);
    assert!(!discovery.on_discovered(&device));
}

#[test]
fn silent_peer_is_lost_after_the_timeout() {
    let mut discovery = Discovery::new(vec![], text("me"));
    discovery.on_connect(text("dev"), true, 100);
    let tick = discovery.on_tick(100 + HEARTBEAT_TIMEOUT);
    assert!(tick.lost.is_empty());
    assert_eq!(tick.targets, vec![text("dev")]);
    let tick = discovery.on_tick(101 + HEARTBEAT_TIMEOUT);
    assert_eq!(tick.lost, vec![text("dev")]);
    assert!(tick.targets.is_empty());
    let tick = discovery.on_tick(102 + HEARTBEAT_TIMEOUT);
    assert!(tick.lost.is_empty());
    assert!(discovery.on_discovered(&text("dev")));
}

#[test]
fn heard_peer_is_kept() {
    let mut discovery = Discovery::new(vec![], text("me"));
    discovery.on_connect(text("dev"), true, 0);
    discovery.on_heartbeat(text("dev"), beat("bob"), HEARTBEAT_TIMEOUT);
    let tick = discovery.on_tick(2 * HEARTBEAT_TIMEOUT);
    assert!(tick.lost.is_empty());
    assert_eq!(tick.targets, vec![text("dev")]);
}

#[test]
fn clock_before_last_sign_of_life_loses_no_one() {
    let mut discovery = Discovery::new(vec![], text("me"));
    discovery.on_connect(text("dev"), true, u128::MAX);
    assert!(discovery.on_tick(0).lost.is_empty());
}

#[test]
fn name_is_told_when_new_or_changed() {
    let mut discovery = Discovery::new(vec![], text("me"));
    let first = discovery.on_heartbeat(text("dev"), beat("bob"), 1);
    assert_eq!(first, Some(text("Peer dev has id bob")));
    assert_eq!(discovery.on_heartbeat(text("dev"), beat("bob"), 2), None);
    let changed = discovery.on_heartbeat(text("dev"), beat("eve"), 3);
    assert_eq!(changed, Some(text("Peer dev has id eve")));
}

#[test]
fn chat_message_is_no_sign_of_life() {
    let mut discovery = Discovery::new(vec![], text("me"));
    discovery.on_connect(text("dev"), true, 0);
    assert_eq!(discovery.on_heartbeat(text("dev"), chat("x", ""), HEARTBEAT_TIMEOUT), None);
    assert_eq!(discovery.on_tick(HEARTBEAT_TIMEOUT + 1).lost, vec![text("dev")]);
}

#[test]
fn lost_device_returns_under_its_known_name() {
    let mut discovery = Discovery::new(vec![], text("me"));
    discovery.on_connect(text("dev"), true, 0);
    assert!(discovery.on_heartbeat(text("dev"), beat("bob"), 0).is_some());
    assert_eq!(discovery.on_tick(HEARTBEAT_TIMEOUT + 1).lost, vec![text("dev")]);
    discovery.on_connect(text("dev"), true, HEARTBEAT_TIMEOUT + 2);
    assert!(!discovery.on_discovered(&text("dev")));
    assert_eq!(discovery.on_heartbeat(text("dev"), beat("bob"), HEARTBEAT_TIMEOUT + 3), None);
}

#[test]
fn tick_tells_the_own_name_to_every_peer() {
    let mut discovery = Discovery::new(vec![], text("me"));
    discovery.on_connect(text("b"), true, 0);
    discovery.on_connect(text("a"), true, 0);
    let tick = discovery.on_tick(1);
    assert_eq!(sorted(tick.targets), vec![text("a"), text("b")]);
    assert!(matches!(tick.heartbeat, Message::HeartBeat { id } if id == "me"));
}

#[test]
fn stranger_heard_of_is_watched_but_not_told() {
    let mut discovery = Discovery::new(vec![], text("me"));
    discovery.on_heartbeat(text("dev"), beat("bob"), 0);
    assert!(discovery.on_tick(1).targets.is_empty());
    assert_eq!(discovery.on_tick(HEARTBEAT_TIMEOUT + 1).lost, vec![text("dev")]);
}

#[test]
fn peers_given_at_the_start_are_told_and_not_watched() {
    let mut discovery = Discovery::new(vec![text("a"), text("b"), text("a")], text("me"));
    assert!(!discovery.on_discovered(&text("a")));
    let tick = discovery.on_tick(u128::MAX);
    assert!(tick.lost.is_empty());
    assert_eq!(sorted(tick.targets), vec![text("a"), text("b")]);
}

#[test]
fn made_connections_are_subscribed_to() {
    assert!(Discovery::after_connecting(true));
    assert!(!Discovery::after_connecting(false));
}

#[test]
fn every_peer_is_watched_from_its_connection_on() {
    let mut discovery = Discovery::new(vec![], text("me"));
    discovery.on_connect(text("a"), true, 0);
    discovery.on_heartbeat(text("b"), beat("bob"), 0);
    discovery.on_connect(text("b"), true, 1);
    let tick = discovery.on_tick(HEARTBEAT_TIMEOUT + 2);
    assert_eq!(sorted(tick.lost), vec![text("a"), text("b")]);
    assert!(tick.targets.is_empty());
}

#[test]
fn lines_about_connections() {
    assert_eq!(Discovery::connection_line("dev", Ok(())), "Connected to dev");
    assert_eq!(Discovery::connection_line("dev", Err("busy")), "Connection failed: busy");
    assert_eq!(Discovery::loss_line("dev"), "Lost connection to dev");
}

fn write(char_uuid: u128, expects_reply: bool) -> PeripheralRequest {
    PeripheralRequest::Write { client_id: text("dev"), char_uuid, value: vec![1], expects_reply }
}

#[test]
fn messages_are_routed_to_their_service() {
    let router = Router::new();
    assert!(router.wants(&write(ChatBuffer::UUID, false)));

    let routing = router.route(write(ChatBuffer::UUID, true), Some(chat("hi", "")));
    let delivery = routing.delivery.unwrap();
    assert!(routing.reply);
    assert_eq!(delivery.client_id, "dev");
    assert_eq!(delivery.destination, Destination::Chat);
    assert!(matches!(delivery.message, Message::Chat { message, .. } if message == "hi"));

    let routing = router.route(write(ChatBuffer::UUID, false), Some(beat("bob")));
    let delivery = routing.delivery.unwrap();
    assert!(!routing.reply);
    assert_eq!(delivery.destination, Destination::HeartBeat);
    assert!(matches!(delivery.message, Message::HeartBeat { id } if id == "bob"));
}

#[test]
fn other_writes_are_confirmed_and_go_nowhere() {
    let router = Router::new();
    assert!(!router.wants(&write(1, true)));
    let routing = router.route(write(1, true), Some(chat("hi", "")));
    assert!(routing.delivery.is_none());
    assert!(routing.reply);
    let routing = router.route(write(ChatBuffer::UUID, true), None);
    assert!(routing.delivery.is_none());
    assert!(routing.reply);
}

#[test]
fn other_requests_are_ignored() {
    let router = Router::new();
    assert!(!router.wants(&PeripheralRequest::Other));
    let routing = router.route(PeripheralRequest::Other, Some(chat("hi", "")));
    assert!(routing.delivery.is_none());
    assert!(!routing.reply);
}

#[test]
fn message_tells_its_service() {
    assert_eq!(Router::destination(&chat("", "")), Destination::Chat);
    assert_eq!(Router::destination(&beat("")), Destination::HeartBeat);
}

#[test]
fn started_chat_goes_by_one_random_name() {
    let net = NetChat::new(3u8);
    let transport = net.transport.clone();
    let mut session = net.start();
    assert!(Arc::ptr_eq(&session.transport, &transport));
    let own_id = session.chat.own_id.clone();
    assert_eq!(uuid::Uuid::parse_str(&own_id).unwrap().get_version_num(), 4);
    let tick = session.discovery.on_tick(0);
    assert!(tick.targets.is_empty());
    assert!(matches!(tick.heartbeat, Message::HeartBeat { id } if id == own_id));
}

#[test]
fn chat_can_be_started_under_a_given_name() {
    let session = NetChat::new(()).start_as(text("me"));
    assert_eq!(session.chat.own_id, "me");
    assert_eq!(session.chat.handle("bob", chat("x", "me")), Some(text("[bob]: x")));
}

#[test]
fn fresh_names_are_hyphenated_and_differ() {
    let name = fresh_id();
    assert_eq!(name.len(), ID_LEN);
    let id = uuid::Uuid::parse_str(&name).unwrap();
    assert_eq!(id.to_string(), name);
    assert_eq!(id.get_version_num(), 4);
    assert_eq!(id.get_variant(), uuid::Variant::RFC4122);
    for place in [8, 13, 18, 23] {
        assert_eq!(name.as_bytes()[place], b'-');
    }
    assert_ne!(fresh_id(), name);
}
