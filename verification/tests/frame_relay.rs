use std::sync::Arc;

use netchat::flood::MAX_SEEN;
use netchat::relays::fan_out::{FanOut, FanOutError, Rule, NO_INNER_TRANSPORTS};
use netchat::relays::flood_relay::{FloodRelay, Reception};
use netchat::Frame;

fn frame(origin: &str, seq: u64, ttl: u8, payload: &[u8]) -> Frame {
    Frame::new(origin.to_string(), seq, ttl, payload.to_vec())
}

fn relay() -> FloodRelay<u8> {
    FloodRelay::with_id(vec![Arc::new(1), Arc::new(2)], "me".to_string(), 5)
}

fn links<E>(run: &mut FanOut<u8, E>, mut outcome: impl FnMut(u8) -> Result<(), E>) -> Vec<u8> {
    let mut tried = Vec::new();
    while let Some(link) = run.next() {
        tried.push(*link);
        run.record(outcome(*link));
    }
    tried
}

#[test]
fn frame_keeps_its_parts() {
    let made = frame("a", 1, 2, b"xyz");
    assert_eq!(made.origin, "a");
    assert_eq!(made.seq, 1);
    assert_eq!(made.ttl, 2);
    assert_eq!(made.payload, b"xyz");
}

#[test]
fn frame_with_hops_left_is_relayed_and_delivered() {
    let mut relay = relay();
    match relay.receive(Some(frame("you", 4, 3, b"data"))) {
        Reception::Relay(passed) => {
            assert_eq!(passed.origin, "you");
            assert_eq!(passed.seq, 4);
            assert_eq!(passed.ttl, 2);
            assert_eq!(passed.payload, b"data");
            let mut next = relay.forward::<()>(passed, Some(vec![9, 9])).unwrap();
            assert_eq!(next.send, vec![9, 9]);
            assert_eq!(next.deliver, b"data");
            assert_eq!(links(&mut next.run, |_| Err(())), vec![1, 2]);
        }
        other => panic!("unexpected {:?}", other),
    }
}

#[test]
fn frame_that_cannot_be_encoded_is_not_delivered() {
    let mut relay = relay();
    match relay.receive(Some(frame("you", 4, 3, b"data"))) {
        Reception::Relay(passed) => assert!(relay.forward::<()>(passed, None).is_none()),
        other => panic!("unexpected {:?}", other),
    }
}

#[test]
fn frames_out_of_hops_are_delivered_only() {
    let mut relay = relay();
    for ttl in 0..2u8 {
        match relay.receive(Some(frame("you", ttl as u64, ttl, b"data"))) {
            Reception::Deliver(payload) => assert_eq!(payload, b"data"),
            other => panic!("unexpected {:?}", other),
        }
    }
}

#[test]
fn own_known_and_unreadable_frames_are_dropped() {
    let mut relay = relay();
    assert!(matches!(relay.receive(None), Reception::Drop));
    assert!(matches!(relay.receive(Some(frame("me", 0, 9, b""))), Reception::Drop));
    assert!(matches!(relay.receive(Some(frame("you", 0, 9, b""))), Reception::Relay(_)));
    assert!(matches!(relay.receive(Some(frame("you", 0, 1, b"z"))), Reception::Drop));
}

#[test]
fn frame_is_taken_up_once_while_remembered() {
    let mut relay = relay();
    for seq in 0..MAX_SEEN as u64 {
        assert!(matches!(relay.receive(Some(frame("you", seq, 1, b""))), Reception::Deliver(_)));
    }
    assert!(matches!(relay.receive(Some(frame("you", 0, 1, b""))), Reception::Drop));
    let one_more = frame("you", MAX_SEEN as u64, 1, b"");
    assert!(matches!(relay.receive(Some(one_more)), Reception::Deliver(_)));
    assert!(matches!(relay.receive(Some(frame("you", 0, 1, b""))), Reception::Deliver(_)));
}

#[test]
fn copy_with_fewer_hops_is_dropped_after_other_frames() {
    let mut relay = relay();
    assert!(matches!(relay.receive(Some(frame("you", 0, 9, b"x"))), Reception::Relay(_)));
    assert!(matches!(relay.receive(Some(frame("they", 0, 1, b"y"))), Reception::Deliver(_)));
    assert!(matches!(relay.receive(None), Reception::Drop));
    assert!(matches!(relay.receive(Some(frame("you", 0, 7, b"z"))), Reception::Drop));
}

#[test]
fn numbers_run_on_whatever_comes_between() {
    let mut relay = relay();
    assert_eq!(relay.broadcast::<()>(b"").frame.seq, 0);
    relay.receive(Some(frame("you", 40, 9, b"x")));
    relay.add_transport(Arc::new(3));
    let mut failed = relay.broadcast::<&str>(b"");
    assert_eq!(failed.frame.seq, 1);
    assert_eq!(links(&mut failed.run, |_| Err("down")), vec![1]);
    assert!(failed.run.finish().is_err());
    relay.receive(None);
    assert_eq!(relay.broadcast::<()>(b"").frame.seq, 2);
}

#[test]
fn broadcast_numbers_its_frames() {
    let mut relay = relay();
    for number in 0..3u64 {
        let mut sending = relay.broadcast::<&str>(b"hi");
        assert_eq!(sending.frame.origin, "me");
        assert_eq!(sending.frame.seq, number);
        assert_eq!(sending.frame.ttl, 5);
        assert_eq!(sending.frame.payload, b"hi");
        assert_eq!(links(&mut sending.run, |_| Ok(())), vec![1, 2]);
        assert!(sending.run.finish().is_ok());
    }
}

#[test]
fn broadcast_stops_at_the_first_failure() {
    let mut relay = relay();
    let mut sending = relay.broadcast::<&str>(b"hi");
    assert_eq!(links(&mut sending.run, |_| Err("down")), vec![1]);
    assert!(matches!(sending.run.finish(), Err(FanOutError::Link("down"))));
}

#[test]
fn links_are_kept_in_order() {
    let mut relay = FloodRelay::with_inner_transports(vec![Arc::new(1u8)]);
    relay.add_transport(Arc::new(2));
    relay.add_transport(Arc::new(3));
    let numbers: Vec<u8> = relay.transports().iter().map(|link| **link).collect();
    assert_eq!(numbers, vec![1, 2, 3]);
    assert_eq!(relay.inners_arc().len(), 3);
    assert_eq!(relay.broadcast::<()>(b"").frame.ttl, 10);
}

#[test]
fn new_relay_has_one_link_and_a_random_name() {
    let relay = FloodRelay::new(8u8);
    assert_eq!(*relay.inners_arc()[0], 8);
    assert_eq!(relay.inners_arc().len(), 1);
    assert_eq!(uuid::Uuid::parse_str(relay.own_id()).unwrap().get_version_num(), 4);
}

#[test]
fn connecting_takes_the_first_link_that_works() {
    let relay = relay();
    let mut run = relay.connect::<&str>();
    assert_eq!(links(&mut run, |_| Ok(())), vec![1]);
    assert!(run.finish().is_ok());

    let mut run = relay.subscribe::<&str>();
    assert_eq!(links(&mut run, |link| if link == 1 { Err("one") } else { Ok(()) }), vec![1, 2]);
    assert!(run.finish().is_ok());

    let mut run = relay.first_success::<u8>();
    assert_eq!(links(&mut run, Err), vec![1, 2]);
    assert!(matches!(run.finish(), Err(FanOutError::Link(2))));
}

#[test]
fn connecting_without_links_fails() {
    let relay: FloodRelay<u8> = FloodRelay::wrap(vec![], 5);
    let run = relay.connect::<&str>();
    assert!(run.next().is_none());
    assert!(matches!(run.finish(), Err(FanOutError::NoLinks)));
    assert_eq!(NO_INNER_TRANSPORTS, "no inner transports");
    let error = relay.first_success::<&str>().finish().unwrap_err();
    assert_eq!(error.text(), Some("no inner transports"));
    assert_eq!(FanOutError::Link("busy").text(), None);
    assert!(relay.advertise::<&str>().finish().is_ok());
}

#[test]
fn advertising_and_scanning_stop_at_the_first_failure() {
    let relay = relay();
    let mut run = relay.advertise::<u8>();
    assert_eq!(links(&mut run, Err), vec![1]);
    assert!(matches!(run.finish(), Err(FanOutError::Link(1))));
    let mut run = relay.scan::<u8>();
    assert_eq!(links(&mut run, |link| if link == 2 { Err(link) } else { Ok(()) }), vec![1, 2]);
    assert!(matches!(run.finish(), Err(FanOutError::Link(2))));
}

#[test]
fn disconnecting_minds_no_failure() {
    let relay = relay();
    let mut run = relay.disconnect::<u8>();
    assert_eq!(links(&mut run, Err), vec![1, 2]);
    assert!(run.finish().is_ok());
}

#[test]
fn run_over_given_links() {
    let mut run: FanOut<u8, &str> = FanOut::new(Rule::FirstSuccess, vec![Arc::new(5)]);
    assert_eq!(run.next(), Some(Arc::new(5)));
    run.record(Err("no"));
    assert_eq!(run.next(), None);
    assert!(matches!(run.finish(), Err(FanOutError::Link("no"))));
}
