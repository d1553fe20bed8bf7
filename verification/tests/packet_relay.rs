use std::cell::RefCell;
use std::collections::VecDeque;
use std::sync::Arc;

use netchat::flood::{MAX_SEEN, MAX_TTL};
use netchat::transport::protocol::flood_relay::FloodRelay;
use netchat::transport::protocol::packet::{decode_packet, encode_packet};

#[derive(Clone, Copy, Debug, PartialEq, Eq, Hash)]
struct Node(u8);

/// A link on which everything sent comes back in.
struct Loop {
    incoming: RefCell<VecDeque<(Node, Vec<u8>)>>,
}

impl Loop {
    fn new() -> Self {
        Loop { incoming: RefCell::new(VecDeque::new()) }
    }

    fn send(&self, peer: Node, data: Vec<u8>) {
        self.incoming.borrow_mut().push_back((peer, data));
    }
}

/// Takes in everything on the link and returns what was delivered.
fn pump(relay: &mut FloodRelay<Loop>) -> Vec<(Node, Vec<u8>)> {
    let inner = relay.inner();
    let mut delivered = Vec::new();
    loop {
        let next = inner.incoming.borrow_mut().pop_front();
        let (peer, bytes) = match next {
            Some(item) => item,
            None => return delivered,
        };
        let reaction = relay.receive(&bytes);
        if let Some(out) = reaction.forward {
            inner.send(peer, out);
        }
        if let Some(payload) = reaction.deliver {
            delivered.push((peer, payload));
        }
    }
}

fn framed(origin: &str, seq: u64, ttl: u8, payload: &[u8]) -> Vec<u8> {
    let mut out = Vec::new();
    out.push(ttl);
    out.extend_from_slice(&seq.to_be_bytes());
    out.extend_from_slice(&(origin.len() as u16).to_be_bytes());
    out.extend_from_slice(origin.as_bytes());
    out.extend_from_slice(payload);
    out
}

#[test]
fn relays_foreign_packet_once() {
    let inner = Arc::new(Loop::new());
    let mut relay = FloodRelay::wrap(inner.clone(), 5);

    let bytes = framed("peer-2", 9, 4, b"hello");
    inner.send(Node(2), bytes);

    let mut rx = pump(&mut relay).into_iter();
    let (peer, payload) = rx.next().unwrap();
    assert_eq!(peer, Node(2));
    assert_eq!(payload, b"hello");

    assert!(rx.next().is_none());
}

#[test]
fn drops_own_echo() {
    let inner = Arc::new(Loop::new());
    let mut relay = FloodRelay::wrap(inner.clone(), 5);

    let bytes = framed(relay.own_id(), 1, 5, b"echo");
    inner.send(Node(1), bytes);

    assert!(pump(&mut relay).is_empty());
}

#[test]
fn forwards_the_packet_with_one_hop_less() {
    let mut relay = FloodRelay::wrap(Arc::new(()), 5);
    let reaction = relay.receive(&framed("peer-2", 9, 4, b"hello"));
    assert_eq!(reaction.forward, Some(framed("peer-2", 9, 3, b"hello")));
    assert_eq!(reaction.deliver, Some(b"hello".to_vec()));
}

#[test]
fn last_hop_is_delivered_and_not_forwarded() {
    let mut relay = FloodRelay::wrap(Arc::new(()), 5);
    let reaction = relay.receive(&framed("peer-2", 9, 1, b"hello"));
    assert_eq!(reaction.forward, None);
    assert_eq!(reaction.deliver, Some(b"hello".to_vec()));
}

#[test]
fn packet_without_hops_leaves_no_trace() {
    let mut relay = FloodRelay::wrap(Arc::new(()), 5);
    let reaction = relay.receive(&framed("peer-2", 9, 0, b"hello"));
    assert_eq!(reaction.forward, None);
    assert_eq!(reaction.deliver, None);
    let reaction = relay.receive(&framed("peer-2", 9, 1, b"hello"));
    assert_eq!(reaction.deliver, Some(b"hello".to_vec()));
}

#[test]
fn same_sender_and_number_is_dropped_whatever_it_carries() {
    let mut relay = FloodRelay::wrap(Arc::new(()), 5);
    assert!(relay.receive(&framed("peer-2", 9, 4, b"one")).deliver.is_some());
    assert!(relay.receive(&framed("peer-2", 9, 7, b"two")).deliver.is_none());
    assert!(relay.receive(&framed("peer-2", 10, 4, b"one")).deliver.is_some());
    assert!(relay.receive(&framed("peer-3", 9, 4, b"one")).deliver.is_some());
}

#[test]
fn copy_with_fewer_hops_is_dropped_after_other_packets() {
    let mut relay = FloodRelay::wrap(Arc::new(()), 5);
    assert!(relay.receive(&framed("peer-2", 9, 4, b"hello")).deliver.is_some());
    for seq in 0..100 {
        assert!(relay.receive(&framed("peer-3", seq, 4, b"")).deliver.is_some());
    }
    let reaction = relay.receive(&framed("peer-2", 9, 2, b"hello"));
    assert_eq!(reaction.forward, None);
    assert_eq!(reaction.deliver, None);
}

#[test]
fn numbers_run_on_between_arrivals() {
    let mut relay = FloodRelay::with_id(Arc::new(()), "me".to_string(), 5);
    for number in 0..3 {
        relay.receive(&framed("peer", number, 4, b""));
        assert_eq!(relay.send(b"x"), framed("me", number, 5, b"x"));
        relay.receive(b"noise");
    }
}

#[test]
fn sends_numbered_packets_under_its_name() {
    let link = Arc::new(7u32);
    let mut relay = FloodRelay::with_id(link.clone(), "me".to_string(), 5);
    assert_eq!(relay.send(b"a"), framed("me", 0, 5, b"a"));
    assert_eq!(relay.send(b"b"), framed("me", 1, 5, b"b"));
    assert_eq!(relay.send(b""), framed("me", 2, 5, b""));
    assert!(Arc::ptr_eq(&relay.inner(), &link));
}

#[test]
fn usual_relay_gives_ten_hops() {
    let mut relay = FloodRelay::new(Arc::new(()));
    let id = relay.own_id().to_string();
    assert_eq!(MAX_TTL, 10);
    assert_eq!(relay.send(b"x"), framed(&id, 0, 10, b"x"));
}

#[test]
fn sent_packet_is_delivered_by_another_relay_only() {
    let mut sender = FloodRelay::with_id(Arc::new(()), "a".to_string(), 2);
    let mut receiver = FloodRelay::with_id(Arc::new(()), "b".to_string(), 2);
    let packet = sender.send(b"data");
    let at_receiver = receiver.receive(&packet);
    assert_eq!(at_receiver.deliver, Some(b"data".to_vec()));
    assert_eq!(at_receiver.forward, Some(framed("a", 0, 1, b"data")));
    let back = sender.receive(&at_receiver.forward.unwrap());
    assert_eq!(back.deliver, None);
    assert_eq!(back.forward, None);
}

#[test]
fn flood_along_a_chain_dies_out() {
    let mut packet = framed("origin", 3, 4, b"far");
    let mut hops = 0;
    loop {
        let mut relay = FloodRelay::with_id(Arc::new(()), format!("relay-{}", hops), 5);
        let reaction = relay.receive(&packet);
        assert_eq!(reaction.deliver, Some(b"far".to_vec()));
        match reaction.forward {
            Some(next) => packet = next,
            None => break,
        }
        hops += 1;
    }
    assert_eq!(hops, 3);
    assert_eq!(packet, framed("origin", 3, 1, b"far"));
}

#[test]
fn forgets_a_packet_after_as_many_others_as_it_remembers() {
    let mut relay = FloodRelay::with_id(Arc::new(()), "me".to_string(), 5);
    let first = framed("peer", 0, 1, b"");
    assert!(relay.receive(&first).deliver.is_some());
    for seq in 1..MAX_SEEN as u64 {
        assert!(relay.receive(&framed("peer", seq, 1, b"")).deliver.is_some());
    }
    assert!(relay.receive(&first).deliver.is_none());
    assert!(relay.receive(&framed("peer", MAX_SEEN as u64, 1, b"")).deliver.is_some());
    assert!(relay.receive(&first).deliver.is_some());
}

#[test]
fn packet_bytes_are_as_laid_out() {
    let packet = encode_packet("ab", 0x0102_0304_0506_0708, 3, &[0xff, 0x00]);
    assert_eq!(
        packet,
        vec![3, 1, 2, 3, 4, 5, 6, 7, 8, 0, 2, b'a', b'b', 0xff, 0x00]
    );
}

#[test]
fn packet_is_read_back_as_written() {
    let packet = encode_packet("caf\u{e9} \u{1f600}", u64::MAX, 255, b"payload");
    let frame = decode_packet(&packet).unwrap();
    assert_eq!(frame.origin, "caf\u{e9} \u{1f600}");
    assert_eq!(frame.seq, u64::MAX);
    assert_eq!(frame.ttl, 255);
    assert_eq!(frame.payload, b"payload");
    assert_eq!(
        encode_packet(&frame.origin, frame.seq, frame.ttl, &frame.payload),
        packet
    );
}

#[test]
fn empty_name_and_payload_are_read() {
    let frame = decode_packet(&framed("", 0, 1, b"")).unwrap();
    assert_eq!(frame.origin, "");
    assert_eq!(frame.seq, 0);
    assert_eq!(frame.ttl, 1);
    assert!(frame.payload.is_empty());
}

#[test]
fn truncated_packets_are_not_read() {
    let packet = framed("name", 1, 1, b"");
    for len in 0..packet.len() {
        assert!(decode_packet(&packet[..len]).is_none());
    }
    assert!(decode_packet(&packet).is_some());
}

#[test]
fn name_that_is_not_utf8_is_not_read() {
    let mut packet = vec![1, 0, 0, 0, 0, 0, 0, 0, 0, 0, 2];
    packet.extend_from_slice(&[0xc3, 0x28]);
    assert!(decode_packet(&packet).is_none());
    packet[12] = 0xa9;
    assert_eq!(decode_packet(&packet).unwrap().origin, "\u{e9}");
}

#[test]
fn length_of_a_long_name_wraps_around() {
    let name = "n".repeat(65_537);
    let packet = encode_packet(&name, 0, 1, b"");
    assert_eq!(packet[9..11], [0, 1]);
    let frame = decode_packet(&packet).unwrap();
    assert_eq!(frame.origin, "n");
    assert_eq!(frame.payload.len(), 65_536);
}
