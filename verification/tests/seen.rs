use netchat::seen::Seen;

fn key(name: &str, seq: u64) -> (String, u64) {
    (name.to_string(), seq)
}

#[test]
fn packet_is_fresh_once() {
    let mut seen = Seen::new(4);
    assert!(seen.insert(key("a", 1)));
    assert!(!seen.insert(key("a", 1)));
    assert!(seen.insert(key("a", 2)));
    assert!(seen.insert(key("b", 1)));
    assert!(!seen.insert(key("b", 1)));
}

#[test]
fn oldest_is_forgotten_first() {
    let mut seen = Seen::new(2);
    assert!(seen.insert(key("a", 1)));
    assert!(seen.insert(key("b", 1)));
    assert!(seen.insert(key("c", 1)));
    assert!(!seen.insert(key("b", 1)));
    assert!(!seen.insert(key("c", 1)));
    assert!(seen.insert(key("a", 1)));
    assert!(seen.insert(key("b", 1)));
}

#[test]
fn seeing_again_does_not_renew() {
    let mut seen = Seen::new(2);
    assert!(seen.insert(key("a", 1)));
    assert!(seen.insert(key("b", 1)));
    assert!(!seen.insert(key("a", 1)));
    assert!(seen.insert(key("c", 1)));
    assert!(seen.insert(key("a", 1)));
}

#[test]
fn forgotten_when_as_many_others_as_there_is_room_for_have_come() {
    let mut seen = Seen::new(3);
    assert!(seen.insert(key("a", 1)));
    assert!(seen.insert(key("b", 1)));
    assert!(seen.insert(key("c", 1)));
    assert!(!seen.insert(key("a", 1)));
    assert!(!seen.insert(key("b", 1)));
    assert!(seen.insert(key("d", 1)));
    assert!(seen.insert(key("a", 1)));
}

#[test]
fn without_room_everything_stays_fresh() {
    let mut seen = Seen::new(0);
    assert!(seen.insert(key("a", 1)));
    assert!(seen.insert(key("a", 1)));
}
