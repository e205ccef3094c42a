use peer_mesh::peer_counter::PeerCounter;

#[test]
fn counter_starts_at_zero() {
    assert_eq!(PeerCounter::new().get_num_peers(), 0);
}

#[test]
fn counter_follows_connects_and_disconnects() {
    let mut c = PeerCounter::new();
    c.increment();
    c.increment();
    assert_eq!(c.get_num_peers(), 2);
    c.decrement();
    assert_eq!(c.get_num_peers(), 1);
    c.decrement();
    assert_eq!(c.get_num_peers(), 0);
}
