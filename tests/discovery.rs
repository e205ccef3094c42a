use peer_mesh::discovery::DiscoveryTable;

fn b(s: &str) -> Vec<u8> {
    s.as_bytes().to_vec()
}

#[test]
fn repeated_announcement_is_one_entry() {
    let mut t = DiscoveryTable::new();
    assert!(t.insert(&b("Q"), &b("/ip4/10.0.0.2/tcp/4001")));
    assert!(!t.insert(&b("Q"), &b("/ip4/10.0.0.2/tcp/4001")));
    assert!(!t.insert(&b("Q"), &b("/ip4/10.0.0.2/tcp/4001")));
    assert_eq!(t.discovered_peers(), vec![b("Q")]);
}

#[test]
fn two_addresses_list_the_peer_once() {
    let mut t = DiscoveryTable::new();
    assert!(t.insert(&b("Q"), &b("a1")));
    assert!(t.insert(&b("Q"), &b("a2")));
    assert!(t.insert(&b("R"), &b("a3")));
    let peers = t.discovered_peers();
    assert_eq!(peers.len(), 2);
    assert!(peers.contains(&b("Q")));
    assert!(peers.contains(&b("R")));
}

#[test]
fn expiry_guard_keeps_peer_with_live_lease() {
    let mut t = DiscoveryTable::new();
    t.insert(&b("Q"), &b("a1"));
    t.insert(&b("Q"), &b("a2"));
    t.remove(&b("Q"), &b("a1"));
    assert!(t.has_node(&b("Q")));
    t.remove(&b("Q"), &b("a2"));
    assert!(!t.has_node(&b("Q")));
    assert!(t.discovered_peers().is_empty());
}

#[test]
fn removing_unknown_lease_changes_nothing() {
    let mut t = DiscoveryTable::new();
    t.insert(&b("Q"), &b("a1"));
    t.remove(&b("Q"), &b("a9"));
    t.remove(&b("Z"), &b("a1"));
    assert!(t.has_node(&b("Q")));
    assert!(!t.has_node(&b("Z")));
}
