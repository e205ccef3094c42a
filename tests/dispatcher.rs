use peer_mesh::codec::{encode_request, encode_response};
use peer_mesh::message::{ListMode, ListRequest, ListResponse};
use peer_mesh::node::{is_for_me, Action, Event, Node};
use peer_mesh::codec::decode;

fn b(s: &str) -> Vec<u8> {
    s.as_bytes().to_vec()
}

fn announce(n: &mut Node, peer: &str, addr: &str) -> Action {
    n.step(Event::Discovered { peer: b(peer), addr: b(addr) })
}

#[test]
fn scenario_discovery_then_list() {
    let mut p = Node::new(b("P"));
    assert!(matches!(announce(&mut p, "Q", "/ip4/10.0.0.2/tcp/4001"), Action::AddToView(ref q) if *q == b("Q")));
    assert!(matches!(announce(&mut p, "Q", "/ip4/10.0.0.2/tcp/4001"), Action::Ignore));
    match p.step(Event::Input(b("ls p"))) {
        Action::ListPeers(peers) => assert_eq!(peers, vec![b("Q")]),
        _ => panic!("ls p did not list peers"),
    }
}

#[test]
fn unknown_command_is_reported() {
    let mut p = Node::new(b("P"));
    assert!(matches!(p.step(Event::Input(b("list"))), Action::UnknownCommand));
    assert!(matches!(p.step(Event::Input(b("ls p "))), Action::UnknownCommand));
}

#[test]
fn scenario_request_for_one_peer() {
    let payload = encode_request(&ListRequest { mode: ListMode::One(b("Q")) });
    let mut q = Node::new(b("Q"));
    let mut r = Node::new(b("R"));
    announce(&mut q, "S", "a1");
    announce(&mut q, "T", "a2");
    match q.step(Event::Payload { source: b("P"), data: payload.clone() }) {
        Action::RequestForMe { source, reply, .. } => {
            assert_eq!(source, b("P"));
            assert_eq!(reply.receiver, b("P"));
            assert!(matches!(reply.mode, ListMode::One(ref id) if *id == b("Q")));
            assert!(reply.data == b("S\nT") || reply.data == b("T\nS"));
        },
        _ => panic!("request for Q not surfaced at Q"),
    }
    assert!(matches!(r.step(Event::Payload { source: b("P"), data: payload }), Action::Ignore));
}

#[test]
fn request_for_all_reaches_everyone() {
    let payload = encode_request(&ListRequest { mode: ListMode::All });
    let mut r = Node::new(b("R"));
    match r.step(Event::Payload { source: b("P"), data: payload }) {
        Action::RequestForMe { reply, .. } => {
            assert!(matches!(reply.mode, ListMode::All));
            assert!(reply.data.is_empty());
            assert_eq!(reply.receiver, b("P"));
        },
        _ => panic!("request for all not surfaced"),
    }
}

#[test]
fn response_addressing_filter() {
    let resp = ListResponse { mode: ListMode::All, data: b("peers"), receiver: b("B") };
    let payload = encode_response(&resp);
    let mut a = Node::new(b("A"));
    let mut bb = Node::new(b("B"));
    assert!(matches!(a.step(Event::Payload { source: b("C"), data: payload.clone() }), Action::Ignore));
    match bb.step(Event::Payload { source: b("C"), data: payload.clone() }) {
        Action::ResponseForMe { response, .. } => assert_eq!(response.data, b("peers")),
        _ => panic!("response for B not surfaced at B"),
    }
    let m = decode(&payload).unwrap();
    assert!(is_for_me(&b("B"), &m));
    assert!(!is_for_me(&b("A"), &m));
}

#[test]
fn foreign_payload_is_ignored() {
    let mut a = Node::new(b("A"));
    assert!(matches!(a.step(Event::Payload { source: b("C"), data: b("not json") }), Action::Ignore));
}

#[test]
fn scenario_expiry_removes_peer() {
    let mut p = Node::new(b("P"));
    announce(&mut p, "Q", "a1");
    announce(&mut p, "Q", "a2");
    assert!(matches!(p.step(Event::Expired { peer: b("Q"), addr: b("a1") }), Action::Ignore));
    assert!(p.table.has_node(&b("Q")));
    assert!(matches!(
        p.step(Event::Expired { peer: b("Q"), addr: b("a2") }),
        Action::RemoveFromView(ref q) if *q == b("Q")
    ));
    match p.step(Event::Input(b("ls p"))) {
        Action::ListPeers(peers) => assert!(peers.is_empty()),
        _ => panic!("ls p did not list peers"),
    }
}

#[test]
fn count_persists_across_steps() {
    let mut p = Node::new(b("P"));
    assert!(matches!(p.step(Event::Connected(b("Q"))), Action::PeerCount(1)));
    assert!(matches!(p.step(Event::Connected(b("R"))), Action::PeerCount(2)));
    assert!(matches!(p.step(Event::Other), Action::Ignore));
    assert!(matches!(p.step(Event::Disconnected(b("Q"))), Action::PeerCount(1)));
    assert_eq!(p.counter.get_num_peers(), 1);
}

#[test]
fn disconnect_on_empty_registry_is_rejected() {
    let mut p = Node::new(b("P"));
    assert!(matches!(p.step(Event::Disconnected(b("Q"))), Action::CountRejected));
    assert_eq!(p.counter.get_num_peers(), 0);
}

#[test]
fn queued_response_is_published() {
    let resp = ListResponse { mode: ListMode::One(b("Q")), data: b("d"), receiver: b("Q") };
    let mut p = Node::new(b("P"));
    match p.step(Event::Response(resp)) {
        Action::Publish(bytes) => {
            assert_eq!(bytes, br#"{"mode":{"One":"Q"},"data":"d","receiver":"Q"}"#.to_vec())
        },
        _ => panic!("queued response not published"),
    }
}
