use mycelium::codec::ControlPacket;
use mycelium::node::Node;
use mycelium::peer::{Endpoint, Peer, PeerExists, PeerManager, PeerNotFound};

fn ep(b: u8, port: u16) -> Endpoint {
    Endpoint { address: vec![b; 16], port }
}

#[test]
fn add_peer_twice() {
    let mut m = PeerManager::new();
    assert_eq!(m.add_peer(ep(1, 9651)), Ok(()));
    assert_eq!(m.add_peer(ep(1, 9651)), Err(PeerExists));
    assert_eq!(m.add_peer(ep(1, 9652)), Ok(()));
    assert_eq!(m.len(), 2);
}

#[test]
fn remove_peer_twice() {
    let mut m = PeerManager::new();
    m.add_peer(ep(1, 9651)).unwrap();
    m.add_peer(ep(2, 9651)).unwrap();
    assert_eq!(m.remove_peer(&ep(1, 9651)), Ok(0));
    assert_eq!(m.remove_peer(&ep(1, 9651)), Err(PeerNotFound));
    assert_eq!(m.len(), 1);
    assert_eq!(m.peer_id(&ep(2, 9651)), Some(1));
}

#[test]
fn node_registry_errors() {
    let mut n = Node::new(vec![0; 16]);
    assert_eq!(n.add_peer(ep(3, 1)), Ok(()));
    assert_eq!(n.add_peer(ep(3, 1)), Err(PeerExists));
    assert_eq!(n.remove_peer(&ep(3, 1)), Ok(()));
    assert_eq!(n.remove_peer(&ep(3, 1)), Err(PeerNotFound));
}

#[test]
fn hello_stamps_and_advances_counter() {
    let mut p = Peer::new(4, ep(1, 1));
    let h = ControlPacket::new_hello(&mut p, 10);
    assert_eq!(h, ControlPacket::Hello { seqno: 0, interval: 10 });
    assert_eq!(p.hello_seqno(), 1);
    for _ in 0..65535 {
        p.increment_hello_seqno();
    }
    assert_eq!(p.hello_seqno(), 0);
}

#[test]
fn send_hello_to_every_peer() {
    let mut m = PeerManager::new();
    m.add_peer(ep(1, 1)).unwrap();
    m.add_peer(ep(2, 1)).unwrap();
    let first = m.send_hello(10);
    assert_eq!(first.len(), 2);
    assert_eq!(first[1].0, 1);
    assert_eq!(first[1].1, ControlPacket::Hello { seqno: 0, interval: 10 });
    let second = m.send_hello(10);
    assert_eq!(second[0].1, ControlPacket::Hello { seqno: 1, interval: 10 });
}

#[test]
fn hello_is_answered_with_ihu() {
    let mut n = Node::new(vec![0; 16]);
    let r = n.handle_control(ControlPacket::Hello { seqno: 3, interval: 10 }, 0, vec![10, 0, 0, 2], 10);
    assert_eq!(r, Some(ControlPacket::new_ihu(10, vec![10, 0, 0, 2])));
    let r = n.handle_control(ControlPacket::Ihu { metric: 0, interval: 10, address: None }, 0, vec![], 10);
    assert_eq!(r, None);
}

#[test]
fn peer_info_snapshot() {
    let mut m = PeerManager::new();
    m.add_peer(ep(1, 1)).unwrap();
    m.add_peer(ep(2, 2)).unwrap();
    m.send_hello(5);
    let info = m.peer_info();
    assert_eq!(info.len(), 2);
    assert_eq!(info[0].id, 0);
    assert_eq!(info[1].endpoint, ep(2, 2));
    assert_eq!(info[1].hello_seqno, 1);
}

#[test]
fn endpoint_of_id_lookup() {
    let mut m = PeerManager::new();
    m.add_peer(ep(1, 1)).unwrap();
    m.add_peer(ep(2, 2)).unwrap();
    assert_eq!(m.endpoint_of_id(1), Some(ep(2, 2)));
    assert_eq!(m.endpoint_of_id(7), None);
}
