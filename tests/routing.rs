use mycelium::codec::{Subnet, Update};
use mycelium::node::{DataPacket, Dispatch, Node};
use mycelium::peer::Endpoint;
use mycelium::route::{RouteEntry, RouteTable};
use mycelium::seqno::{is_newer, next_seqno, INFINITE_METRIC};
use mycelium::api::Metric;

fn db8() -> Subnet {
    let mut a = vec![0u8; 16];
    a[0] = 0x20;
    a[1] = 0x01;
    a[2] = 0x0d;
    a[3] = 0xb8;
    Subnet::new(a, 32).unwrap()
}

fn db8_64() -> Subnet {
    let mut a = vec![0u8; 16];
    a[0] = 0x20;
    a[1] = 0x01;
    a[2] = 0x0d;
    a[3] = 0xb8;
    a[7] = 0x01;
    Subnet::new(a, 64).unwrap()
}

fn update(subnet: Subnet, seqno: u16, metric: u16, key: u8) -> Update {
    Update { interval: 100, seqno, metric, subnet, router_id: vec![key; 32] }
}

fn selected(t: &RouteTable) -> Vec<RouteEntry> {
    t.selected_routes()
}

#[test]
fn seqno_comparison_wraps() {
    assert!(is_newer(6, 5));
    assert!(!is_newer(5, 6));
    assert!(!is_newer(5, 5));
    assert!(is_newer(0, 65535));
    assert!(!is_newer(65535, 0));
    assert!(is_newer(100, 65000));
    assert!(!is_newer(32768, 0));
    assert!(is_newer(32767, 0));
    assert_eq!(next_seqno(65535), 0);
    assert_eq!(next_seqno(7), 8);
}

#[test]
fn same_seqno_lower_metric_switches_selection() {
    let mut t = RouteTable::new();
    t.receive_update(update(db8(), 5, 3, 1), 10);
    let s = selected(&t);
    assert_eq!(s.len(), 1);
    assert_eq!(s[0].router_id, vec![1u8; 32]);
    t.receive_update(update(db8(), 5, 1, 2), 20);
    let s = selected(&t);
    assert_eq!(s.len(), 1);
    assert_eq!(s[0].router_id, vec![2u8; 32]);
    assert_eq!(s[0].neighbour, 20);
    assert_eq!(s[0].metric, 1);
    let f = t.fallback_routes();
    assert_eq!(f.len(), 1);
    assert_eq!(f[0].neighbour, 10);
}

#[test]
fn infinite_update_is_recorded_not_selected() {
    let mut t = RouteTable::new();
    t.receive_update(update(db8(), 1, INFINITE_METRIC, 1), 10);
    assert_eq!(t.len(), 1);
    assert!(selected(&t).is_empty());
    assert!(t.fallback_routes().is_empty());
}

#[test]
fn retraction_promotes_fallback() {
    let mut t = RouteTable::new();
    t.receive_update(update(db8(), 5, 5, 1), 1);
    t.receive_update(update(db8(), 6, 8, 2), 2);
    let s = selected(&t);
    assert_eq!(s.len(), 1);
    assert_eq!(s[0].neighbour, 1);
    assert_eq!(s[0].metric, 5);
    t.retract(&db8(), 1);
    let s = selected(&t);
    assert_eq!(s.len(), 1);
    assert_eq!(s[0].neighbour, 2);
    assert_eq!(s[0].metric, 8);
    t.retract(&db8(), 2);
    assert!(selected(&t).is_empty());
    assert_eq!(t.len(), 2);
}

#[test]
fn older_update_is_never_selected() {
    let mut t = RouteTable::new();
    t.receive_update(update(db8(), 10, 50, 1), 1);
    t.receive_update(update(db8(), 9, 1, 2), 2);
    let s = selected(&t);
    assert_eq!(s.len(), 1);
    assert_eq!(s[0].neighbour, 1);
    assert!(t.fallback_routes().is_empty());
    // a newer one with a worse metric is feasible but loses on metric
    t.receive_update(update(db8(), 11, 60, 3), 3);
    let s = selected(&t);
    assert_eq!(s[0].neighbour, 1);
    assert_eq!(t.fallback_routes().len(), 1);
}

#[test]
fn one_selected_route_per_subnet() {
    let mut t = RouteTable::new();
    for n in 0..6u64 {
        t.receive_update(update(db8(), 3, 10 - n as u16, n as u8), n);
        t.receive_update(update(db8_64(), 3, 4, n as u8), n);
    }
    let s = selected(&t);
    assert_eq!(s.len(), 2);
    let a: Vec<&RouteEntry> = s.iter().filter(|r| r.subnet.prefix_len == 32).collect();
    assert_eq!(a.len(), 1);
    assert_eq!(a[0].metric, 5);
    // equal metrics: the route already selected stays
    let b: Vec<&RouteEntry> = s.iter().filter(|r| r.subnet.prefix_len == 64).collect();
    assert_eq!(b[0].neighbour, 0);
}

#[test]
fn retract_all_removes_routes_through_peer() {
    let mut t = RouteTable::new();
    t.receive_update(update(db8(), 1, 1, 1), 7);
    t.receive_update(update(db8_64(), 1, 1, 1), 7);
    t.receive_update(update(db8(), 2, 3, 2), 8);
    t.retract_all(7);
    let s = selected(&t);
    assert_eq!(s.len(), 1);
    assert_eq!(s[0].neighbour, 8);
}

#[test]
fn route_packet_dispatch() {
    let mut local = vec![0u8; 16];
    local[0] = 0xfd;
    local[15] = 1;
    let mut node = Node::new(local.clone());
    assert_eq!(node.add_peer(Endpoint { address: vec![0; 16], port: 9651 }), Ok(()));
    node.router.receive_update(update(db8(), 1, 5, 1), 3);
    node.router.receive_update(update(db8_64(), 1, 9, 2), 4);
    let mut dst = vec![0u8; 16];
    dst[0] = 0x20;
    dst[1] = 0x01;
    dst[2] = 0x0d;
    dst[3] = 0xb8;
    dst[7] = 0x01;
    dst[15] = 0x42;
    let p = |d: Vec<u8>| DataPacket { raw_data: vec![1, 2, 3], dst_ip: d, src_ip: vec![0; 16] };
    assert_eq!(node.route_packet(&p(local.clone())), Dispatch::Local);
    assert_eq!(node.route_packet(&p(dst.clone())), Dispatch::Forward(4));
    dst[7] = 0x02;
    assert_eq!(node.route_packet(&p(dst.clone())), Dispatch::Forward(3));
    dst[3] = 0xb9;
    assert_eq!(node.route_packet(&p(dst)), Dispatch::Drop);
}

#[test]
fn removing_peer_retracts_its_routes() {
    let mut node = Node::new(vec![0xfd; 16]);
    let e = Endpoint { address: vec![1; 16], port: 1 };
    node.add_peer(e.clone()).unwrap();
    let id = node.peers.peer_id(&e).unwrap();
    node.router.receive_update(update(db8(), 1, 5, 1), id);
    assert_eq!(node.router.selected_routes().len(), 1);
    assert_eq!(node.remove_peer(&e), Ok(()));
    assert!(node.router.selected_routes().is_empty());
}

#[test]
fn metric_report() {
    assert_eq!(Metric::from_raw(10), Metric::Value(10));
    assert_eq!(Metric::from_raw(INFINITE_METRIC), Metric::Infinite);
}

#[test]
fn pubkey_from_ip() {
    let mut node = Node::new(vec![0xfd; 16]);
    node.router.receive_update(update(db8(), 1, 5, 1), 3);
    node.router.receive_update(update(db8_64(), 1, 9, 2), 4);
    let mut ip = vec![0u8; 16];
    ip[0] = 0x20;
    ip[1] = 0x01;
    ip[2] = 0x0d;
    ip[3] = 0xb8;
    assert_eq!(node.get_pubkey_from_ip(&ip), Some(vec![1u8; 32]));
    ip[7] = 0x01;
    assert_eq!(node.get_pubkey_from_ip(&ip), Some(vec![2u8; 32]));
    ip[0] = 0x30;
    assert_eq!(node.get_pubkey_from_ip(&ip), None);
}

#[test]
fn infeasible_update_from_other_router_changes_nothing() {
    let mut t = RouteTable::new();
    t.receive_update(update(db8(), 5, 3, 1), 10);
    let before = selected(&t);
    // same neighbour, another router id, same seqno and worse metric: infeasible
    t.receive_update(update(db8(), 5, 4, 2), 10);
    let after = selected(&t);
    assert_eq!(after.len(), 1);
    assert_eq!(after[0].router_id, before[0].router_id);
    assert_eq!(after[0].metric, 3);
    assert_eq!(t.len(), 2);
    assert!(t.fallback_routes().is_empty());
}

#[test]
fn withdrawal_of_selected_route_promotes_fallback() {
    let mut t = RouteTable::new();
    t.receive_update(update(db8(), 5, 5, 1), 1);
    t.receive_update(update(db8(), 6, 8, 2), 2);
    assert_eq!(selected(&t)[0].neighbour, 1);
    t.receive_update(update(db8(), 5, INFINITE_METRIC, 1), 1);
    let s = selected(&t);
    assert_eq!(s.len(), 1);
    assert_eq!(s[0].neighbour, 2);
    assert_eq!(s[0].metric, 8);
    // the last route withdrawn: the subnet is unreachable
    t.receive_update(update(db8(), 6, INFINITE_METRIC, 2), 2);
    assert!(selected(&t).is_empty());
}

#[test]
fn worse_announcement_of_selected_route_reselects() {
    let mut t = RouteTable::new();
    t.receive_update(update(db8(), 5, 3, 1), 1);
    t.receive_update(update(db8(), 6, 4, 2), 2);
    assert_eq!(selected(&t)[0].neighbour, 1);
    t.receive_update(update(db8(), 5, 10, 1), 1);
    let s = selected(&t);
    assert_eq!(s.len(), 1);
    assert_eq!(s[0].neighbour, 2);
    // the selected router's older announcement is recorded, not selected
    t.receive_update(update(db8(), 4, 1, 2), 2);
    assert!(selected(&t).is_empty());
}

#[test]
fn wrapped_seqno_with_lower_metric_is_selected() {
    let mut t = RouteTable::new();
    t.receive_update(update(db8(), 65535, 5, 1), 1);
    t.receive_update(update(db8(), 0, 2, 2), 2);
    let s = selected(&t);
    assert_eq!(s.len(), 1);
    assert_eq!(s[0].seqno, 0);
    assert_eq!(s[0].metric, 2);
}

#[test]
fn older_fallback_loses_feasibility_when_newer_route_is_selected() {
    let mut t = RouteTable::new();
    t.receive_update(update(db8(), 8, 6, 2), 2);
    t.receive_update(update(db8(), 10, 5, 1), 1);
    let s = selected(&t);
    assert_eq!(s[0].seqno, 10);
    assert!(t.fallback_routes().is_empty());
    // the selected router announces a newer seqno with a much worse metric
    t.receive_update(update(db8(), 11, 100, 1), 1);
    let s = selected(&t);
    assert_eq!(s.len(), 1);
    assert_eq!(s[0].seqno, 11);
    assert_eq!(s[0].metric, 100);
}

#[test]
fn removing_selected_peer_keeps_newer_route() {
    let mut node = Node::new(vec![0xfd; 16]);
    let a = Endpoint { address: vec![1; 16], port: 1 };
    node.add_peer(a.clone()).unwrap();
    let ida = node.peers.peer_id(&a).unwrap();
    node.router.receive_update(update(db8(), 8, 6, 2), 50);
    node.router.receive_update(update(db8(), 10, 5, 1), ida);
    node.router.receive_update(update(db8(), 11, 100, 3), 60);
    assert_eq!(node.remove_peer(&a), Ok(()));
    let s = node.router.selected_routes();
    assert_eq!(s.len(), 1);
    assert_eq!(s[0].seqno, 11);
    assert_eq!(s[0].neighbour, 60);
}

#[test]
fn equal_metric_keeps_selected_route() {
    let mut t = RouteTable::new();
    t.receive_update(update(db8(), 5, 4, 1), 1);
    t.receive_update(update(db8(), 6, 4, 2), 2);
    let s = selected(&t);
    assert_eq!(s[0].neighbour, 1);
    assert_eq!(t.fallback_routes().len(), 1);
}

#[test]
fn retract_by_neighbour_covers_every_router() {
    let mut t = RouteTable::new();
    t.receive_update(update(db8(), 5, 4, 1), 1);
    t.receive_update(update(db8(), 6, 9, 2), 1);
    t.receive_update(update(db8(), 6, 12, 3), 2);
    t.retract(&db8(), 1);
    let s = selected(&t);
    assert_eq!(s.len(), 1);
    assert_eq!(s[0].neighbour, 2);
    assert_eq!(s[0].metric, 12);
}

#[test]
fn node_subnet_is_the_64_bit_prefix() {
    let mut a = vec![0xfd; 16];
    a[15] = 7;
    let node = Node::new(a);
    let s = node.node_subnet();
    assert_eq!(s.prefix_len, 64);
    assert_eq!(s.address, vec![0xfd, 0xfd, 0xfd, 0xfd, 0xfd, 0xfd, 0xfd, 0xfd, 0, 0, 0, 0, 0, 0, 0, 0]);
}
