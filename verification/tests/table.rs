use rip_route::engine::BasicRoute;
use rip_route::peer_info::{SyncPeer, SyncPeerInfo};
use rip_route::version::RouteVersion;

fn attrs(peer_id: u128) -> SyncPeerInfo {
    SyncPeerInfo {
        peer_id,
        cost: 0,
        ipv4_addr: None,
        proxy_cidrs: Vec::new(),
        hostname: None,
        udp_stun_info: 0,
    }
}

fn neighbor(peer_id: u128, cost: u32) -> SyncPeerInfo {
    SyncPeerInfo {
        peer_id,
        cost,
        ipv4_addr: None,
        proxy_cidrs: Vec::new(),
        hostname: None,
        udp_stun_info: 0,
    }
}

fn adv(myself: SyncPeerInfo, neighbors: Vec<SyncPeerInfo>, version: u32) -> SyncPeer {
    SyncPeer { myself, neighbors, version, peer_version: None, need_reply: false }
}

#[test]
fn route_version_counts() {
    let mut v = RouteVersion::new();
    assert_eq!(v.get(), 0);
    v.inc();
    v.inc();
    assert_eq!(v.get(), 2);
}

#[test]
fn direct_neighbor_installed_at_cost_one() {
    let mut a = BasicRoute::new(1, attrs(1));
    let r = a.handle_route_packet(2, &adv(attrs(2), vec![], 0), 10);
    assert!(r.accepted);
    assert!(r.updated);
    assert!(r.need_sync);
    assert_eq!(a.get_next_hop(2), Some(2));
    assert_eq!(a.get_cost(2), Some(1));
    assert_eq!(a.version(), 1);
}

#[test]
fn loop_ceiling_prunes_cost_seven() {
    // a pathological advertisement claiming a neighbor at hop count six:
    // the derived cost would be seven, so the destination must be absent
    let mut a = BasicRoute::new(1, attrs(1));
    a.handle_route_packet(2, &adv(attrs(2), vec![neighbor(7, 6)], 0), 10);
    assert_eq!(a.get_next_hop(7), None);
    assert_eq!(a.get_next_hop(2), Some(2));
}

#[test]
fn cost_six_remains() {
    // a neighbor announced at hop count five arrives at the ceiling and
    // stays
    let mut a = BasicRoute::new(1, attrs(1));
    a.handle_route_packet(2, &adv(attrs(2), vec![neighbor(7, 5)], 0), 10);
    assert_eq!(a.get_next_hop(7), Some(2));
    assert_eq!(a.get_cost(7), Some(6));
}

#[test]
fn shorter_path_replaces_longer() {
    let mut a = BasicRoute::new(1, attrs(1));
    a.handle_route_packet(2, &adv(attrs(2), vec![neighbor(7, 3)], 0), 10);
    assert_eq!(a.get_cost(7), Some(4));
    a.handle_route_packet(3, &adv(attrs(3), vec![neighbor(7, 1)], 0), 11);
    assert_eq!(a.get_cost(7), Some(2));
    assert_eq!(a.get_next_hop(7), Some(3));
}

#[test]
fn own_id_is_never_routed() {
    let mut a = BasicRoute::new(1, attrs(1));
    a.handle_route_packet(2, &adv(attrs(2), vec![neighbor(1, 1)], 0), 10);
    assert_eq!(a.get_next_hop(1), None);
}

#[test]
fn ingress_is_idempotent() {
    let mut a = BasicRoute::new(1, attrs(1));
    let p = adv(attrs(2), vec![neighbor(7, 2)], 5);
    let r1 = a.handle_route_packet(2, &p, 10);
    assert!(r1.updated);
    let v1 = a.version();
    let routes1 = a.list_routes();
    let r2 = a.handle_route_packet(2, &p, 20);
    assert!(r2.accepted);
    assert!(!r2.updated);
    assert_eq!(a.version(), v1);
    let routes2 = a.list_routes();
    assert_eq!(routes1.len(), routes2.len());
    for (x, y) in routes1.iter().zip(routes2.iter()) {
        assert_eq!(x.0, y.0);
        assert_eq!(x.1, y.1);
    }
}

#[test]
fn version_echo_refreshes_without_rebuild() {
    // only the version fields differ: not a material change, but the
    // stored echo must still be refreshed
    let mut a = BasicRoute::new(1, attrs(1));
    a.handle_route_packet(2, &adv(attrs(2), vec![], 3), 10);
    let v1 = a.version();
    let mut p2 = adv(attrs(2), vec![], 4);
    p2.peer_version = Some(v1);
    let r = a.handle_route_packet(2, &p2, 11);
    assert!(!r.updated);
    assert_eq!(a.version(), v1);
    let view = a.get_remote_view(2).unwrap();
    assert_eq!(view.packet.version, 4);
    assert_eq!(view.packet.peer_version, Some(v1));
}

#[test]
fn ingress_commutes_across_senders() {
    let pa = adv(attrs(2), vec![neighbor(7, 2)], 0);
    let pb = adv(attrs(3), vec![neighbor(7, 1)], 0);

    let mut x = BasicRoute::new(1, attrs(1));
    x.handle_route_packet(2, &pa, 10);
    x.handle_route_packet(3, &pb, 10);

    let mut y = BasicRoute::new(1, attrs(1));
    y.handle_route_packet(3, &pb, 10);
    y.handle_route_packet(2, &pa, 10);

    assert_eq!(x.version(), y.version());
    let rx = x.list_routes();
    let ry = y.list_routes();
    assert_eq!(rx.len(), ry.len());
    for (ex, ey) in rx.iter().zip(ry.iter()) {
        assert_eq!(ex.0, ey.0);
        assert_eq!(ex.1, ey.1);
    }
}

#[test]
fn malformed_advertisement_is_dropped() {
    // the advertisement does not name its tunnel-level sender
    let mut a = BasicRoute::new(1, attrs(1));
    let r = a.handle_route_packet(9, &adv(attrs(2), vec![], 0), 10);
    assert!(!r.accepted);
    assert!(!r.updated);
    assert!(!r.need_sync);
    assert_eq!(a.version(), 0);
    assert_eq!(a.get_next_hop(2), None);
    assert!(a.get_remote_view(2).is_none());
}

#[test]
fn remote_view_expiry_boundary() {
    // a view exactly at ROUTE_EXPIRED_SEC age is on the boundary and is
    // kept; one second older is expired
    let mut a = BasicRoute::new(1, attrs(1));
    a.handle_route_packet(2, &adv(attrs(2), vec![], 0), 100);
    let connected = vec![2u128];

    let removed = a.reaper_pass(&connected, 100 + rip_route::ROUTE_EXPIRED_SEC);
    assert!(!removed);
    assert_eq!(a.get_next_hop(2), Some(2));

    let removed = a.reaper_pass(&connected, 100 + rip_route::ROUTE_EXPIRED_SEC + 1);
    assert!(removed);
    assert_eq!(a.get_next_hop(2), None);
    assert!(a.get_remote_view(2).is_none());
}

#[test]
fn reaper_drops_disconnected_peer() {
    let mut a = BasicRoute::new(1, attrs(1));
    a.handle_route_packet(2, &adv(attrs(2), vec![], 0), 100);
    let removed = a.reaper_pass(&vec![], 101);
    assert!(removed);
    assert_eq!(a.get_next_hop(2), None);
}

#[test]
fn version_never_decreases_across_steps() {
    let mut a = BasicRoute::new(1, attrs(1));
    let mut last = a.version();
    a.handle_route_packet(2, &adv(attrs(2), vec![], 0), 10);
    assert!(a.version() >= last);
    last = a.version();
    a.advertiser_pass(attrs(1), &vec![2u128], 11);
    assert!(a.version() >= last);
    last = a.version();
    a.reaper_pass(&vec![], 12);
    assert!(a.version() >= last);
}

#[test]
fn ipv4_index_lookup() {
    let mut a = BasicRoute::new(1, attrs(1));
    let mut m = attrs(2);
    m.ipv4_addr = Some(u32::from_be_bytes([10, 0, 0, 2]));
    a.handle_route_packet(2, &adv(m, vec![], 0), 10);
    assert_eq!(a.get_peer_id_by_ipv4(u32::from_be_bytes([10, 0, 0, 2])), Some(2));
    assert_eq!(a.get_peer_id_by_ipv4(u32::from_be_bytes([10, 0, 0, 3])), None);
}

#[test]
fn proxy_cidr_lookup() {
    let mut a = BasicRoute::new(1, attrs(1));
    let mut m = attrs(2);
    m.proxy_cidrs = vec!["10.1.0.0/16".to_string()];
    a.handle_route_packet(2, &adv(m, vec![], 0), 10);
    // inside the prefix
    assert_eq!(a.get_peer_id_by_ipv4(u32::from_be_bytes([10, 1, 200, 7])), Some(2));
    assert_eq!(a.get_peer_id_for_proxy(u32::from_be_bytes([10, 1, 0, 0])), Some(2));
    // outside the prefix
    assert_eq!(a.get_peer_id_by_ipv4(u32::from_be_bytes([10, 2, 0, 1])), None);
    assert_eq!(a.get_peer_id_by_ipv4(u32::from_be_bytes([11, 1, 0, 1])), None);
}

#[test]
fn unparseable_cidr_is_skipped() {
    let mut a = BasicRoute::new(1, attrs(1));
    let mut m = attrs(2);
    m.proxy_cidrs = vec![
        "not-a-prefix".to_string(),
        // host part not zero: the cidr grammar refuses it
        "10.1.1.1/16".to_string(),
        "192.168.4.0/24".to_string(),
    ];
    a.handle_route_packet(2, &adv(m, vec![], 0), 10);
    // the advertisement itself is kept, the bad prefixes are skipped
    assert_eq!(a.get_next_hop(2), Some(2));
    assert_eq!(a.get_peer_id_by_ipv4(u32::from_be_bytes([10, 1, 1, 1])), None);
    assert_eq!(a.get_peer_id_by_ipv4(u32::from_be_bytes([192, 168, 4, 77])), Some(2));
}

#[test]
fn ipv6_prefix_never_matches_ipv4() {
    let mut a = BasicRoute::new(1, attrs(1));
    let mut m = attrs(2);
    m.proxy_cidrs = vec!["2001:db8::/32".to_string()];
    a.handle_route_packet(2, &adv(m, vec![], 0), 10);
    assert_eq!(a.get_peer_id_for_proxy(u32::from_be_bytes([32, 1, 13, 184])), None);
}

#[test]
fn new_self_and_route_table_projection() {
    let m = SyncPeerInfo::new_self(
        5,
        Some(7),
        vec!["10.0.0.0/8".to_string()],
        Some("host-a".to_string()),
        3,
    );
    assert_eq!(m.peer_id, 5);
    assert_eq!(m.cost, 0);
    assert_eq!(m.ipv4_addr, Some(7));
    assert_eq!(m.hostname.as_deref(), Some("host-a"));
    assert_eq!(m.udp_stun_info, 3);

    let e = m.clone_for_route_table(9, 2, &m);
    assert_eq!(e.peer_id, 9);
    assert_eq!(e.cost, 2);
    assert_eq!(e.ipv4_addr, Some(7));
    assert_eq!(e.hostname.as_deref(), Some("host-a"));
    assert_eq!(e.proxy_cidrs, vec!["10.0.0.0/8".to_string()]);
}

#[test]
fn build_advertisement_reflects_state() {
    let mut a = BasicRoute::new(1, attrs(1));
    a.handle_route_packet(2, &adv(attrs(2), vec![neighbor(7, 1)], 9), 10);
    let m = a.build_advertisement(2);
    assert_eq!(m.version, a.version());
    assert_eq!(m.peer_version, Some(9));
    // peer 2 has not acknowledged this node's generation yet
    assert!(m.need_reply);
    assert_eq!(m.myself.peer_id, 1);
    // the announced neighbors carry each destination with its hop count
    assert_eq!(m.neighbors.len(), 2);
    assert_eq!(m.neighbors[0].peer_id, 2);
    assert_eq!(m.neighbors[0].cost, 1);
    assert_eq!(m.neighbors[1].peer_id, 7);
    assert_eq!(m.neighbors[1].cost, 2);
}

#[test]
fn snapshot_lists_destination_and_next_hop() {
    let mut a = BasicRoute::new(1, attrs(1));
    a.handle_route_packet(2, &adv(attrs(2), vec![neighbor(7, 1)], 0), 10);
    let routes = a.list_routes();
    assert_eq!(routes.len(), 2);
    // ascending destination order
    assert_eq!(routes[0].0, 2);
    assert_eq!(routes[0].1.peer_id, 2);
    assert_eq!(routes[0].1.cost, 1);
    assert_eq!(routes[1].0, 7);
    assert_eq!(routes[1].1.peer_id, 2);
    assert_eq!(routes[1].1.cost, 2);
}
