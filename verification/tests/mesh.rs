use rip_route::engine::BasicRoute;
use rip_route::peer_info::{SyncPeer, SyncPeerInfo};
use rip_route::{ROUTE_EXPIRED_SEC, SEND_ROUTE_FAST_REPLY_SEC};

fn attrs(peer_id: u128) -> SyncPeerInfo {
    SyncPeerInfo {
        peer_id,
        cost: 0,
        ipv4_addr: None,
        proxy_cidrs: Vec::new(),
        hostname: None,
        udp_stun_info: 0,
    }
}

fn attrs_named(peer_id: u128, hostname: &str) -> SyncPeerInfo {
    SyncPeerInfo {
        peer_id,
        cost: 0,
        ipv4_addr: None,
        proxy_cidrs: Vec::new(),
        hostname: Some(hostname.to_string()),
        udp_stun_info: 0,
    }
}

fn connected(links: &[(u128, u128)], id: u128) -> Vec<u128> {
    let mut out = Vec::new();
    for (x, y) in links {
        if *x == id {
            out.push(*y);
        }
        if *y == id {
            out.push(*x);
        }
    }
    out
}

/// One simulated second: every peer runs its reaper and its advertiser,
/// and each produced advertisement is delivered over a live link at once.
fn tick(peers: &mut Vec<BasicRoute>, links: &[(u128, u128)], now: u64) {
    for i in 0..peers.len() {
        let id = peers[i].my_peer_id();
        let conn = connected(links, id);
        peers[i].reaper_pass(&conn, now);
        let msgs = peers[i].advertiser_pass(attrs(id), &conn, now);
        for (dst, m) in msgs {
            if conn.contains(&dst) {
                for j in 0..peers.len() {
                    if peers[j].my_peer_id() == dst {
                        peers[j].handle_route_packet(id, &m, now);
                    }
                }
            }
        }
    }
}

fn find(peers: &Vec<BasicRoute>, id: u128) -> usize {
    for j in 0..peers.len() {
        if peers[j].my_peer_id() == id {
            return j;
        }
    }
    panic!("no such peer");
}

/// Each of `holders` stores `subject`'s current generation, and
/// `subject` has acknowledged each holder's own current generation.
fn check_version(peers: &Vec<BasicRoute>, subject: u128, holders: &[u128]) {
    let version = peers[find(peers, subject)].version();
    for h in holders {
        let mgr = &peers[find(peers, *h)];
        let view = mgr.get_remote_view(subject).unwrap();
        assert_eq!(version, view.packet.version);
        assert_eq!(view.packet.peer_version.unwrap(), mgr.version());
    }
}

fn check_sanity(peers: &Vec<BasicRoute>) {
    check_version(peers, 2, &[1, 3]);
    check_version(peers, 1, &[2]);
    check_version(peers, 3, &[2]);
}

#[test]
fn test_rip_route() {
    // the linear mesh 1 - 2 - 3
    let links = [(1u128, 2u128), (2u128, 3u128)];
    let mut peers = vec![
        BasicRoute::new(1, attrs(1)),
        BasicRoute::new(2, attrs(2)),
        BasicRoute::new(3, attrs(3)),
    ];
    for now in 100..106 {
        tick(&mut peers, &links, now);
    }
    assert_eq!(peers[0].get_next_hop(2), Some(2));
    assert_eq!(peers[0].get_next_hop(3), Some(2));

    check_sanity(&peers);

    let versions: Vec<u32> = peers.iter().map(|p| p.version()).collect();
    for now in 106..111 {
        tick(&mut peers, &links, now);
    }
    let versions2: Vec<u32> = peers.iter().map(|p| p.version()).collect();
    assert_eq!(versions, versions2);
    check_sanity(&peers);

    assert!(peers[0].version() <= 3);
    assert!(peers[1].version() <= 6);
    assert!(peers[2].version() <= 3);
}

#[test]
fn three_peer_convergence() {
    let links = [(1u128, 2u128), (2u128, 3u128)];
    let mut peers = vec![
        BasicRoute::new(1, attrs(1)),
        BasicRoute::new(2, attrs(2)),
        BasicRoute::new(3, attrs(3)),
    ];
    for now in 100..104 {
        tick(&mut peers, &links, now);
    }
    // the ends route to each other through the middle, two hops away
    assert_eq!(peers[0].get_next_hop(3), Some(2));
    assert_eq!(peers[0].get_cost(3), Some(2));
    assert_eq!(peers[2].get_next_hop(1), Some(2));
    assert_eq!(peers[2].get_cost(1), Some(2));
}

#[test]
fn link_removal_evicts_view_and_route() {
    let links = [(1u128, 2u128), (2u128, 3u128)];
    let mut peers = vec![
        BasicRoute::new(1, attrs(1)),
        BasicRoute::new(2, attrs(2)),
        BasicRoute::new(3, attrs(3)),
    ];
    for now in 100..106 {
        tick(&mut peers, &links, now);
    }
    assert_eq!(peers[0].get_next_hop(3), Some(2));

    // the 2 - 3 link breaks; everything settles well inside
    // ROUTE_EXPIRED_SEC + 1 seconds
    let broken = [(1u128, 2u128)];
    for now in 106..106 + ROUTE_EXPIRED_SEC + 1 {
        tick(&mut peers, &broken, now);
    }
    assert!(peers[1].get_remote_view(3).is_none());
    assert_eq!(peers[0].get_next_hop(3), None);
}

#[test]
fn attribute_churn_propagates_once() {
    let links = [(1u128, 2u128)];
    let mut peers = vec![BasicRoute::new(1, attrs(1)), BasicRoute::new(2, attrs(2))];
    for now in 100..104 {
        tick(&mut peers, &links, now);
    }
    let v1 = peers[0].version();

    // peer 1's hostname changes; its next advertiser pass bumps its
    // version exactly once and re-advertises
    let conn = connected(&links, 1);
    let msgs = peers[0].advertiser_pass(attrs_named(1, "renamed"), &conn, 104);
    assert_eq!(peers[0].version(), v1 + 1);
    assert_eq!(msgs.len(), 1);
    assert_eq!(msgs[0].0, 2);
    for (dst, m) in msgs {
        let j = find(&peers, dst);
        peers[j].handle_route_packet(1, &m, 104);
    }
    let routes = peers[1].list_routes();
    let entry = routes.iter().find(|e| e.0 == 1).unwrap();
    assert_eq!(entry.1.hostname.as_deref(), Some("renamed"));
    assert_eq!(peers[0].version(), v1 + 1);
}

#[test]
fn fast_reply_after_stale_ack() {
    let links = [(1u128, 2u128)];
    let mut peers = vec![BasicRoute::new(1, attrs(1)), BasicRoute::new(2, attrs(2))];
    for now in 100..104 {
        tick(&mut peers, &links, now);
    }
    // in sync and recently advertised: a pass sends nothing
    let conn = vec![2u128];
    let msgs = peers[0].advertiser_pass(attrs(1), &conn, 104);
    assert_eq!(msgs.len(), 0);

    // peer 2 asks for a reply while its advertised generation proves the
    // stored acknowledgement stale: the suppression is lifted at once
    let m = {
        let stored = peers[0].get_remote_view(2).unwrap();
        SyncPeer {
            myself: clone_info(&stored.packet.myself),
            neighbors: stored.packet.neighbors.iter().map(clone_info).collect(),
            version: stored.packet.version + 7,
            peer_version: None,
            need_reply: true,
        }
    };
    let r = peers[0].handle_route_packet(2, &m, 104);
    assert!(r.accepted);
    assert!(!r.updated);
    assert!(r.need_sync);
    let msgs = peers[0].advertiser_pass(attrs(1), &conn, 105);
    assert_eq!(msgs.len(), 1);
    assert_eq!(msgs[0].0, 2);
    assert!(105 - 104 <= SEND_ROUTE_FAST_REPLY_SEC);
}

#[test]
fn fast_reply_deferred_when_in_sync() {
    let mut a = BasicRoute::new(1, attrs(1));
    let p0 = SyncPeer {
        myself: attrs(2),
        neighbors: vec![],
        version: 3,
        peer_version: None,
        need_reply: false,
    };
    a.handle_route_packet(2, &p0, 100);
    let va = a.version();
    let conn = vec![2u128];
    // not yet acknowledged: this pass sends and records the send
    let msgs = a.advertiser_pass(attrs(1), &conn, 100);
    assert_eq!(msgs.len(), 1);

    // an advertisement that agrees with the recorded send on both
    // generations but still asks for a reply: the reply is deferred to
    // exactly SEND_ROUTE_FAST_REPLY_SEC from its arrival
    let m = SyncPeer {
        myself: attrs(2),
        neighbors: vec![],
        version: 3,
        peer_version: Some(va),
        need_reply: true,
    };
    let r = a.handle_route_packet(2, &m, 101);
    assert!(!r.updated);
    assert!(r.need_sync);
    let msgs = a.advertiser_pass(attrs(1), &conn, 101 + SEND_ROUTE_FAST_REPLY_SEC - 1);
    assert_eq!(msgs.len(), 0);
    let msgs = a.advertiser_pass(attrs(1), &conn, 101 + SEND_ROUTE_FAST_REPLY_SEC);
    assert_eq!(msgs.len(), 1);
    assert_eq!(msgs[0].0, 2);
}

fn clone_info(i: &SyncPeerInfo) -> SyncPeerInfo {
    SyncPeerInfo {
        peer_id: i.peer_id,
        cost: i.cost,
        ipv4_addr: i.ipv4_addr,
        proxy_cidrs: i.proxy_cidrs.clone(),
        hostname: i.hostname.clone(),
        udp_stun_info: i.udp_stun_info,
    }
}
