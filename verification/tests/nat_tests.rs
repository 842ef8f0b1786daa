use acl_distribnat::flow::Flow;
use acl_distribnat::translator::NatTable;
use acl_distribnat::translator::PortState;

fn ip(a: u32, b: u32, c: u32, d: u32) -> u32 {
    (a << 24) | (b << 16) | (c << 8) | d
}

fn flow(src_ip: u32, src_port: u16, dst_ip: u32, dst_port: u16) -> Flow {
    Flow { src_ip, dst_ip, src_port, dst_port }
}

#[test]
fn first_allocation_uses_port_1024() {
    let nat_ip = ip(10, 0, 0, 1);
    let mut t = NatTable::new(nat_ip);
    let f = flow(ip(10, 0, 0, 5), 33333, ip(93, 184, 216, 34), 80);
    let tr = t.translate(f, 0).expect("allocation");
    assert_eq!(tr, flow(nat_ip, 1024, ip(93, 184, 216, 34), 80));
}

#[test]
fn hit_returns_same_translation() {
    let mut t = NatTable::new(ip(10, 0, 0, 1));
    let f = flow(1, 2, 3, 4);
    let tr1 = t.translate(f, 0).unwrap();
    let tr2 = t.translate(f, 7).unwrap();
    assert_eq!(tr1, tr2);
    // The timestamp was refreshed.
    match t.slots[0] {
        PortState::Bound(e) => {
            assert_eq!(e.last_used, 7);
            assert_eq!(e.original, f);
            assert_eq!(e.translated, tr1);
            assert_eq!(e.allocated_port, 1024);
            assert!(!e.claimed);
        },
        _ => panic!("slot 0 should be bound"),
    }
}

#[test]
fn reply_translates_back_to_original() {
    let mut t = NatTable::new(ip(10, 0, 0, 1));
    let f = flow(ip(10, 0, 0, 5), 33333, ip(93, 184, 216, 34), 80);
    let tr = t.translate(f, 0).unwrap();
    // The reply packet: source and destination of the translated flow
    // swapped.
    let reply = tr.reverse_flow();
    assert_eq!(reply, flow(ip(93, 184, 216, 34), 80, ip(10, 0, 0, 1), 1024));
    let back = t.translate(reply, 1).expect("reverse entry");
    assert_eq!(back, f.reverse_flow());
    assert_eq!(back, flow(ip(93, 184, 216, 34), 80, ip(10, 0, 0, 5), 33333));
}

#[test]
fn distinct_flows_get_distinct_ports() {
    let mut t = NatTable::new(ip(10, 0, 0, 1));
    let f1 = flow(1, 2, 3, 4);
    let f2 = flow(1, 5, 3, 4);
    let t1 = t.translate(f1, 0).unwrap();
    let t2 = t.translate(f2, 0).unwrap();
    assert_eq!(t1.src_port, 1024);
    assert_eq!(t2.src_port, 1025);
    assert_ne!(t1.src_port, t2.src_port);
}

#[test]
fn unknown_inbound_to_nat_endpoint_is_dropped() {
    let nat_ip = ip(10, 0, 0, 1);
    let mut t = NatTable::new(nat_ip);
    // Addressed to the NAT's own translatable range but with no binding.
    let stray = flow(1, 2, nat_ip, 1500);
    assert_eq!(t.translate(stray, 0), None);
}

#[test]
fn pool_exhaustion_drops_new_flows() {
    let nat_ip = ip(10, 0, 0, 1);
    let mut t = NatTable::new(nat_ip);
    // 64511 distinct flows fill every port in [1024, 65535).
    for i in 0..64511u32 {
        let f = flow(1 + (i >> 16), (i & 0xffff) as u16, 3, 4);
        let tr = t.translate(f, 0);
        assert!(tr.is_some(), "allocation {} should succeed", i);
        assert_eq!(tr.unwrap().src_port, 1024 + i as u16);
    }
    // The next fresh flow is dropped, not overwritten onto a used port.
    let extra = flow(2000, 1, 3, 4);
    assert_eq!(t.translate(extra, 0), None);
    // Existing flows still translate.
    let f0 = flow(1, 0, 3, 4);
    assert_eq!(t.translate(f0, 1).unwrap().src_port, 1024);
}

#[test]
fn reclaim_frees_idle_entries_and_ports_are_reused() {
    let nat_ip = ip(10, 0, 0, 1);
    let mut t = NatTable::new(nat_ip);
    let f1 = flow(1, 2, 3, 4);
    let f2 = flow(1, 5, 3, 4);
    let t1 = t.translate(f1, 0).unwrap();
    let _t2 = t.translate(f2, 90).unwrap();
    // At time 100 with an idle bound of 50 only f1 (idle 100) expires.
    let freed = t.reclaim(100, 50);
    assert_eq!(freed, vec![1024]);
    // The reclaimed binding is gone in both directions.
    assert_eq!(t.translate(t1.reverse_flow(), 100), None);
    // Its port goes back to the pool and is handed out again.
    let f3 = flow(1, 9, 3, 4);
    let t3 = t.translate(f3, 100).unwrap();
    assert_eq!(t3.src_port, 1024);
}

#[test]
fn reclaim_returns_ascending_ports() {
    let mut t = NatTable::new(ip(10, 0, 0, 1));
    for p in 0..5u16 {
        t.translate(flow(1, p, 3, 4), 0).unwrap();
    }
    let freed = t.reclaim(10, 5);
    assert_eq!(freed, vec![1024, 1025, 1026, 1027, 1028]);
}

#[test]
fn confirm_marks_entry_claimed() {
    let mut t = NatTable::new(ip(10, 0, 0, 1));
    let f = flow(1, 2, 3, 4);
    t.translate(f, 0).unwrap();
    assert!(t.confirm_claimed(1024));
    match t.slots[0] {
        PortState::Bound(e) => assert!(e.claimed),
        _ => panic!("slot 0 should be bound"),
    }
    // Confirming a port with no entry reports failure.
    assert!(!t.confirm_claimed(2000));
    assert!(!t.confirm_claimed(80));
}

#[test]
fn invalidate_reserves_port_and_flow_gets_a_fresh_one() {
    let mut t = NatTable::new(ip(10, 0, 0, 1));
    let f = flow(1, 2, 3, 4);
    let t1 = t.translate(f, 0).unwrap();
    assert_eq!(t1.src_port, 1024);
    // A claim conflict: a peer owns port 1024.
    assert!(t.invalidate(1024));
    assert!(matches!(t.slots[0], PortState::Reserved));
    // The flow is re-translated onto a different port.
    let t2 = t.translate(f, 1).unwrap();
    assert_eq!(t2.src_port, 1025);
    // The reserved port is never handed out again.
    let t3 = t.translate(flow(9, 9, 9, 9), 2).unwrap();
    assert_eq!(t3.src_port, 1026);
}

#[test]
fn seed_reserved_skips_peer_owned_ports() {
    let mut t = NatTable::new(ip(10, 0, 0, 1));
    assert!(t.seed_reserved(1024));
    assert!(t.seed_reserved(1026));
    assert!(!t.seed_reserved(80));
    assert!(!t.seed_reserved(65535));
    let t1 = t.translate(flow(1, 2, 3, 4), 0).unwrap();
    let t2 = t.translate(flow(1, 5, 3, 4), 0).unwrap();
    let t3 = t.translate(flow(1, 9, 3, 4), 0).unwrap();
    let mut got = vec![t1.src_port, t2.src_port, t3.src_port];
    got.sort();
    assert_eq!(got, vec![1025, 1027, 1028]);
}
