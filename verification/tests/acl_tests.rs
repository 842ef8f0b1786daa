use acl_distribnat::acl::Acl;
use acl_distribnat::acl::ConnectionCache;
use acl_distribnat::acl::Verdict;
use acl_distribnat::acl::evaluate;
use acl_distribnat::acl::evaluate_packet;
use acl_distribnat::flow::Flow;
use acl_distribnat::flow::Ipv4Prefix;

fn ip(a: u32, b: u32, c: u32, d: u32) -> u32 {
    (a << 24) | (b << 16) | (c << 8) | d
}

fn flow(src_ip: u32, src_port: u16, dst_ip: u32, dst_port: u16) -> Flow {
    Flow { src_ip, dst_ip, src_port, dst_port }
}

fn pass_all() -> Acl {
    Acl {
        src_ip: None,
        dst_ip: None,
        src_port: None,
        dst_port: None,
        established: None,
        drop: false,
    }
}

#[test]
fn reverse_twice_is_identity() {
    let f = flow(ip(10, 0, 0, 5), 33333, ip(93, 184, 216, 34), 80);
    assert_eq!(f.reverse_flow().reverse_flow(), f);
}

#[test]
fn reverse_swaps_endpoints() {
    let f = flow(1, 2, 3, 4);
    let r = f.reverse_flow();
    assert_eq!(r.src_ip, 3);
    assert_eq!(r.src_port, 4);
    assert_eq!(r.dst_ip, 1);
    assert_eq!(r.dst_port, 2);
}

#[test]
fn prefix_in_range() {
    let p = Ipv4Prefix { address: ip(10, 0, 0, 0), prefix_len: 24 };
    assert!(p.in_range(ip(10, 0, 0, 77)));
    assert!(!p.in_range(ip(10, 0, 1, 77)));
    let all = Ipv4Prefix { address: 0, prefix_len: 0 };
    assert!(all.in_range(ip(255, 255, 255, 255)));
    let exact = Ipv4Prefix { address: ip(10, 0, 0, 5), prefix_len: 32 };
    assert!(exact.in_range(ip(10, 0, 0, 5)));
    assert!(!exact.in_range(ip(10, 0, 0, 6)));
}

#[test]
fn rule_matches_every_some_field() {
    let f = flow(ip(10, 0, 0, 5), 33333, ip(93, 184, 216, 34), 80);
    let cache = ConnectionCache::new();
    let mut r = pass_all();
    assert!(r.matches(&f, &cache));
    r.src_ip = Some(Ipv4Prefix { address: ip(10, 0, 0, 0), prefix_len: 8 });
    r.dst_port = Some(80);
    assert!(r.matches(&f, &cache));
    r.dst_port = Some(81);
    assert!(!r.matches(&f, &cache));
    r.dst_port = Some(80);
    r.src_port = Some(1);
    assert!(!r.matches(&f, &cache));
}

#[test]
fn empty_rule_list_drops() {
    let f = flow(1, 2, 3, 4);
    let rules: Vec<Acl> = Vec::new();
    let mut cache = ConnectionCache::new();
    assert_eq!(evaluate(&f, &rules, &mut cache), Verdict::Drop);
}

#[test]
fn no_matching_rule_drops() {
    let f = flow(1, 2, 3, 4);
    let mut r = pass_all();
    r.dst_port = Some(80);
    let rules = vec![r];
    let mut cache = ConnectionCache::new();
    assert_eq!(evaluate(&f, &rules, &mut cache), Verdict::Drop);
}

#[test]
fn first_match_wins() {
    let f = flow(1, 2, 3, 80);
    let mut deny = pass_all();
    deny.drop = true;
    let allow = pass_all();
    let mut cache = ConnectionCache::new();
    assert_eq!(evaluate(&f, &vec![deny, allow], &mut cache), Verdict::Drop);
    let mut cache2 = ConnectionCache::new();
    assert_eq!(evaluate(&f, &vec![allow, deny], &mut cache2), Verdict::Admit);
}

#[test]
fn reordering_non_overlapping_rules_keeps_verdict() {
    // f matches only the port-80 rule in either order.
    let f = flow(1, 2, 3, 80);
    let mut eighty = pass_all();
    eighty.dst_port = Some(80);
    let mut eighty_one = pass_all();
    eighty_one.dst_port = Some(81);
    eighty_one.drop = true;
    let mut c1 = ConnectionCache::new();
    let mut c2 = ConnectionCache::new();
    let v1 = evaluate(&f, &vec![eighty, eighty_one], &mut c1);
    let v2 = evaluate(&f, &vec![eighty_one, eighty], &mut c2);
    assert_eq!(v1, v2);
    assert_eq!(v1, Verdict::Admit);
}

#[test]
fn established_admits_reply_after_admission() {
    let f = flow(ip(10, 0, 0, 5), 33333, ip(93, 184, 216, 34), 80);
    let mut est = pass_all();
    est.established = Some(true);
    let mut cache = ConnectionCache::new();
    // Before any admission the reply flow is not established.
    assert_eq!(evaluate(&f.reverse_flow(), &vec![est], &mut cache), Verdict::Drop);
    // Admit the forward flow through a non-drop rule.
    assert_eq!(evaluate(&f, &vec![pass_all()], &mut cache), Verdict::Admit);
    // Now the reply flow is established.
    assert_eq!(evaluate(&f.reverse_flow(), &vec![est], &mut cache), Verdict::Admit);
}

#[test]
fn dropped_flow_is_never_established() {
    let f = flow(1, 2, 3, 4);
    let mut deny = pass_all();
    deny.drop = true;
    let mut est = pass_all();
    est.established = Some(true);
    let mut cache = ConnectionCache::new();
    assert_eq!(evaluate(&f, &vec![deny], &mut cache), Verdict::Drop);
    assert_eq!(evaluate(&f.reverse_flow(), &vec![est], &mut cache), Verdict::Drop);
    assert_eq!(evaluate(&f, &vec![est], &mut cache), Verdict::Drop);
}

#[test]
fn packet_without_flow_bypasses_the_acl() {
    // Even a drop-everything list admits a packet whose flow could not be
    // extracted: the permissive fallback for traffic outside the model.
    let mut deny = pass_all();
    deny.drop = true;
    let mut cache = ConnectionCache::new();
    assert_eq!(evaluate_packet(None, &vec![deny], &mut cache), Verdict::Admit);
    let f = flow(1, 2, 3, 4);
    assert_eq!(evaluate_packet(Some(f), &vec![deny], &mut cache), Verdict::Drop);
}

#[test]
fn established_false_matches_fresh_flows_only() {
    let f = flow(1, 2, 3, 4);
    let mut fresh_only = pass_all();
    fresh_only.established = Some(false);
    let mut cache = ConnectionCache::new();
    assert_eq!(evaluate(&f, &vec![fresh_only], &mut cache), Verdict::Admit);
    // f is now cached, so the same rule no longer matches it.
    assert_eq!(evaluate(&f, &vec![fresh_only], &mut cache), Verdict::Drop);
}
