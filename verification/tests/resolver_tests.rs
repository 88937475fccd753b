use masswhois::ip::{IpAddress, IpConfig, IpVersion};
use masswhois::resolver::{CachingResolver, ResolvePromise};

fn v4_config() -> IpConfig {
    IpConfig {
        default_version: IpVersion { v4: true, v6: false },
        supported_versions: IpVersion { v4: true, v6: false },
    }
}

fn resolver() -> CachingResolver {
    CachingResolver::from_config(v4_config(), 16, 64, 4, 60, "nameserver 192.0.2.53\n", 0)
}

fn qname_bytes(name: &str) -> Vec<u8> {
    // name must end with a dot
    let mut out = Vec::new();
    for label in name.trim_end_matches('.').split('.') {
        out.push(label.len() as u8);
        out.extend(label.as_bytes());
    }
    out.push(0);
    out
}

fn a_response(name: &str, addrs: &[[u8; 4]], ttl: u32, rcode: u8) -> Vec<u8> {
    let mut d = vec![
        0x00,
        0x0A,
        0x81,
        0x80 | rcode,
        0x00,
        0x01,
        0x00,
        addrs.len() as u8,
        0x00,
        0x00,
        0x00,
        0x00,
    ];
    d.extend(qname_bytes(name));
    d.extend([0x00, 0x01, 0x00, 0x01]); // type A, class IN
    for a in addrs {
        d.extend(qname_bytes(name));
        d.extend([0x00, 0x01, 0x00, 0x01]); // type A, class IN
        d.extend(ttl.to_be_bytes());
        d.extend([0x00, 0x04]);
        d.extend(a.iter());
    }
    d
}

#[test]
fn nameservers_are_read_from_config_text() {
    let r = resolver();
    assert_eq!(r.first_server(), Some(IpAddress::V4(0xC000_0235)));
}

#[test]
fn query_encodes_one_question() {
    let bytes =
        CachingResolver::construct_query(&"example.com.".to_string(), 1, 10).expect("encodable");
    let mut expected = vec![0x00, 0x0A, 0x01, 0x00, 0x00, 0x01, 0x00, 0x00, 0x00, 0x00, 0x00, 0x00];
    expected.extend(qname_bytes("example.com."));
    expected.extend([0x00, 0x01, 0x00, 0x01]);
    assert_eq!(bytes, expected);
}

#[test]
fn coalesced_queries_wake_in_order() {
    let mut r = resolver();
    // a fresh miss sends one A query and parks the caller
    let (p1, sends1) = r.query("whois.unknown.tld".to_string(), 1, false, 0);
    assert!(matches!(p1, ResolvePromise::Resolving));
    assert_eq!(sends1.len(), 1);
    assert!(!sends1[0].v6);
    let expected =
        CachingResolver::construct_query(&"whois.unknown.tld.".to_string(), 1, 10).unwrap();
    assert_eq!(sends1[0].payload, expected);
    // a second caller for the same name coalesces: nothing more is sent
    let (p2, sends2) = r.query("whois.unknown.tld".to_string(), 2, false, 0);
    assert!(matches!(p2, ResolvePromise::Resolving));
    assert_eq!(sends2.len(), 0);
    // the response wakes both, in order, once
    let resp = a_response("whois.unknown.tld.", &[[192, 0, 2, 7]], 120, 0);
    let woken = r.receive(resp.as_slice(), 1);
    assert_eq!(woken, vec![1, 2]);
    let woken_again = r.receive(resp.as_slice(), 1);
    assert_eq!(woken_again.len(), 0);
    // the woken callers now answer from the cache
    let (p3, sends3) = r.query("whois.unknown.tld".to_string(), 1, true, 2);
    assert!(matches!(
        p3,
        ResolvePromise::Resolved(1, Some(IpAddress::V4(0xC000_0207)))
    ));
    assert_eq!(sends3.len(), 0);
}

#[test]
fn cached_addresses_rotate() {
    let mut r = resolver();
    let (_, _) = r.query("multi.example".to_string(), 1, false, 0);
    let resp = a_response("multi.example.", &[[192, 0, 2, 1], [192, 0, 2, 2]], 120, 0);
    r.receive(resp.as_slice(), 1);
    // answers were pushed to the front in order: the list is [2.2, 2.1];
    // each cache hit rotates one step before answering
    let (p, _) = r.query("multi.example".to_string(), 7, true, 2);
    assert!(matches!(
        p,
        ResolvePromise::Resolved(7, Some(IpAddress::V4(0xC000_0201)))
    ));
    let (p, _) = r.query("multi.example".to_string(), 7, true, 2);
    assert!(matches!(
        p,
        ResolvePromise::Resolved(7, Some(IpAddress::V4(0xC000_0202)))
    ));
}

#[test]
fn nxdomain_is_cached_negatively() {
    let mut r = resolver();
    let (_, _) = r.query("missing.example".to_string(), 3, false, 0);
    let resp = a_response("missing.example.", &[], 0, 3);
    let woken = r.receive(resp.as_slice(), 1);
    assert_eq!(woken, vec![3]);
    let (p, sends) = r.query("missing.example".to_string(), 3, true, 2);
    assert!(matches!(p, ResolvePromise::Resolved(3, None)));
    assert_eq!(sends.len(), 0);
}

#[test]
fn malformed_datagrams_change_nothing() {
    let mut r = resolver();
    let (_, _) = r.query("keep.example".to_string(), 5, false, 0);
    assert_eq!(r.receive(&[0x00, 0x0A, 0x80], 1).len(), 0);
    // two questions are not a valid answer either
    let mut two_q = a_response("keep.example.", &[[192, 0, 2, 1]], 60, 0);
    two_q[5] = 2;
    assert_eq!(r.receive(two_q.as_slice(), 1).len(), 0);
    // the in-flight entry is still served afterwards
    let good = a_response("keep.example.", &[[192, 0, 2, 1]], 60, 0);
    assert_eq!(r.receive(good.as_slice(), 1), vec![5]);
}
