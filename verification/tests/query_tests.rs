use masswhois::ip::{parse_ip, render_ip, IpAddress};
use masswhois::query::{WhoisQuery, WhoisQueryType};

#[test]
fn inference_classifies_ipv4() {
    let q = WhoisQuery::new("1.2.3.4".to_string(), false);
    match q {
        WhoisQuery::IpAddr(IpAddress::V4(v)) => assert_eq!(v, 0x0102_0304),
        _ => panic!("expected an IPv4 query"),
    }
}

#[test]
fn inference_classifies_ipv6() {
    let q = WhoisQuery::new("2001:db8::2:30".to_string(), false);
    match q {
        WhoisQuery::IpAddr(IpAddress::V6(v)) => {
            assert_eq!(v, 0x2001_0db8_0000_0000_0000_0000_0002_0030)
        }
        _ => panic!("expected an IPv6 query"),
    }
}

#[test]
fn inference_classifies_asn() {
    let q = WhoisQuery::new("15169".to_string(), false);
    match q {
        WhoisQuery::AS(n) => assert_eq!(n, 15169),
        _ => panic!("expected an AS number"),
    }
    assert_eq!(q.get_type(), WhoisQueryType::AS);
}

#[test]
fn inference_falls_back_to_domain() {
    let q = WhoisQuery::new("example.com".to_string(), false);
    assert_eq!(q.get_type(), WhoisQueryType::Domain);
    // an out-of-range octet is no address
    let q = WhoisQuery::new("300.1.1.1".to_string(), false);
    assert_eq!(q.get_type(), WhoisQueryType::Domain);
    // a number past 2^32 is no AS number
    let q = WhoisQuery::new("4294967296".to_string(), false);
    assert_eq!(q.get_type(), WhoisQueryType::Domain);
}

#[test]
fn inference_disabled_keeps_text() {
    let q = WhoisQuery::new("1.2.3.4".to_string(), true);
    assert_eq!(q.get_type(), WhoisQueryType::Unspecified);
    assert_eq!(q.to_string(), "1.2.3.4");
}

#[test]
fn query_rendering() {
    assert_eq!(WhoisQuery::new("15169".to_string(), false).to_string(), "15169");
    assert_eq!(
        WhoisQuery::new("example.com".to_string(), false).to_string(),
        "example.com"
    );
    assert_eq!(WhoisQuery::new("1.2.3.4".to_string(), false).to_string(), "1.2.3.4");
}

#[test]
fn ip_parsing_edges() {
    assert_eq!(parse_ip("0.0.0.0"), Some(IpAddress::V4(0)));
    assert_eq!(parse_ip("255.255.255.255"), Some(IpAddress::V4(0xFFFF_FFFF)));
    // a leading zero makes an octet invalid
    assert_eq!(parse_ip("01.2.3.4"), None);
    assert_eq!(parse_ip("1.2.3"), None);
    assert_eq!(parse_ip("1.2.3.4.5"), None);
    assert_eq!(parse_ip("::"), Some(IpAddress::V6(0)));
    assert_eq!(parse_ip("::1"), Some(IpAddress::V6(1)));
    assert_eq!(parse_ip("1::"), Some(IpAddress::V6(0x0001 << 112)));
    assert_eq!(
        parse_ip("1:2:3:4:5:6:7:8"),
        Some(IpAddress::V6(0x0001_0002_0003_0004_0005_0006_0007_0008))
    );
    // two double colons are malformed
    assert_eq!(parse_ip("1::2::3"), None);
    assert_eq!(parse_ip("whois.example.net"), None);
}

#[test]
fn ip_rendering() {
    assert_eq!(render_ip(&IpAddress::V4(0x0102_0304)), "1.2.3.4");
    assert_eq!(render_ip(&IpAddress::V4(0)), "0.0.0.0");
    // IPv6 renders as eight uncompressed lower-case groups
    assert_eq!(render_ip(&IpAddress::V6(1)), "0:0:0:0:0:0:0:1");
    assert_eq!(
        render_ip(&IpAddress::V6(0x2001_0db8_0000_0000_0000_0000_0002_0030)),
        "2001:db8:0:0:0:0:2:30"
    );
}
