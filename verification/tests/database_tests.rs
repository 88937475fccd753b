use masswhois::client::{Availability, WhoisClient};
use masswhois::database::{AsnMap, WhoisDatabase};
use masswhois::ip::{IpAddress, IpConfig, IpVersion};
use masswhois::query::WhoisQuery;

fn v4_config() -> IpConfig {
    IpConfig {
        default_version: IpVersion { v4: true, v6: false },
        supported_versions: IpVersion { v4: true, v6: false },
    }
}

fn sample_db() -> WhoisDatabase {
    WhoisDatabase::new(
        &v4_config(),
        "# suffix to host\n\
         tld whois.tld.example\n\
         example.tld whois.example-registrar.net\n\
         com whois.verisign-grs.com\n",
        "whois.verisign-grs.com 192.0.2.1 192.0.2.2\n\
         whois.iana.org 192.0.2.9\n",
        "whois.verisign-grs.com domain $domain\n\
         whois.arin.net as $asn\n",
        "whois.verisign-grs.com ReferralServer: (\\S+)\n",
        "No match for\n\
         NOT FOUND\n",
        "15169 15169 whois.arin.net\n\
         20000 29999 whois.ripe.net\n",
    )
    .expect("the sample tables are well formed")
}

fn client_with_body(body: &[u8], server: Option<&str>) -> WhoisClient {
    let mut c = WhoisClient::new(
        0,
        WhoisQuery::new("example.com".to_string(), false),
        "example.com".to_string(),
        Some(IpAddress::V4(0xC000_0201)),
        server.map(|s| s.to_string()),
    );
    for b in body {
        c.inbuf.push(*b);
    }
    c
}

#[test]
fn asn_binary_probe() {
    let map = AsnMap::load(
        "100 200 whois.a.example\n\
         300 400 whois.b.example\n\
         500 600 whois.c.example\n",
    )
    .expect("ordered table");
    assert_eq!(map.find(150), "whois.a.example");
    assert_eq!(map.find(300), "whois.b.example");
    assert_eq!(map.find(400), "whois.b.example");
    assert_eq!(map.find(600), "whois.c.example");
    assert_eq!(map.find(250), "whois.arin.net");
    assert_eq!(map.find(9999), "whois.arin.net");
}

#[test]
fn asn_table_rejects_overlap() {
    assert!(AsnMap::load("100 200 a.example\n150 300 b.example\n").is_none());
    assert!(AsnMap::load("200 100 a.example\n").is_none());
    assert!(AsnMap::load("garbled\n").is_none());
}

#[test]
fn suffix_walk_takes_longest_registered_suffix() {
    let db = sample_db();
    let q = WhoisQuery::new("a.b.example.tld".to_string(), false);
    let (server, wire) = db.get_server(&q);
    assert_eq!(server, Some("whois.example-registrar.net".to_string()));
    assert_eq!(wire, "a.b.example.tld\n");
}

#[test]
fn bare_tld_routes_to_iana() {
    let db = sample_db();
    let q = WhoisQuery::new("com".to_string(), false);
    let (server, wire) = db.get_server(&q);
    assert_eq!(server, Some("whois.iana.org".to_string()));
    assert_eq!(wire, "com\n");
}

#[test]
fn unknown_domain_routes_nowhere() {
    let db = sample_db();
    let q = WhoisQuery::new("example.unregistered".to_string(), false);
    let (server, wire) = db.get_server(&q);
    assert_eq!(server, None);
    assert_eq!(wire, "example.unregistered\n");
}

#[test]
fn template_shapes_the_wire_query() {
    let db = sample_db();
    let q = WhoisQuery::new("example.com".to_string(), false);
    let (server, wire) = db.get_server(&q);
    assert_eq!(server, Some("whois.verisign-grs.com".to_string()));
    assert_eq!(wire, "domain example.com");
}

#[test]
fn asn_routing_applies_template() {
    let db = sample_db();
    let q = WhoisQuery::new("15169".to_string(), false);
    let (server, wire) = db.get_server(&q);
    assert_eq!(server, Some("whois.arin.net".to_string()));
    assert_eq!(wire, "as 15169");
    // an unmapped number falls back to ARIN with a plain line
    let q = WhoisQuery::new("19999".to_string(), false);
    let (server, wire) = db.get_server(&q);
    assert_eq!(server, Some("whois.arin.net".to_string()));
    assert_eq!(wire, "as 19999");
}

#[test]
fn server_ips_rotate_by_attempt() {
    let db = sample_db();
    let name = "whois.verisign-grs.com".to_string();
    assert_eq!(db.get_server_ip(0, Some(&name)), Some(IpAddress::V4(0xC000_0201)));
    assert_eq!(db.get_server_ip(1, Some(&name)), Some(IpAddress::V4(0xC000_0202)));
    assert_eq!(db.get_server_ip(2, Some(&name)), Some(IpAddress::V4(0xC000_0201)));
    assert_eq!(db.get_server_ip(0, None), None);
    let other = "whois.unknown.example".to_string();
    assert_eq!(db.get_server_ip(0, Some(&other)), None);
}

#[test]
fn availability_matches_response_shapes() {
    let db = sample_db();
    let c = client_with_body(b"No match for domain EXAMPLE.COM", None);
    assert_eq!(db.availability(&c), Availability::AVAILABLE);
    let c = client_with_body(b"Domain Name: EXAMPLE.COM", None);
    assert_eq!(db.availability(&c), Availability::UNAVAILABLE);
}

#[test]
fn referral_is_captured_from_the_body() {
    let db = sample_db();
    let c = client_with_body(
        b"Domain: example.com\nReferralServer: whois.example-registrar.net\n",
        Some("whois.verisign-grs.com"),
    );
    assert_eq!(
        db.get_referral_server(&c),
        Some("whois.example-registrar.net".to_string())
    );
    // a server without a registered pattern yields nothing
    let c = client_with_body(b"ReferralServer: x\n", Some("whois.iana.org"));
    assert_eq!(db.get_referral_server(&c), None);
    // no match in the body yields nothing
    let c = client_with_body(b"plain text", Some("whois.verisign-grs.com"));
    assert_eq!(db.get_referral_server(&c), None);
}

#[test]
fn bad_pattern_is_a_construction_error() {
    let r = WhoisDatabase::new(&v4_config(), "", "", "", "h (unclosed\n", "", "");
    assert!(r.is_none());
    let r = WhoisDatabase::new(&v4_config(), "", "", "", "", "(unclosed\n", "");
    assert!(r.is_none());
}

#[test]
fn malformed_template_line_is_a_construction_error() {
    // a template without a marker
    let r = WhoisDatabase::new(&v4_config(), "", "", "whois.x.example plain\n", "", "", "");
    assert!(r.is_none());
    // a template line without any template
    let r = WhoisDatabase::new(&v4_config(), "", "", "whois.x.example\n", "", "", "");
    assert!(r.is_none());
}

#[test]
fn server_ip_order_follows_preference() {
    let cfg = IpConfig {
        default_version: IpVersion { v4: false, v6: true },
        supported_versions: IpVersion { v4: true, v6: true },
    };
    let db = WhoisDatabase::new(
        &cfg,
        "",
        "whois.dual.example 192.0.2.1 2001:db8::1 192.0.2.2\n",
        "",
        "",
        "",
        "",
    )
    .expect("well formed");
    let name = "whois.dual.example".to_string();
    assert_eq!(
        db.get_server_ip(0, Some(&name)),
        Some(IpAddress::V6(0x2001_0db8_0000_0000_0000_0000_0000_0001))
    );
    assert_eq!(db.get_server_ip(1, Some(&name)), Some(IpAddress::V4(0xC000_0201)));
    assert_eq!(db.get_server_ip(2, Some(&name)), Some(IpAddress::V4(0xC000_0202)));
}
