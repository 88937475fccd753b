use masswhois::client::Status;
use masswhois::database::WhoisDatabase;
use masswhois::dispatch::{MassWhois, NextAction, MAX_REFERRALS};
use masswhois::handler::{WhoisOutputBinary, WhoisOutputReadable};
use masswhois::ip::{IpAddress, IpConfig, IpVersion};
use masswhois::resolver::CachingResolver;

fn v4_config() -> IpConfig {
    IpConfig {
        default_version: IpVersion { v4: true, v6: false },
        supported_versions: IpVersion { v4: true, v6: false },
    }
}

fn qname_bytes(name: &str) -> Vec<u8> {
    let mut out = Vec::new();
    for label in name.trim_end_matches('.').split('.') {
        out.push(label.len() as u8);
        out.extend(label.as_bytes());
    }
    out.push(0);
    out
}

fn a_response(name: &str, addrs: &[[u8; 4]], ttl: u32) -> Vec<u8> {
    let mut d = vec![
        0x00,
        0x0A,
        0x81,
        0x80,
        0x00,
        0x01,
        0x00,
        addrs.len() as u8,
        0x00,
        0x00,
        0x00,
        0x00,
    ];
    d.extend(qname_bytes(name));
    d.extend([0x00, 0x01, 0x00, 0x01]);
    for a in addrs {
        d.extend(qname_bytes(name));
        d.extend([0x00, 0x01, 0x00, 0x01]);
        d.extend(ttl.to_be_bytes());
        d.extend([0x00, 0x04]);
        d.extend(a.iter());
    }
    d
}

// a referral chain: each of A and B names the other as the next server
fn chain_db() -> WhoisDatabase {
    WhoisDatabase::new(
        &v4_config(),
        "tld whois.a.tld\n",
        "whois.a.tld 192.0.2.10\nwhois.b.tld 192.0.2.11\n",
        "",
        "whois.a.tld ReferralServer: (\\S+)\nwhois.b.tld ReferralServer: (\\S+)\n",
        "",
        "",
    )
    .expect("well formed")
}

fn chain_resolver() -> CachingResolver {
    CachingResolver::from_config(v4_config(), 16, 64, 4, 60, "nameserver 192.0.2.53\n", 0)
}

#[test]
fn end_of_input_terminates() {
    let mw_db = chain_db();
    let mut mw = MassWhois::new(1, v4_config(), true, true, false, mw_db, chain_resolver(), Vec::new());
    assert!(!mw.is_end_reached());
    let act = mw.next_client(0, Status::Initial, None, 1);
    assert!(matches!(act, NextAction::EndReached));
    assert!(mw.is_end_reached());
    assert!(mw.check_termination());
}

#[test]
fn referral_chain_stops_at_the_cap() {
    let mut mw = MassWhois::new(
        1,
        v4_config(),
        true,
        true,
        false,
        chain_db(),
        chain_resolver(),
        Vec::new(),
    );
    // the first assignment goes through DNS for whois.a.tld
    let act = mw.next_client(0, Status::Initial, Some("example.tld".to_string()), 1);
    let sends = match act {
        NextAction::AwaitDns(s) => s,
        _ => panic!("expected a DNS wait"),
    };
    assert_eq!(sends.len(), 1);
    let woken = mw.dns_receive(
        a_response("whois.a.tld.", &[[192, 0, 2, 10]], 300).as_slice(),
        1,
    );
    assert_eq!(woken, vec![0]);
    let act = mw.next_client(0, Status::DNS, None, 2);
    assert!(matches!(act, NextAction::Connect(IpAddress::V4(0xC000_020A))));
    assert_eq!(mw.client(0).referral_count, 0);
    // a slot routed without a template sends the object and a newline twice
    assert_eq!(mw.take_outbound(0), b"example.tld\n\n".to_vec());

    // referral responses bounce between the two servers until the cap
    let mut first_referral_checked = false;
    let mut conversations = 1;
    let mut referrals_taken = 0;
    loop {
        let body: &[u8] = if mw.client(0).server == Some("whois.a.tld".to_string()) {
            b"ReferralServer: whois.b.tld\n"
        } else {
            b"ReferralServer: whois.a.tld\n"
        };
        mw.feed_inbound(0, body);
        let staged = mw.hup_decision(0).expect("first hang-up of this conversation");
        match staged {
            Status::Referral => {
                referrals_taken += 1;
                let next_name = mw.client(0).server.clone().expect("referral target");
                let act = mw.next_client(0, Status::Referral, None, 3);
                match act {
                    NextAction::AwaitDns(_) => {
                        let addr = if next_name == "whois.a.tld" {
                            [192, 0, 2, 10]
                        } else {
                            [192, 0, 2, 11]
                        };
                        let resp = a_response(&(next_name + "."), &[addr], 300);
                        let woken = mw.dns_receive(resp.as_slice(), 3);
                        assert_eq!(woken, vec![0]);
                        let act = mw.next_client(0, Status::DNS, None, 4);
                        assert!(matches!(act, NextAction::Connect(_)));
                    }
                    NextAction::Connect(_) => {}
                    _ => panic!("referral reassignment should connect"),
                }
                conversations += 1;
                assert!(mw.client(0).referral_count <= MAX_REFERRALS);
                if !first_referral_checked {
                    // the re-driven slot queries the referral target with the
                    // plain object line
                    assert_eq!(mw.client(0).server, Some("whois.b.tld".to_string()));
                    assert_eq!(mw.take_outbound(0), b"example.tld\n".to_vec());
                    first_referral_checked = true;
                }
            }
            Status::Other => break,
            _ => panic!("unexpected staged status"),
        }
        assert!(conversations <= MAX_REFERRALS + 1, "the cap must hold");
    }
    assert_eq!(referrals_taken, MAX_REFERRALS);
    assert_eq!(conversations, MAX_REFERRALS + 1);
}

#[test]
fn dns_requests_coalesce_across_slots() {
    let mut mw = MassWhois::new(
        2,
        v4_config(),
        true,
        true,
        false,
        chain_db(),
        chain_resolver(),
        Vec::new(),
    );
    // both inputs route to whois.a.tld; only the first sends a datagram
    let act = mw.next_client(0, Status::Initial, Some("one.tld".to_string()), 1);
    let sends = match act {
        NextAction::AwaitDns(s) => s,
        _ => panic!("expected a DNS wait"),
    };
    assert_eq!(sends.len(), 1);
    let act = mw.next_client(1, Status::Initial, Some("two.tld".to_string()), 1);
    let sends = match act {
        NextAction::AwaitDns(s) => s,
        _ => panic!("expected a DNS wait"),
    };
    assert_eq!(sends.len(), 0, "the second slot coalesces onto the first request");
    // one response resumes both slots
    let woken = mw.dns_receive(
        a_response("whois.a.tld.", &[[192, 0, 2, 10]], 300).as_slice(),
        1,
    );
    assert_eq!(woken, vec![0, 1]);
    let act = mw.next_client(0, Status::DNS, None, 2);
    assert!(matches!(act, NextAction::Connect(_)));
    let act = mw.next_client(1, Status::DNS, None, 2);
    assert!(matches!(act, NextAction::Connect(_)));
}

#[test]
fn nxdomain_drops_the_slot_without_a_conversation() {
    let mut mw = MassWhois::new(
        1,
        v4_config(),
        true,
        true,
        false,
        chain_db(),
        chain_resolver(),
        Vec::new(),
    );
    let act = mw.next_client(0, Status::Initial, Some("gone.tld".to_string()), 1);
    assert!(matches!(act, NextAction::AwaitDns(_)));
    let mut resp = vec![
        0x00, 0x0A, 0x81, 0x83, 0x00, 0x01, 0x00, 0x00, 0x00, 0x00, 0x00, 0x00,
    ];
    resp.extend(qname_bytes("whois.a.tld."));
    resp.extend([0x00, 0x01, 0x00, 0x01]);
    let woken = mw.dns_receive(resp.as_slice(), 1);
    assert_eq!(woken, vec![0]);
    let act = mw.next_client(0, Status::DNS, None, 2);
    assert!(matches!(act, NextAction::Dropped));
}

#[test]
fn fallback_server_is_used_without_inference() {
    let mut mw = MassWhois::new(
        1,
        v4_config(),
        false,
        true,
        false,
        chain_db(),
        chain_resolver(),
        vec![IpAddress::V4(0x0909_0909)],
    );
    let act = mw.next_client(0, Status::Initial, Some("15169".to_string()), 1);
    assert!(matches!(act, NextAction::AwaitDns(_)));
    let woken = mw.dns_receive(
        a_response("whois.arin.net.", &[[192, 0, 2, 44]], 300).as_slice(),
        1,
    );
    assert_eq!(woken, vec![0]);
    // the resolved address is overridden by the fallback server
    let act = mw.next_client(0, Status::DNS, None, 2);
    assert!(matches!(act, NextAction::Connect(IpAddress::V4(0x0909_0909))));
}

#[test]
fn output_handlers_render_the_slot() {
    let mut mw = MassWhois::new(
        1,
        v4_config(),
        false,
        true,
        false,
        chain_db(),
        chain_resolver(),
        vec![IpAddress::V4(0x0909_0909)],
    );
    let act = mw.next_client(0, Status::Initial, Some("a".to_string()), 1);
    assert!(matches!(act, NextAction::AwaitDns(_)));
    let woken = mw.dns_receive(
        a_response("whois.iana.org.", &[[192, 0, 2, 9]], 300).as_slice(),
        1,
    );
    assert_eq!(woken, vec![0]);
    let act = mw.next_client(0, Status::DNS, None, 2);
    assert!(matches!(act, NextAction::Connect(_)));
    let out = mw.take_outbound(0);
    assert_eq!(out, b"a\n\n".to_vec());
    let bin = WhoisOutputBinary::new();
    let bytes = bin.encode(mw.client(0));
    let expected: Vec<u8> = vec![
        0x01, 0x00, 0x00, 0x00, 0x00, 0x00, 0x00, 0x00, b'a', 0x00, 0x00, 0x00, 0x00, 0x00, 0x00,
        0x00, 0x00,
    ];
    assert_eq!(bytes, expected);
    mw.feed_inbound(0, b"ok");
    let readable = WhoisOutputReadable::new();
    let text = readable.encode(mw.client(0));
    assert_eq!(text, b"----- a -----\n\nok\n\n".to_vec());
}
