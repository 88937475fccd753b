use masswhois::cache::ExpiryRef;
use masswhois::client::Availability;
use masswhois::handler::WhoisRawQueryCmd;
use masswhois::textutil::parse_u64;

#[test]
fn command_line_queries_come_out_in_order() {
    let mut src = WhoisRawQueryCmd::new("first\nsecond\nthird".to_string());
    assert_eq!(src.get(), Some("first".to_string()));
    assert_eq!(src.get(), Some("second".to_string()));
    assert_eq!(src.get(), Some("third".to_string()));
    assert_eq!(src.get(), None);
}

#[test]
fn command_line_split_keeps_empty_middle_lines() {
    let mut src = WhoisRawQueryCmd::new("a\n\nb\n".to_string());
    assert_eq!(src.get(), Some("a".to_string()));
    assert_eq!(src.get(), Some("".to_string()));
    assert_eq!(src.get(), Some("b".to_string()));
    assert_eq!(src.get(), None);
}

#[test]
fn availability_names() {
    assert_eq!(Availability::AVAILABLE.to_string(), "AVAILABLE");
    assert_eq!(Availability::UNAVAILABLE.to_string(), "UNAVAILABLE");
    assert_eq!(Availability::UNKNOWN.to_string(), "UNKNOWN");
}

#[test]
fn expiry_refs_carry_key_and_index() {
    let p = ExpiryRef::Positive("k.example.".to_string(), 3);
    assert!(p.is_positive());
    assert!(!p.is_negative());
    assert_eq!(p.get_rc(), "k.example.");
    assert_eq!(p.get_index(), 3);
    let n = ExpiryRef::Negative("k.example.".to_string());
    assert!(n.is_negative());
    assert_eq!(n.get_rc(), "k.example.");
}

#[test]
fn decimal_parsing_follows_from_str() {
    assert_eq!(parse_u64("15169"), Some(15169));
    assert_eq!(parse_u64("+7"), Some(7));
    assert_eq!(parse_u64("007"), Some(7));
    assert_eq!(parse_u64("18446744073709551615"), Some(u64::MAX));
    assert_eq!(parse_u64("18446744073709551616"), None);
    assert_eq!(parse_u64(""), None);
    assert_eq!(parse_u64("+"), None);
    assert_eq!(parse_u64("12a"), None);
    assert_eq!(parse_u64("-1"), None);
}
