use consul_external_dns::consul::{parse_all_service_tags, parse_dns_tags};
use consul_external_dns::dns_trait::DnsType;
use consul_external_dns::strutil;

fn tags(list: &[&str]) -> Vec<String> {
    list.iter().map(|s| s.to_string()).collect()
}

#[test]
fn parses_complete_group() {
    // {hostname=example.com, type=A, value=1.2.3.4, ttl=300} parses to the
    // full record.
    let records = parse_dns_tags(&tags(&[
        "external-dns.x.hostname=example.com",
        "external-dns.x.type=A",
        "external-dns.x.value=1.2.3.4",
        "external-dns.x.ttl=300",
    ]));
    assert_eq!(records.len(), 1);
    assert_eq!(records[0].hostname, "example.com");
    assert_eq!(records[0].type_, DnsType::A);
    assert_eq!(records[0].ttl, Some(300));
    assert_eq!(records[0].value, "1.2.3.4");
}

#[test]
fn ttl_is_optional() {
    let records = parse_dns_tags(&tags(&[
        "external-dns.x.hostname=example.com",
        "external-dns.x.type=CNAME",
        "external-dns.x.value=other.example.com",
    ]));
    assert_eq!(records.len(), 1);
    assert_eq!(records[0].ttl, None);
    assert_eq!(records[0].type_, DnsType::CNAME);
}

#[test]
fn group_missing_value_is_dropped() {
    let records = parse_dns_tags(&tags(&[
        "external-dns.x.hostname=example.com",
        "external-dns.x.type=A",
    ]));
    assert!(records.is_empty());
}

#[test]
fn group_with_unknown_type_is_dropped() {
    let records = parse_dns_tags(&tags(&[
        "external-dns.x.hostname=example.com",
        "external-dns.x.type=FOO",
        "external-dns.x.value=1.2.3.4",
    ]));
    assert!(records.is_empty());
}

#[test]
fn group_with_bad_ttl_is_dropped() {
    let records = parse_dns_tags(&tags(&[
        "external-dns.x.hostname=example.com",
        "external-dns.x.type=A",
        "external-dns.x.value=1.2.3.4",
        "external-dns.x.ttl=soon",
    ]));
    assert!(records.is_empty());
}

#[test]
fn dropped_group_does_not_affect_others() {
    let records = parse_dns_tags(&tags(&[
        "external-dns.bad.hostname=broken.example.com",
        "external-dns.bad.type=FOO",
        "external-dns.bad.value=1.2.3.4",
        "external-dns.ok.hostname=good.example.com",
        "external-dns.ok.type=AAAA",
        "external-dns.ok.value=::1",
    ]));
    assert_eq!(records.len(), 1);
    assert_eq!(records[0].hostname, "good.example.com");
    assert_eq!(records[0].type_, DnsType::AAAA);
}

#[test]
fn last_field_occurrence_wins() {
    let records = parse_dns_tags(&tags(&[
        "external-dns.x.hostname=first.example.com",
        "external-dns.x.hostname=second.example.com",
        "external-dns.x.type=A",
        "external-dns.x.value=1.2.3.4",
    ]));
    assert_eq!(records.len(), 1);
    assert_eq!(records[0].hostname, "second.example.com");
}

#[test]
fn tags_without_prefix_are_ignored() {
    let records = parse_dns_tags(&tags(&[
        "internal-dns.x.hostname=example.com",
        "x.type=A",
        "plain tag",
        "external-dns.x=42",
    ]));
    assert!(records.is_empty());
}

#[test]
fn value_may_contain_separators() {
    // Only the first `.` and the first `=` split; the value keeps the rest.
    let records = parse_dns_tags(&tags(&[
        "external-dns.x.hostname=a.b.example.com",
        "external-dns.x.type=CNAME",
        "external-dns.x.value=target=odd.example.com",
    ]));
    assert_eq!(records.len(), 1);
    assert_eq!(records[0].hostname, "a.b.example.com");
    assert_eq!(records[0].value, "target=odd.example.com");
}

#[test]
fn groups_parse_in_first_appearance_order() {
    let records = parse_dns_tags(&tags(&[
        "external-dns.one.hostname=one.example.com",
        "external-dns.two.hostname=two.example.com",
        "external-dns.one.type=A",
        "external-dns.one.value=1.1.1.1",
        "external-dns.two.type=A",
        "external-dns.two.value=2.2.2.2",
    ]));
    assert_eq!(records.len(), 2);
    assert_eq!(records[0].hostname, "one.example.com");
    assert_eq!(records[1].hostname, "two.example.com");
}

#[test]
fn service_lists_concatenate() {
    let services = vec![
        tags(&[
            "external-dns.x.hostname=one.example.com",
            "external-dns.x.type=A",
            "external-dns.x.value=1.1.1.1",
        ]),
        tags(&["unrelated"]),
        tags(&[
            "external-dns.y.hostname=two.example.com",
            "external-dns.y.type=A",
            "external-dns.y.value=2.2.2.2",
        ]),
    ];
    let records = parse_all_service_tags(&services);
    assert_eq!(records.len(), 2);
    assert_eq!(records[0].hostname, "one.example.com");
    assert_eq!(records[1].hostname, "two.example.com");
}

#[test]
fn dns_type_round_trip() {
    for (text, ty) in [
        ("A", DnsType::A),
        ("AAAA", DnsType::AAAA),
        ("CNAME", DnsType::CNAME),
    ] {
        assert_eq!(DnsType::from_str(text), Some(ty));
        assert_eq!(ty.as_str(), text);
    }
    assert_eq!(DnsType::from_str("a"), None);
    assert_eq!(DnsType::from_str("TXT"), None);
    assert_eq!(DnsType::from_str(""), None);
}

#[test]
fn parse_i32_accepts_standard_decimals() {
    assert_eq!(strutil::parse_i32("300"), Some(300));
    assert_eq!(strutil::parse_i32("0"), Some(0));
    assert_eq!(strutil::parse_i32("+42"), Some(42));
    assert_eq!(strutil::parse_i32("-300"), Some(-300));
    assert_eq!(strutil::parse_i32("2147483647"), Some(i32::MAX));
    assert_eq!(strutil::parse_i32("-2147483648"), Some(i32::MIN));
}

#[test]
fn parse_i32_rejects_bad_input() {
    assert_eq!(strutil::parse_i32(""), None);
    assert_eq!(strutil::parse_i32("+"), None);
    assert_eq!(strutil::parse_i32("-"), None);
    assert_eq!(strutil::parse_i32("12a"), None);
    assert_eq!(strutil::parse_i32(" 12"), None);
    assert_eq!(strutil::parse_i32("2147483648"), None);
    assert_eq!(strutil::parse_i32("-2147483649"), None);
    assert_eq!(strutil::parse_i32("99999999999999999999"), None);
}

#[test]
fn split_once_splits_at_first_occurrence() {
    assert_eq!(
        strutil::split_once("a.b.c", '.'),
        Some(("a".to_string(), "b.c".to_string()))
    );
    assert_eq!(strutil::split_once("abc", '.'), None);
    assert_eq!(
        strutil::split_once("=v", '='),
        Some(("".to_string(), "v".to_string()))
    );
}

#[test]
fn strip_prefix_only_strips_real_prefixes() {
    assert_eq!(
        strutil::strip_prefix("external-dns.rest", "external-dns."),
        Some("rest".to_string())
    );
    assert_eq!(strutil::strip_prefix("ext", "external-dns."), None);
    assert_eq!(strutil::strip_prefix("xexternal-dns.y", "external-dns."), None);
}
