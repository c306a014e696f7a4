use consul_external_dns::consul::{decode_kv_entries, KvEntry};
use consul_external_dns::dns_trait::{DnsType, ProviderError};
use consul_external_dns::hetzner_dns::to_dns_record_create;
use consul_external_dns::nomad;

fn kv(key: &str, value: Option<&str>) -> KvEntry {
    KvEntry {
        key: key.to_string(),
        value: value.map(|v| v.to_string()),
        session: None,
    }
}

#[test]
fn decodes_base64_payloads() {
    // The standard alphabet decodes the stored payloads; the result must
    // be the decoded bytes, not the text handed in.
    let decoded = decode_kv_entries(&vec![kv("dns_records_lock", Some("eyJhIjoxfQ=="))]);
    assert_eq!(decoded.len(), 1);
    assert_eq!(decoded[0], b"{\"a\":1}".to_vec());
}

#[test]
fn undecodable_entries_are_dropped() {
    let decoded = decode_kv_entries(&vec![
        kv("k1", Some("aGVsbG8=")),
        kv("k2", Some("not base64 !!!")),
        kv("k3", None),
        kv("k4", Some("d29ybGQ=")),
    ]);
    assert_eq!(decoded.len(), 2);
    assert_eq!(decoded[0], b"hello".to_vec());
    assert_eq!(decoded[1], b"world".to_vec());
}

#[test]
fn flat_tags_parse_to_one_intent() {
    let t = nomad::parse_dns_tags(&vec![
        "external-dns.hostname=a.com".to_string(),
        "external-dns.type=A".to_string(),
        "external-dns.ttl=300".to_string(),
        "external-dns.value=1.1.1.1".to_string(),
    ])
    .expect("all required fields are present");
    assert_eq!(t.hostname, "a.com");
    assert_eq!(t.type_, "A");
    assert_eq!(t.ttl, Some(300));
    assert_eq!(t.value, "1.1.1.1");
}

#[test]
fn flat_tags_require_hostname_type_and_value() {
    assert!(nomad::parse_dns_tags(&vec![
        "external-dns.hostname=a.com".to_string(),
        "external-dns.type=A".to_string(),
    ])
    .is_none());
}

#[test]
fn flat_tag_bad_ttl_is_just_absent() {
    // In the flat format an unparseable time-to-live does not drop the
    // whole intent; it is simply absent.
    let t = nomad::parse_dns_tags(&vec![
        "external-dns.hostname=a.com".to_string(),
        "external-dns.type=A".to_string(),
        "external-dns.ttl=soon".to_string(),
        "external-dns.value=1.1.1.1".to_string(),
    ])
    .expect("intent still parses");
    assert_eq!(t.ttl, None);
}

#[test]
fn flat_tag_needs_exactly_one_separator() {
    // A tag with two `=` is skipped entirely.
    let t = nomad::parse_dns_tags(&vec![
        "external-dns.hostname=a=com".to_string(),
        "external-dns.type=A".to_string(),
        "external-dns.value=1.1.1.1".to_string(),
    ]);
    assert!(t.is_none());
}

#[test]
fn first_declaring_service_wins() {
    let t = nomad::first_dns_tag(&vec![
        vec!["unrelated".to_string()],
        vec![
            "external-dns.hostname=first.com".to_string(),
            "external-dns.type=A".to_string(),
            "external-dns.value=1.1.1.1".to_string(),
        ],
        vec![
            "external-dns.hostname=second.com".to_string(),
            "external-dns.type=A".to_string(),
            "external-dns.value=2.2.2.2".to_string(),
        ],
    ])
    .expect("a service declares an intent");
    assert_eq!(t.hostname, "first.com");
    assert!(nomad::first_dns_tag(&vec![vec!["unrelated".to_string()]]).is_none());
}

#[test]
fn creation_payload_carries_the_record() {
    let record = consul_external_dns::consul::DnsRecord {
        hostname: "a.com".to_string(),
        type_: DnsType::AAAA,
        ttl: Some(60),
        value: "::1".to_string(),
    };
    let payload = to_dns_record_create("zone-1", &record);
    assert_eq!(payload.zone_id, "zone-1");
    assert_eq!(payload.type_, "AAAA");
    assert_eq!(payload.name, "a.com");
    assert_eq!(payload.value, "::1");
    assert_eq!(payload.ttl, Some(60));
}

#[test]
fn provider_errors_keep_their_class() {
    let t = ProviderError::Transient("backend unreachable".to_string());
    let f = ProviderError::Fatal("bad token".to_string());
    assert!(t.is_transient());
    assert!(!f.is_transient());
    assert_eq!(t.message(), "backend unreachable");
    assert_eq!(f.message(), "bad token");
}
