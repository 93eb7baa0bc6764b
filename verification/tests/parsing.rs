//! Discovered-address text parsing and the provider's record matching.

use ddns::cloudflare::{find_record_identifier, record_contents, CloudflareError, RawDnsRecord};
use ddns::config::{AppConfig, ConfigMap, Service};
use ddns::discovery::{parse_ipv4_text, parse_ipv6_text};
use ddns::dns::{DnsKind, DnsRecord, Ipv4Address, Ipv6Address};

fn v4(o0: u8, o1: u8, o2: u8, o3: u8) -> Ipv4Address {
    Ipv4Address { o0, o1, o2, o3 }
}

#[test]
fn parses_a_dotted_quad() {
    assert_eq!(parse_ipv4_text("203.0.113.7").unwrap(), v4(203, 0, 113, 7));
}

#[test]
fn parses_the_extremes() {
    assert_eq!(parse_ipv4_text("0.0.0.0").unwrap(), v4(0, 0, 0, 0));
    assert_eq!(parse_ipv4_text("255.255.255.255").unwrap(), v4(255, 255, 255, 255));
}

#[test]
fn rejects_octets_over_255() {
    assert!(parse_ipv4_text("256.0.0.1").is_err());
    assert!(parse_ipv4_text("1.2.3.999").is_err());
}

#[test]
fn rejects_leading_zeros() {
    assert!(parse_ipv4_text("01.2.3.4").is_err());
    assert!(parse_ipv4_text("1.2.3.04").is_err());
}

#[test]
fn rejects_wrong_shapes() {
    assert!(parse_ipv4_text("").is_err());
    assert!(parse_ipv4_text("1.2.3").is_err());
    assert!(parse_ipv4_text("1.2.3.4.5").is_err());
    assert!(parse_ipv4_text("1..2.3").is_err());
    assert!(parse_ipv4_text(".1.2.3").is_err());
    assert!(parse_ipv4_text("1.2.3.").is_err());
    assert!(parse_ipv4_text("a.b.c.d").is_err());
    assert!(parse_ipv4_text("1.2.3.4 ").is_err());
    assert!(parse_ipv4_text("2001:db8::1").is_err());
}

#[test]
fn parses_after_the_caller_trims() {
    assert_eq!(parse_ipv4_text("203.0.113.7\n".trim()).unwrap(), v4(203, 0, 113, 7));
}

fn raw(id: &str, name: &str, content: DnsRecord) -> RawDnsRecord {
    RawDnsRecord { id: id.to_string(), name: name.to_string(), content }
}

#[test]
fn finds_the_first_matching_record() {
    let records = vec![
        raw("id-1", "example.com", DnsRecord::AAAA(Ipv6Address {
            s0: 0x2001, s1: 0xdb8, s2: 0, s3: 0, s4: 0, s5: 0, s6: 0, s7: 1,
        })),
        raw("id-2", "other.example.com", DnsRecord::A(v4(9, 9, 9, 9))),
        raw("id-3", "example.com", DnsRecord::A(v4(198, 51, 100, 1))),
        raw("id-4", "example.com", DnsRecord::A(v4(198, 51, 100, 2))),
    ];
    let id = find_record_identifier(&records, &"example.com".to_string(), DnsKind::A).unwrap();
    assert_eq!(id, "id-3");
}

#[test]
fn missing_record_names_the_domain() {
    let records = vec![raw("id-1", "example.com", DnsRecord::A(v4(9, 9, 9, 9)))];
    let res = find_record_identifier(&records, &"example.com".to_string(), DnsKind::AAAA);
    match res {
        Err(CloudflareError::ErrRecordNotExist { record_name }) => {
            assert_eq!(record_name, "example.com");
        }
        _ => panic!("expected the record-not-found error"),
    }
}

#[test]
fn listing_maps_to_contents() {
    let records = vec![
        raw("id-1", "example.com", DnsRecord::A(v4(1, 2, 3, 4))),
        raw("id-2", "example.com", DnsRecord::UnSupported),
    ];
    assert_eq!(
        record_contents(&records),
        vec![DnsRecord::A(v4(1, 2, 3, 4)), DnsRecord::UnSupported]
    );
}

#[test]
fn app_config_carries_its_inputs() {
    let mut cfg = ConfigMap::new();
    cfg.insert(&"zoneId".to_string(), &"zone-1".to_string());
    let service = Service {
        name: "cloudflare".to_string(),
        config: cfg,
        domain: vec!["example.com".to_string()],
    };
    let app = AppConfig::new(vec![service], true);
    assert!(app.ipv6);
    assert_eq!(app.services.len(), 1);
    assert_eq!(app.services[0].name, "cloudflare");
    assert_eq!(app.services[0].domain, vec!["example.com".to_string()]);
}

fn seg(s0: u16, s1: u16, s2: u16, s3: u16, s4: u16, s5: u16, s6: u16, s7: u16) -> Ipv6Address {
    Ipv6Address { s0, s1, s2, s3, s4, s5, s6, s7 }
}

#[test]
fn parses_full_ipv6() {
    assert_eq!(
        parse_ipv6_text("1:2:3:4:5:6:7:8").unwrap(),
        seg(1, 2, 3, 4, 5, 6, 7, 8)
    );
    assert_eq!(
        parse_ipv6_text("2001:0db8:0000:0000:0000:0000:0000:0001").unwrap(),
        seg(0x2001, 0xdb8, 0, 0, 0, 0, 0, 1)
    );
}

#[test]
fn parses_compressed_ipv6() {
    assert_eq!(parse_ipv6_text("2001:db8::1").unwrap(), seg(0x2001, 0xdb8, 0, 0, 0, 0, 0, 1));
    assert_eq!(parse_ipv6_text("::1").unwrap(), seg(0, 0, 0, 0, 0, 0, 0, 1));
    assert_eq!(parse_ipv6_text("1::").unwrap(), seg(1, 0, 0, 0, 0, 0, 0, 0));
    assert_eq!(parse_ipv6_text("::").unwrap(), seg(0, 0, 0, 0, 0, 0, 0, 0));
    assert_eq!(
        parse_ipv6_text("1:2:3:4:5:6:7::").unwrap(),
        seg(1, 2, 3, 4, 5, 6, 7, 0)
    );
    assert_eq!(
        parse_ipv6_text("::2:3:4:5:6:7:8").unwrap(),
        seg(0, 2, 3, 4, 5, 6, 7, 8)
    );
}

#[test]
fn parses_mixed_case_hex() {
    assert_eq!(
        parse_ipv6_text("FE80::AbCd:ef01").unwrap(),
        seg(0xfe80, 0, 0, 0, 0, 0, 0xabcd, 0xef01)
    );
}

#[test]
fn rejects_malformed_ipv6() {
    assert!(parse_ipv6_text("").is_err());
    assert!(parse_ipv6_text(":").is_err());
    assert!(parse_ipv6_text(":::").is_err());
    assert!(parse_ipv6_text("1:2:3").is_err());
    assert!(parse_ipv6_text("1:2:3:4:5:6:7").is_err());
    assert!(parse_ipv6_text("1:2:3:4:5:6:7:8:9").is_err());
    assert!(parse_ipv6_text("12345::").is_err());
    assert!(parse_ipv6_text("1::2::3").is_err());
    assert!(parse_ipv6_text("g::1").is_err());
    assert!(parse_ipv6_text(":1:2:3:4:5:6:7").is_err());
    assert!(parse_ipv6_text("1:2:3:4:5:6:7:").is_err());
    assert!(parse_ipv6_text("1.2.3.4").is_err());
}

#[test]
fn parses_embedded_ipv4_notation() {
    assert_eq!(
        parse_ipv6_text("::ffff:203.0.113.7").unwrap(),
        seg(0, 0, 0, 0, 0, 0xffff, 0xcb00, 0x7107)
    );
    assert_eq!(
        parse_ipv6_text("1:2:3:4:5:6:7.8.9.10").unwrap(),
        seg(1, 2, 3, 4, 5, 6, 0x0708, 0x090a)
    );
    assert_eq!(
        parse_ipv6_text("1::2:1.2.3.4").unwrap(),
        seg(1, 0, 0, 0, 0, 2, 0x0102, 0x0304)
    );
    assert_eq!(
        parse_ipv6_text("::1.2.3.4").unwrap(),
        seg(0, 0, 0, 0, 0, 0, 0x0102, 0x0304)
    );
    assert_eq!(
        parse_ipv6_text("64:ff9b::1.2.3.4").unwrap(),
        seg(0x64, 0xff9b, 0, 0, 0, 0, 0x0102, 0x0304)
    );
}

#[test]
fn rejects_malformed_embedded_ipv4() {
    assert!(parse_ipv6_text("::1.2.3.4.5").is_err());
    assert!(parse_ipv6_text("1.2.3.4::").is_err());
    assert!(parse_ipv6_text("::1.2.3.4:5").is_err());
    assert!(parse_ipv6_text("1:2:3:4:5:6:7:1.2.3.4").is_err());
    assert!(parse_ipv6_text("::ffff:1.2.3.04").is_err());
    assert!(parse_ipv6_text("::ffff:256.2.3.4").is_err());
}
