//! The reconciliation engine, run against the in-memory record manager.

use ddns::dns::{DnsKind, DnsRecord, Ipv4Address, Ipv6Address, ProviderError, RecoderManager};
use ddns::memory::MemoryRecoderManager;
use ddns::{decide, family_plan, reconcile_domain, reconcile_domains, Action, Outcome};

fn v4(o0: u8, o1: u8, o2: u8, o3: u8) -> DnsRecord {
    DnsRecord::A(Ipv4Address { o0, o1, o2, o3 })
}

fn v6_loopback() -> DnsRecord {
    DnsRecord::AAAA(Ipv6Address { s0: 0, s1: 0, s2: 0, s3: 0, s4: 0, s5: 0, s6: 0, s7: 1 })
}

#[test]
fn equality_same_value() {
    assert_eq!(v4(1, 2, 3, 4), v4(1, 2, 3, 4));
}

#[test]
fn equality_differs_across_families() {
    assert_ne!(v4(0, 0, 0, 1), v6_loopback());
    assert_ne!(v4(0, 0, 0, 1).kind(), v6_loopback().kind());
}

#[test]
fn equality_differs_on_value() {
    assert_ne!(v4(1, 2, 3, 4), v4(1, 2, 3, 5));
}

#[test]
fn kind_of_records() {
    assert_eq!(v4(1, 2, 3, 4).kind(), DnsKind::A);
    assert_eq!(v6_loopback().kind(), DnsKind::AAAA);
    assert_eq!(DnsRecord::UnSupported.kind(), DnsKind::UnSupported);
}

#[test]
fn decide_empty_is_create() {
    assert_eq!(decide(&vec![], &v4(1, 2, 3, 4)), Action::Create);
}

#[test]
fn decide_equal_is_skip() {
    assert_eq!(decide(&vec![v4(1, 2, 3, 4)], &v4(1, 2, 3, 4)), Action::Skip);
}

#[test]
fn decide_differing_is_update() {
    assert_eq!(decide(&vec![v4(9, 9, 9, 9)], &v4(1, 2, 3, 4)), Action::Update);
}

#[test]
fn decide_compares_first_record_only() {
    let records = vec![v4(1, 2, 3, 4), v4(9, 9, 9, 9)];
    assert_eq!(decide(&records, &v4(1, 2, 3, 4)), Action::Skip);
}

#[test]
fn creation_path_creates_exactly_once() {
    let mut rm = MemoryRecoderManager::new();
    let domain = "example.com".to_string();
    let discovered = v4(203, 0, 113, 7);
    let outcome = reconcile_domain(&mut rm, &domain, &discovered).unwrap();
    assert_eq!(outcome, Outcome::Created);
    assert_eq!(rm.create_count(), 1);
    assert_eq!(rm.update_count(), 0);
    assert_eq!(rm.get_records(&domain).unwrap(), vec![discovered]);
}

#[test]
fn update_path_updates_exactly_once() {
    let mut rm = MemoryRecoderManager::new();
    let domain = "example.com".to_string();
    rm.seed_records(&domain, vec![v4(198, 51, 100, 1)]);
    let discovered = v4(203, 0, 113, 7);
    let outcome = reconcile_domain(&mut rm, &domain, &discovered).unwrap();
    assert_eq!(outcome, Outcome::Updated);
    assert_eq!(rm.create_count(), 0);
    assert_eq!(rm.update_count(), 1);
    assert_eq!(rm.get_records(&domain).unwrap(), vec![discovered]);
}

#[test]
fn skip_path_writes_nothing() {
    let mut rm = MemoryRecoderManager::new();
    let domain = "example.com".to_string();
    let current = v4(203, 0, 113, 7);
    rm.seed_records(&domain, vec![current]);
    let outcome = reconcile_domain(&mut rm, &domain, &current).unwrap();
    assert_eq!(outcome, Outcome::Skipped);
    assert_eq!(rm.create_count(), 0);
    assert_eq!(rm.update_count(), 0);
    assert_eq!(rm.get_records(&domain).unwrap(), vec![current]);
}

#[test]
fn second_run_is_all_skips() {
    let mut rm = MemoryRecoderManager::new();
    rm.seed_records(&"b.example.com".to_string(), vec![v4(198, 51, 100, 1)]);
    let domains = vec![
        "a.example.com".to_string(),
        "b.example.com".to_string(),
        "c.example.com".to_string(),
    ];
    let discovered = v4(203, 0, 113, 7);
    let first = reconcile_domains(&mut rm, &domains, &discovered).unwrap();
    assert_eq!(first, vec![Outcome::Created, Outcome::Updated, Outcome::Created]);
    let writes_after_first = (rm.create_count(), rm.update_count());
    let second = reconcile_domains(&mut rm, &domains, &discovered).unwrap();
    assert_eq!(second, vec![Outcome::Skipped, Outcome::Skipped, Outcome::Skipped]);
    assert_eq!((rm.create_count(), rm.update_count()), writes_after_first);
}

#[test]
fn update_without_existing_record_fails() {
    let mut rm = MemoryRecoderManager::new();
    let domain = "example.com".to_string();
    let res = rm.update_records(&domain, &v4(203, 0, 113, 7));
    assert!(matches!(res, Err(ProviderError::RecordNotFound)));
}

#[test]
fn update_without_record_of_same_kind_fails() {
    let mut rm = MemoryRecoderManager::new();
    let domain = "example.com".to_string();
    rm.seed_records(&domain, vec![v6_loopback()]);
    let res = rm.update_records(&domain, &v4(203, 0, 113, 7));
    assert!(matches!(res, Err(ProviderError::RecordNotFound)));
}

#[test]
fn update_replaces_first_record_of_kind() {
    let mut rm = MemoryRecoderManager::new();
    let domain = "example.com".to_string();
    rm.seed_records(&domain, vec![v6_loopback(), v4(198, 51, 100, 1), v4(9, 9, 9, 9)]);
    let discovered = v4(203, 0, 113, 7);
    rm.update_records(&domain, &discovered).unwrap();
    assert_eq!(
        rm.get_records(&domain).unwrap(),
        vec![v6_loopback(), discovered, v4(9, 9, 9, 9)]
    );
}

#[test]
fn other_domains_are_never_touched() {
    let mut rm = MemoryRecoderManager::new();
    let other = "other.example.com".to_string();
    rm.seed_records(&other, vec![v4(198, 51, 100, 1)]);
    let domains = vec!["a.example.com".to_string()];
    reconcile_domains(&mut rm, &domains, &v4(203, 0, 113, 7)).unwrap();
    assert_eq!(rm.get_records(&other).unwrap(), vec![v4(198, 51, 100, 1)]);
}

#[test]
fn family_isolation_v4_failure_keeps_v6() {
    let v6 = Ipv6Address { s0: 0x2001, s1: 0xdb8, s2: 0, s3: 0, s4: 0, s5: 0, s6: 0, s7: 1 };
    let with_v4 = family_plan(Some(Ipv4Address { o0: 203, o1: 0, o2: 113, o3: 7 }), Some(v6), true);
    let without_v4 = family_plan(None, Some(v6), true);
    assert_eq!(without_v4, vec![DnsRecord::AAAA(v6)]);
    assert_eq!(with_v4.last(), without_v4.last());
}

#[test]
fn family_plan_respects_enable_flag() {
    let a = Ipv4Address { o0: 203, o1: 0, o2: 113, o3: 7 };
    let v6 = Ipv6Address { s0: 0x2001, s1: 0xdb8, s2: 0, s3: 0, s4: 0, s5: 0, s6: 0, s7: 1 };
    assert_eq!(family_plan(Some(a), Some(v6), false), vec![DnsRecord::A(a)]);
    assert_eq!(family_plan(None, None, true), vec![]);
}
