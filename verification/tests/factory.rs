//! The record-manager factory and the provider configuration checks.

use ddns::cloudflare::{CloudflareAuth, CloudflareConfig, CloudflareError};
use ddns::config::ConfigMap;
use ddns::dns::{BuildError, RecoderManagerBuilder, RecoderManagerBuilderError, ValidatedProvider};

#[test]
fn empty_type_is_refused() {
    let res = RecoderManagerBuilder::new().build();
    assert!(matches!(
        res,
        Err(BuildError::Builder(RecoderManagerBuilderError::ErrTypeIsEmpty))
    ));
}

#[test]
fn unknown_type_is_named() {
    let res = RecoderManagerBuilder::new().with_type("unknown-xyz").build();
    match res {
        Err(BuildError::Builder(RecoderManagerBuilderError::ErrUnknownType(t))) => {
            assert_eq!(t, "unknown-xyz");
        }
        _ => panic!("expected the unknown-type error"),
    }
}

#[test]
fn missing_zone_id_is_named() {
    let res = RecoderManagerBuilder::new()
        .with_type("cloudflare")
        .with_cfg("token", "SECRET-REDACTED")
        .build();
    assert!(matches!(
        res,
        Err(BuildError::Provider(CloudflareError::ErrZoneIdIsEmpty))
    ));
}

#[test]
fn missing_auth_is_named() {
    let res = RecoderManagerBuilder::new()
        .with_type("cloudflare")
        .with_cfg("zoneId", "zone-1")
        .build();
    assert!(matches!(
        res,
        Err(BuildError::Provider(CloudflareError::ErrAuthIsEmpty))
    ));
}

#[test]
fn key_without_email_is_not_enough() {
    let res = RecoderManagerBuilder::new()
        .with_type("cloudflare")
        .with_cfg("zoneId", "zone-1")
        .with_cfg("key", "SECRET-REDACTED")
        .build();
    assert!(matches!(
        res,
        Err(BuildError::Provider(CloudflareError::ErrAuthIsEmpty))
    ));
}

#[test]
fn token_config_builds() {
    let res = RecoderManagerBuilder::new()
        .with_type("cloudflare")
        .with_cfg("zoneId", "zone-1")
        .with_cfg("token", "SECRET-REDACTED")
        .build();
    match res {
        Ok(ValidatedProvider::Cloudflare(c)) => {
            assert_eq!(c.zone_id, "zone-1");
            assert!(matches!(c.auth, CloudflareAuth::UserAuthToken { .. }));
        }
        _ => panic!("expected a validated provider"),
    }
}

#[test]
fn email_and_key_win_over_token() {
    let res = RecoderManagerBuilder::new()
        .with_type("cloudflare")
        .with_cfg("zoneId", "zone-1")
        .with_cfg("email", "user@example.com")
        .with_cfg("key", "SECRET-REDACTED")
        .with_cfg("token", "SECRET-REDACTED")
        .build();
    match res {
        Ok(ValidatedProvider::Cloudflare(c)) => match c.auth {
            CloudflareAuth::UserAuthKey { email, .. } => assert_eq!(email, "user@example.com"),
            _ => panic!("expected the email-and-key auth form"),
        },
        _ => panic!("expected a validated provider"),
    }
}

#[test]
fn with_cfgs_overrides_earlier_entries() {
    let mut extra = ConfigMap::new();
    extra.insert(&"zoneId".to_string(), &"zone-2".to_string());
    extra.insert(&"token".to_string(), &"SECRET-REDACTED".to_string());
    let res = RecoderManagerBuilder::new()
        .with_type("cloudflare")
        .with_cfg("zoneId", "zone-1")
        .with_cfgs(&extra)
        .build();
    match res {
        Ok(ValidatedProvider::Cloudflare(c)) => assert_eq!(c.zone_id, "zone-2"),
        _ => panic!("expected a validated provider"),
    }
}

#[test]
fn config_map_get_and_replace() {
    let mut cfg = ConfigMap::new();
    assert!(cfg.get(&"zoneId".to_string()).is_none());
    cfg.insert(&"zoneId".to_string(), &"zone-1".to_string());
    assert_eq!(cfg.get(&"zoneId".to_string()), Some(&"zone-1".to_string()));
    cfg.insert(&"zoneId".to_string(), &"zone-2".to_string());
    assert_eq!(cfg.get(&"zoneId".to_string()), Some(&"zone-2".to_string()));
    assert!(cfg.contains_key(&"zoneId".to_string()));
    assert!(!cfg.contains_key(&"email".to_string()));
}

#[test]
fn cloudflare_new_reads_the_map() {
    let mut cfg = ConfigMap::new();
    cfg.insert(&"zoneId".to_string(), &"zone-1".to_string());
    cfg.insert(&"email".to_string(), &"user@example.com".to_string());
    cfg.insert(&"key".to_string(), &"SECRET-REDACTED".to_string());
    let c = CloudflareConfig::new(&cfg).unwrap();
    assert_eq!(c.zone_id, "zone-1");
    assert!(matches!(c.auth, CloudflareAuth::UserAuthKey { .. }));
}
