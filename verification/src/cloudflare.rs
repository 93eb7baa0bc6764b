//! The Cloudflare provider's validated configuration and the record-matching
//! rules its manager follows.  The wire-level REST calls are a collaborator
//! concern; what is modelled here is everything the provider decides from
//! plain values: which configuration maps it accepts, which published record
//! an update replaces, and how a raw listing maps to address records.

use crate::config::ConfigMap;
use crate::dns::{DnsKind, DnsRecord};
use vstd::prelude::*;
use vstd::string::StringExecFns;

verus! {

/// Why the Cloudflare provider refused its inputs: the configuration map
/// lacks a zone identifier, lacks both auth forms, or an update found no
/// record of the target kind under the given name.
#[derive(Clone, Debug)]
pub enum CloudflareError {
    ErrZoneIdIsEmpty,
    ErrAuthIsEmpty,
    ErrRecordNotExist { record_name: String },
}

/// The credentials the provider authenticates with: an email and key pair,
/// or a single API token.  The pair is preferred when both forms are given.
#[derive(Clone, Debug)]
pub enum CloudflareAuth {
    UserAuthKey { email: String, key: String },
    UserAuthToken { token: String },
}

/// A validated Cloudflare configuration: the zone the records live in and
/// the credentials to use.  Constructing one is the provider's whole
/// configuration check; the HTTP client around it is built elsewhere.
#[derive(Clone, Debug)]
pub struct CloudflareConfig {
    pub zone_id: String,
    pub auth: CloudflareAuth,
}

/// The map names a zone identifier.
pub open spec fn has_zone_id(cfg: ConfigMap) -> bool {
    cfg.get_spec("zoneId"@) is Some
}

/// The map names both halves of the email-and-key auth form.
pub open spec fn has_key_auth(cfg: ConfigMap) -> bool {
    cfg.get_spec("email"@) is Some && cfg.get_spec("key"@) is Some
}

/// The map names an API token.
pub open spec fn has_token_auth(cfg: ConfigMap) -> bool {
    cfg.get_spec("token"@) is Some
}

/// `c` is exactly what validating `cfg` must produce: the map's zone
/// identifier, and the email-and-key pair when both its keys are bound,
/// else the token.
pub open spec fn config_accepted(cfg: ConfigMap, c: CloudflareConfig) -> bool {
    &&& has_zone_id(cfg)
    &&& has_key_auth(cfg) || has_token_auth(cfg)
    &&& Some(c.zone_id@) == cfg.get_spec("zoneId"@)
    &&& if has_key_auth(cfg) {
        c.auth matches CloudflareAuth::UserAuthKey { email, key } && Some(email@) == cfg.get_spec(
            "email"@,
        ) && Some(key@) == cfg.get_spec("key"@)
    } else {
        c.auth matches CloudflareAuth::UserAuthToken { token } && Some(token@) == cfg.get_spec(
            "token"@,
        )
    }
}

/// `e` is exactly the error validating `cfg` must raise: the missing zone
/// identifier is reported first, then the missing credentials.
pub open spec fn config_refused(cfg: ConfigMap, e: CloudflareError) -> bool {
    if !has_zone_id(cfg) {
        e is ErrZoneIdIsEmpty
    } else if !has_key_auth(cfg) && !has_token_auth(cfg) {
        e is ErrAuthIsEmpty
    } else {
        false
    }
}

impl CloudflareConfig {
    /// Validates a free-form configuration map: requires a zone identifier
    /// under `zoneId`, and either an `email` and `key` pair or a `token`,
    /// naming the missing piece otherwise.
    pub fn new(cfg: &ConfigMap) -> (r: Result<CloudflareConfig, CloudflareError>)
        ensures
            !has_zone_id(*cfg) ==> (r matches Err(e) && e is ErrZoneIdIsEmpty),
            has_zone_id(*cfg) && !has_key_auth(*cfg) && !has_token_auth(*cfg) ==> (r matches Err(
                e,
            ) && e is ErrAuthIsEmpty),
            has_zone_id(*cfg) && (has_key_auth(*cfg) || has_token_auth(*cfg)) ==> (r matches Ok(
                c,
            ) && config_accepted(*cfg, c)),
    {
        let zone_id = match cfg.get(&String::from_str("zoneId")) {
            Some(v) => v.clone(),
            None => {
                return Err(CloudflareError::ErrZoneIdIsEmpty);
            },
        };
        let email = cfg.get(&String::from_str("email"));
        let key = cfg.get(&String::from_str("key"));
        let auth = if email.is_some() && key.is_some() {
            CloudflareAuth::UserAuthKey {
                email: email.unwrap().clone(),
                key: key.unwrap().clone(),
            }
        } else if let Some(token) = cfg.get(&String::from_str("token")) {
            CloudflareAuth::UserAuthToken { token: token.clone() }
        } else {
            return Err(CloudflareError::ErrAuthIsEmpty);
        };
        Ok(CloudflareConfig { zone_id, auth })
    }
}

/// One record as the provider's listing reports it: the provider's
/// identifier for it, the domain name it is published under, and its
/// address content.
#[derive(Clone, Debug)]
pub struct RawDnsRecord {
    pub id: String,
    pub name: String,
    pub content: DnsRecord,
}

/// The first position in `records` published under `name` with content of
/// kind `kind`.
pub open spec fn first_raw_match(records: Seq<RawDnsRecord>, name: Seq<char>, kind: DnsKind) -> Option<int>
    decreases records.len(),
{
    if records.len() == 0 {
        None
    } else if records[0].name@ == name && records[0].content.kind_spec() == kind {
        Some(0int)
    } else {
        match first_raw_match(records.drop_first(), name, kind) {
            Some(i) => Some(i + 1),
            None => None,
        }
    }
}

/// Picks the record an update must replace: the first one published under
/// `name` whose content has kind `kind`.  Fails with the provider's
/// record-not-found error, naming the domain, when there is none.
pub fn find_record_identifier(records: &Vec<RawDnsRecord>, name: &String, kind: DnsKind) -> (r:
    Result<String, CloudflareError>)
    ensures
        first_raw_match(records@, name@, kind) matches Some(i) ==> (r matches Ok(id) && id@
            == records@[i].id@),
        first_raw_match(records@, name@, kind) is None ==> (r matches Err(e)
            && (e matches CloudflareError::ErrRecordNotExist { record_name } && record_name@
            == name@)),
{
    let n = records.len();
    let mut i: usize = 0;
    proof {
        assert(records@.skip(0) =~= records@);
    }
    while i < n
        invariant
            n == records@.len(),
            0 <= i <= n,
            first_raw_match(records@, name@, kind) == (match first_raw_match(
                records@.skip(i as int),
                name@,
                kind,
            ) {
                Some(j) => Some(j + i),
                None => None::<int>,
            }),
        decreases n - i,
    {
        proof {
            assert(records@.skip(i as int)[0] == records@[i as int]);
        }
        let matches_name = records[i].name == *name;
        let matches_kind = records[i].content.kind() == kind;
        if matches_name && matches_kind {
            return Ok(records[i].id.clone());
        }
        proof {
            assert(records@.skip(i as int).drop_first() =~= records@.skip(i as int + 1));
        }
        i = i + 1;
    }
    proof {
        assert(records@.skip(n as int) =~= Seq::<RawDnsRecord>::empty());
    }
    Err(CloudflareError::ErrRecordNotExist { record_name: name.clone() })
}

/// The address content of each listed record, in the provider's order.
pub fn record_contents(records: &Vec<RawDnsRecord>) -> (r: Vec<DnsRecord>)
    ensures
        r@.len() == records@.len(),
        forall|i: int| 0 <= i < records@.len() ==> r@[i] == records@[i].content,
{
    let n = records.len();
    let mut out: Vec<DnsRecord> = Vec::new();
    let mut i: usize = 0;
    while i < n
        invariant
            n == records@.len(),
            0 <= i <= n,
            out@.len() == i,
            forall|j: int| 0 <= j < i ==> out@[j] == records@[j].content,
        decreases n - i,
    {
        out.push(records[i].content);
        i = i + 1;
    }
    out
}

} // verus!
