//! The DNS address record model, the capabilities the engine works against
//! (address discovery and record management), and the factory that builds a
//! validated provider from a type tag and a configuration map.
//!
//! An address record is an IPv4 (`A`) or an IPv6 (`AAAA`) record, and every
//! record has a kind used to match records of the same family without
//! comparing their values.

use crate::cloudflare::CloudflareConfig;
use crate::cloudflare::CloudflareError;
use crate::config::ConfigMap;
use vstd::prelude::*;
use vstd::string::StringExecFns;

verus! {

/// An IPv4 address, as its four octets in textual order.
#[derive(Clone, Copy, Debug, PartialEq, Eq, Structural)]
pub struct Ipv4Address {
    pub o0: u8,
    pub o1: u8,
    pub o2: u8,
    pub o3: u8,
}

/// An IPv6 address, as its eight 16-bit segments in textual order.
#[derive(Clone, Copy, Debug, PartialEq, Eq, Structural)]
pub struct Ipv6Address {
    pub s0: u16,
    pub s1: u16,
    pub s2: u16,
    pub s3: u16,
    pub s4: u16,
    pub s5: u16,
    pub s6: u16,
    pub s7: u16,
}

/// The family of a DNS address record.
#[derive(Clone, Copy, Debug, PartialEq, Eq, Structural)]
pub enum DnsKind {
    A,
    AAAA,
    UnSupported,
}

/// A DNS address record.  Two records are equal iff they have the same
/// kind and the same address value.
#[derive(Clone, Copy, Debug, PartialEq, Eq, Structural)]
pub enum DnsRecord {
    A(Ipv4Address),
    AAAA(Ipv6Address),
    UnSupported,
}

impl DnsRecord {
    /// The kind of this record, as a spec-level value.
    pub open spec fn kind_spec(&self) -> DnsKind {
        match self {
            DnsRecord::A(_) => DnsKind::A,
            DnsRecord::AAAA(_) => DnsKind::AAAA,
            DnsRecord::UnSupported => DnsKind::UnSupported,
        }
    }

    /// The kind of this record: `A` for IPv4, `AAAA` for IPv6.
    pub fn kind(&self) -> (k: DnsKind)
        ensures
            k == self.kind_spec(),
    {
        match self {
            DnsRecord::A(_) => DnsKind::A,
            DnsRecord::AAAA(_) => DnsKind::AAAA,
            DnsRecord::UnSupported => DnsKind::UnSupported,
        }
    }
}

/// Equality of records is structural: two records are equal exactly when
/// they carry the same kind and the same address value, and records of
/// different families are never equal, whatever their values.
pub proof fn lemma_record_equality(x: Ipv4Address, y: Ipv4Address, z: Ipv6Address)
    ensures
        (DnsRecord::A(x) == DnsRecord::A(y)) <==> x == y,
        DnsRecord::A(x) != DnsRecord::AAAA(z),
        DnsRecord::A(x) != DnsRecord::UnSupported,
{
}

/// Why an address-discovery lookup failed: the request itself failed, or the
/// text that came back did not parse as an address of the queried family.
#[derive(Clone, Debug)]
pub enum DiscoveryError {
    Network(String),
    InvalidAddress(String),
}

/// Why a provider operation failed.  `RecordNotFound` is the distinguished
/// kind returned by an update with no existing record of the target kind;
/// everything else (network, auth, remote API) is `Remote`.
#[derive(Clone, Debug)]
pub enum ProviderError {
    RecordNotFound,
    Remote(String),
}

/// Why the record-manager factory refused its inputs.
#[derive(Clone, Debug)]
pub enum RecoderManagerBuilderError {
    ErrTypeIsEmpty,
    ErrUnknownType(String),
}

/// A factory failure: either the builder refused the provider type, or the
/// chosen provider refused its configuration map.
#[derive(Clone, Debug)]
pub enum BuildError {
    Builder(RecoderManagerBuilderError),
    Provider(CloudflareError),
}

/// The capability to discover the caller's current public address.  A
/// concrete source performs one outbound lookup per call and retains no
/// state, so nothing can be promised of the values it returns.
pub trait WhoAmi {
    /// The caller's current public IPv4 address.
    fn fetch_ipv4_addr(&self) -> Result<Ipv4Address, DiscoveryError>;

    /// The caller's current public IPv6 address.
    fn fetch_ipv6_addr(&self) -> Result<Ipv6Address, DiscoveryError>;
}

/// The first position in `records` holding a record of kind `kind`.
pub open spec fn first_index_of_kind(records: Seq<DnsRecord>, kind: DnsKind) -> Option<int>
    decreases records.len(),
{
    if records.len() == 0 {
        None
    } else if records[0].kind_spec() == kind {
        Some(0int)
    } else {
        match first_index_of_kind(records.drop_first(), kind) {
            Some(i) => Some(i + 1),
            None => None,
        }
    }
}

/// The capability set of a DNS provider, scoped to one zone: list the
/// published address records of a domain name, create one, update one.
/// `records` is the provider's published state as this trait models it;
/// a create or an update may touch only the domain name it was given.
pub trait RecoderManager: Sized {
    /// The address records published for `name`, in the provider's order.
    /// An implementation whose state the model cannot see keeps the
    /// default: nothing is known of what it publishes.
    open spec fn records(&self, name: Seq<char>) -> Seq<DnsRecord> {
        Seq::<DnsRecord>::empty()
    }

    /// How many write calls (create or update) this manager has served,
    /// whatever each returned.  Every write call raises it by exactly one;
    /// a listing never changes it.  An implementation whose state the
    /// model cannot see keeps the default.
    open spec fn write_calls(&self) -> nat {
        0
    }

    /// Lists the records published for `name`; read-only.
    fn get_records(&self, name: &String) -> (r: Result<Vec<DnsRecord>, ProviderError>)
        ensures
            r matches Ok(v) ==> v@ == self.records(name@),
    ;

    /// Publishes a new record for `name`.  The caller guarantees that no
    /// record of the same kind exists yet; on success the record is
    /// appended to the published state.
    fn create_records(&mut self, name: &String, rcd: &DnsRecord) -> (r: Result<
        (),
        ProviderError,
    >)
        requires
            !(rcd is UnSupported),
            forall|i: int|
                0 <= i < old(self).records(name@).len() ==> (#[trigger] old(self).records(
                    name@,
                )[i]).kind_spec() != rcd.kind_spec(),
        ensures
            r is Ok ==> final(self).records(name@) == old(self).records(name@).push(*rcd),
            forall|d: Seq<char>| d != name@ ==> final(self).records(d) == old(self).records(d),
            final(self).write_calls() == old(self).write_calls() + 1,
    ;

    /// Replaces the value of the first record of `rcd`'s kind published for
    /// `name`, preserving the provider's identifier for it.  Fails with
    /// `RecordNotFound` when no record of that kind exists.
    fn update_records(&mut self, name: &String, rcd: &DnsRecord) -> (r: Result<
        (),
        ProviderError,
    >)
        requires
            !(rcd is UnSupported),
        ensures
            r is Ok ==> (first_index_of_kind(old(self).records(name@), rcd.kind_spec())
                matches Some(i) && final(self).records(name@) == old(self).records(
                name@,
            ).update(i, *rcd)),
            first_index_of_kind(old(self).records(name@), rcd.kind_spec()) is None ==> (
            r matches Err(e) && e is RecordNotFound),
            forall|d: Seq<char>| d != name@ ==> final(self).records(d) == old(self).records(d),
            final(self).write_calls() == old(self).write_calls() + 1,
    ;
}

/// A provider whose type tag and configuration the factory accepted,
/// carrying everything a concrete manager needs to be constructed.
pub enum ValidatedProvider {
    Cloudflare(CloudflareConfig),
}

/// Builds a record manager from a provider-type tag and a free-form
/// configuration map, failing clearly on an empty or unknown type and
/// delegating key validation to the chosen provider.
pub struct RecoderManagerBuilder {
    typ: String,
    cfg: ConfigMap,
}

impl RecoderManagerBuilder {
    /// The provider-type tag set so far.
    pub closed spec fn tag_name(&self) -> Seq<char> {
        self.typ@
    }

    /// The configuration map gathered so far.
    pub closed spec fn cfg_spec(&self) -> ConfigMap {
        self.cfg
    }

    /// The gathered configuration map keeps its unique-key invariant.
    pub closed spec fn wf(&self) -> bool {
        self.cfg.wf()
    }

    /// An empty builder: no type tag, no configuration.
    pub fn new() -> (r: RecoderManagerBuilder)
        ensures
            r.wf(),
            r.tag_name() == Seq::<char>::empty(),
            forall|k: Seq<char>| r.cfg_spec().get_spec(k) is None,
    {
        RecoderManagerBuilder { typ: String::new(), cfg: ConfigMap::new() }
    }

    /// Sets the provider-type tag.
    pub fn with_type(self, typ: &str) -> (r: RecoderManagerBuilder)
        ensures
            r.tag_name() == typ@,
            r.cfg_spec() == self.cfg_spec(),
            r.wf() == self.wf(),
    {
        RecoderManagerBuilder { typ: typ.to_owned(), cfg: self.cfg }
    }

    /// Adds one configuration entry, replacing an earlier value of the key.
    pub fn with_cfg(self, key: &str, value: &str) -> (r: RecoderManagerBuilder)
        requires
            self.wf(),
        ensures
            r.wf(),
            r.tag_name() == self.tag_name(),
            r.cfg_spec().get_spec(key@) == Some::<Seq<char>>(value@),
            forall|k: Seq<char>|
                k != key@ ==> r.cfg_spec().get_spec(k) == self.cfg_spec().get_spec(k),
    {
        let mut cfg = self.cfg;
        cfg.insert(&key.to_owned(), &value.to_owned());
        RecoderManagerBuilder { typ: self.typ, cfg }
    }

    /// Adds every entry of `cfgs`; on a key both maps bind, `cfgs` wins.
    pub fn with_cfgs(self, cfgs: &ConfigMap) -> (r: RecoderManagerBuilder)
        requires
            self.wf(),
            cfgs.wf(),
        ensures
            r.wf(),
            r.tag_name() == self.tag_name(),
            forall|k: Seq<char>|
                r.cfg_spec().get_spec(k) == (if cfgs.get_spec(k) is Some {
                    cfgs.get_spec(k)
                } else {
                    self.cfg_spec().get_spec(k)
                }),
    {
        let mut cfg = self.cfg;
        cfg.extend(cfgs);
        RecoderManagerBuilder { typ: self.typ, cfg }
    }

    /// Validates the type tag and the configuration map: an empty tag and an
    /// unregistered tag are refused by the builder; a registered tag hands
    /// the map to that provider's own validation.
    pub fn build(self) -> (r: Result<ValidatedProvider, BuildError>)
        requires
            self.wf(),
        ensures
            self.tag_name().len() == 0 ==> r matches Err(BuildError::Builder(
                RecoderManagerBuilderError::ErrTypeIsEmpty,
            )),
            self.tag_name() == "cloudflare"@ ==> (match r {
                Ok(p) => p matches ValidatedProvider::Cloudflare(c)
                    && crate::cloudflare::config_accepted(self.cfg_spec(), c),
                Err(e) => e matches BuildError::Provider(ce) && crate::cloudflare::config_refused(
                    self.cfg_spec(),
                    ce,
                ),
            }),
            self.tag_name().len() > 0 && self.tag_name() != "cloudflare"@ ==> (r matches Err(
                BuildError::Builder(RecoderManagerBuilderError::ErrUnknownType(t)),
            ) && t@ == self.tag_name()),
    {
        proof {
            reveal_strlit("cloudflare");
        }
        if self.typ.as_str().is_empty() {
            Err(BuildError::Builder(RecoderManagerBuilderError::ErrTypeIsEmpty))
        } else if self.typ == String::from_str("cloudflare") {
            match CloudflareConfig::new(&self.cfg) {
                Ok(c) => Ok(ValidatedProvider::Cloudflare(c)),
                Err(e) => Err(BuildError::Provider(e)),
            }
        } else {
            Err(BuildError::Builder(RecoderManagerBuilderError::ErrUnknownType(self.typ)))
        }
    }
}

} // verus!
