//! Keeps DNS address records in sync with the caller's current public IP
//! address.  The crate holds the record model, the provider configuration
//! and factory, and the reconciliation engine that decides, for each domain,
//! whether a record must be created, updated, or left alone.
//!
//! The engine is generic over the [`dns::RecoderManager`] capability; a
//! concrete provider performs the remote calls, and [`memory::MemoryRecoderManager`]
//! gives an in-process one the engine's guarantees can be exercised against.

pub mod cloudflare;
pub mod config;
pub mod discovery;
pub mod dns;
pub mod memory;

use crate::dns::{
    first_index_of_kind, DnsRecord, Ipv4Address, Ipv6Address, ProviderError, RecoderManager,
};
use vstd::prelude::*;

verus! {

/// What the engine decides for one domain: publish a first record, replace
/// a differing one, or leave an equal one alone.
#[derive(Clone, Copy, Debug, PartialEq, Eq, Structural)]
pub enum Action {
    Create,
    Update,
    Skip,
}

/// What happened to one domain after the decided action was applied.
#[derive(Clone, Copy, Debug, PartialEq, Eq, Structural)]
pub enum Outcome {
    Skipped,
    Created,
    Updated,
}

/// The decision rule of the engine: create when nothing is published,
/// skip when the first published record equals the discovered one, and
/// update otherwise.  Records after the first are left untouched.
pub open spec fn decide_spec(current: Seq<DnsRecord>, discovered: DnsRecord) -> Action {
    if current.len() == 0 {
        Action::Create
    } else if current[0] == discovered {
        Action::Skip
    } else {
        Action::Update
    }
}

/// Decides what to do for a domain whose published records are `current`
/// when the discovered record is `discovered`.
pub fn decide(current: &Vec<DnsRecord>, discovered: &DnsRecord) -> (a: Action)
    ensures
        a == decide_spec(current@, *discovered),
{
    if current.len() == 0 {
        Action::Create
    } else if current[0] == *discovered {
        Action::Skip
    } else {
        Action::Update
    }
}

/// The outcome reported when the given action succeeds.
pub open spec fn outcome_of(a: Action) -> Outcome {
    match a {
        Action::Create => Outcome::Created,
        Action::Update => Outcome::Updated,
        Action::Skip => Outcome::Skipped,
    }
}

/// A domain is settled on `discovered` when its first published record is
/// exactly that record: the engine then has nothing to write.
pub open spec fn settled(records: Seq<DnsRecord>, discovered: DnsRecord) -> bool {
    records.len() > 0 && records[0] == discovered
}

/// The first published record, if any, has `discovered`'s kind.  This is
/// the domain shape the engine fully settles; a domain whose first record
/// belongs to the other family keeps it (first-record-only comparison, a
/// documented limitation of the decision rule).
pub open spec fn kind_ready(records: Seq<DnsRecord>, discovered: DnsRecord) -> bool {
    records.len() == 0 || records[0].kind_spec() == discovered.kind_spec()
}

/// The published records of a domain after one successful reconciliation
/// step: created, updated in place at the first record of the discovered
/// kind, or unchanged.
pub open spec fn reconciled_records(records: Seq<DnsRecord>, discovered: DnsRecord) -> Seq<
    DnsRecord,
> {
    match decide_spec(records, discovered) {
        Action::Create => records.push(discovered),
        Action::Skip => records,
        Action::Update => match first_index_of_kind(records, discovered.kind_spec()) {
            Some(i) => records.update(i, discovered),
            None => records,
        },
    }
}

/// How many of the reported outcomes performed a write: a skip is a pure
/// read, a create or an update is exactly one write call.
pub open spec fn writes_of(outs: Seq<Outcome>) -> nat
    decreases outs.len(),
{
    if outs.len() == 0 {
        0
    } else {
        (if outs.last() is Skipped {
            0nat
        } else {
            1nat
        }) + writes_of(outs.drop_last())
    }
}

/// Idempotence of the decision rule: one successful reconciliation of a
/// kind-ready domain settles it, a settled domain is decided `Skip`, and a
/// second reconciliation changes nothing — repeated runs with an unchanged
/// address perform zero writes.
pub proof fn lemma_reconcile_idempotent(records: Seq<DnsRecord>, discovered: DnsRecord)
    requires
        kind_ready(records, discovered),
    ensures
        settled(reconciled_records(records, discovered), discovered),
        decide_spec(reconciled_records(records, discovered), discovered) == Action::Skip,
        reconciled_records(reconciled_records(records, discovered), discovered)
            == reconciled_records(records, discovered),
{
    if records.len() == 0 {
        assert(records.push(discovered)[0] == discovered);
    } else if records[0] == discovered {
    } else {
        assert(first_index_of_kind(records, discovered.kind_spec()) == Some(0int));
        assert(records.update(0, discovered)[0] == discovered);
    }
}

/// Reconciles one domain against one discovered record: lists what is
/// published, decides, and applies at most one write — none when the
/// decision is a skip.  On success the domain's published records are
/// exactly `reconciled_records` of what they were, and no other domain is
/// ever touched.  A failure that performed no write call left the whole
/// provider state as it was.
pub fn reconcile_domain<M: RecoderManager>(
    rm: &mut M,
    domain: &String,
    discovered: &DnsRecord,
) -> (r: Result<Outcome, ProviderError>)
    requires
        !(*discovered is UnSupported),
    ensures
        forall|d: Seq<char>| d != domain@ ==> final(rm).records(d) == old(rm).records(d),
        r matches Ok(o) ==> (o == outcome_of(
            decide_spec(old(rm).records(domain@), *discovered),
        ) && final(rm).records(domain@) == reconciled_records(
            old(rm).records(domain@),
            *discovered,
        )),
        r matches Ok(o) ==> final(rm).write_calls() == old(rm).write_calls() + (
        if o is Skipped {
            0nat
        } else {
            1nat
        }),
        old(rm).write_calls() <= final(rm).write_calls() <= old(rm).write_calls() + 1,
        r is Err && final(rm).write_calls() == old(rm).write_calls() ==> forall|d: Seq<char>|
            final(rm).records(d) == old(rm).records(d),
{
    let current = match rm.get_records(domain) {
        Ok(v) => v,
        Err(e) => {
            return Err(e);
        },
    };
    match decide(&current, discovered) {
        Action::Skip => Ok(Outcome::Skipped),
        Action::Create => match rm.create_records(domain, discovered) {
            Ok(_) => Ok(Outcome::Created),
            Err(e) => Err(e),
        },
        Action::Update => match rm.update_records(domain, discovered) {
            Ok(_) => Ok(Outcome::Updated),
            Err(e) => Err(e),
        },
    }
}

/// Reconciles every domain of one service, strictly in sequence, against
/// one discovered record, stopping at the first failure.  On success every
/// listed domain ends settled on the discovered record, and the provider
/// served exactly one write call per created or updated domain and none
/// per skipped one; domains not listed are never touched; and when every
/// listed domain was already settled, a successful run reports only skips,
/// changes nothing at the provider and performs zero write calls — the
/// idempotence guarantee.
pub fn reconcile_domains<M: RecoderManager>(
    rm: &mut M,
    domains: &Vec<String>,
    discovered: &DnsRecord,
) -> (r: Result<Vec<Outcome>, ProviderError>)
    requires
        !(*discovered is UnSupported),
    ensures
        forall|d: Seq<char>|
            (forall|i: int| 0 <= i < domains@.len() ==> domains@[i]@ != d) ==> final(rm).records(d)
                == old(rm).records(d),
        r matches Ok(outs) ==> outs@.len() == domains@.len(),
        domains@.len() == 0 ==> (r matches Ok(outs) && outs@.len() == 0),
        r matches Ok(outs) ==> final(rm).write_calls() == old(rm).write_calls() + writes_of(
            outs@,
        ),
        r is Err ==> final(rm).write_calls() <= old(rm).write_calls() + domains@.len(),
        final(rm).write_calls() == old(rm).write_calls() ==> forall|d: Seq<char>|
            final(rm).records(d) == old(rm).records(d),
        (forall|i: int|
            0 <= i < domains@.len() ==> kind_ready(
                #[trigger] old(rm).records(domains@[i]@),
                *discovered,
            )) && r is Ok ==> forall|i: int|
            0 <= i < domains@.len() ==> settled(
                #[trigger] final(rm).records(domains@[i]@),
                *discovered,
            ),
        (forall|i: int|
            0 <= i < domains@.len() ==> settled(
                #[trigger] old(rm).records(domains@[i]@),
                *discovered,
            )) && r is Ok ==> ((r matches Ok(outs) && forall|i: int|
            0 <= i < outs@.len() ==> outs@[i] == Outcome::Skipped) && (forall|d: Seq<char>|
            final(rm).records(d) == old(rm).records(d)) && final(rm).write_calls() == old(
            rm,
        ).write_calls()),
{
    let n = domains.len();
    let mut outs: Vec<Outcome> = Vec::new();
    let mut k: usize = 0;
    while k < n
        invariant
            n == domains@.len(),
            0 <= k <= n,
            outs@.len() == k,
            !(*discovered is UnSupported),
            rm.write_calls() == old(rm).write_calls() + writes_of(outs@),
            writes_of(outs@) <= outs@.len(),
            writes_of(outs@) == 0 ==> forall|d: Seq<char>| rm.records(d) == old(rm).records(d),
            forall|d: Seq<char>|
                (forall|i: int| 0 <= i < domains@.len() ==> domains@[i]@ != d) ==> rm.records(d)
                    == old(rm).records(d),
            (forall|i: int|
                0 <= i < domains@.len() ==> kind_ready(
                    #[trigger] old(rm).records(domains@[i]@),
                    *discovered,
                )) ==> ((forall|d: Seq<char>|
                rm.records(d) == old(rm).records(d) || settled(rm.records(d), *discovered))
                && forall|i: int|
                0 <= i < k ==> settled(#[trigger] rm.records(domains@[i]@), *discovered)),
            (forall|i: int|
                0 <= i < domains@.len() ==> settled(
                    #[trigger] old(rm).records(domains@[i]@),
                    *discovered,
                )) ==> ((forall|j: int| 0 <= j < k ==> outs@[j] == Outcome::Skipped) && (forall|
                d: Seq<char>,
            |
                rm.records(d) == old(rm).records(d)) && rm.write_calls() == old(
                    rm,
                ).write_calls()),
        decreases n - k,
    {
        let ghost pre = *rm;
        proof {
            if forall|i: int|
                0 <= i < domains@.len() ==> kind_ready(
                    #[trigger] old(rm).records(domains@[i]@),
                    *discovered,
                ) {
                assert(pre.records(domains@[k as int]@) == old(rm).records(domains@[k as int]@)
                    || settled(pre.records(domains@[k as int]@), *discovered));
                assert(kind_ready(pre.records(domains@[k as int]@), *discovered));
                lemma_reconcile_idempotent(pre.records(domains@[k as int]@), *discovered);
            }
        }
        let ghost pre_outs = outs@;
        let o = match reconcile_domain(rm, &domains[k], discovered) {
            Ok(o) => o,
            Err(e) => {
                return Err(e);
            },
        };
        outs.push(o);
        proof {
            assert(outs@.drop_last() =~= pre_outs);
            assert(outs@.last() == o);
        }
        k = k + 1;
    }
    Ok(outs)
}

/// The records one run reconciles, from what each family's discovery
/// produced: the IPv4 record when IPv4 discovery succeeded, then the IPv6
/// record when IPv6 is enabled and its discovery succeeded.  A family whose
/// discovery failed is skipped for the run without disturbing the other.
pub open spec fn family_plan_spec(
    v4: Option<Ipv4Address>,
    v6: Option<Ipv6Address>,
    ipv6_enabled: bool,
) -> Seq<DnsRecord> {
    (match v4 {
        Some(a) => seq![DnsRecord::A(a)],
        None => Seq::<DnsRecord>::empty(),
    }) + (if ipv6_enabled {
        match v6 {
            Some(a) => seq![DnsRecord::AAAA(a)],
            None => Seq::<DnsRecord>::empty(),
        }
    } else {
        Seq::<DnsRecord>::empty()
    })
}

/// Builds the run's reconciliation plan from the two families' discovery
/// results and the IPv6 enable flag.
pub fn family_plan(v4: Option<Ipv4Address>, v6: Option<Ipv6Address>, ipv6_enabled: bool) -> (r:
    Vec<DnsRecord>)
    ensures
        r@ == family_plan_spec(v4, v6, ipv6_enabled),
{
    let mut out: Vec<DnsRecord> = Vec::new();
    if let Some(a) = v4 {
        out.push(DnsRecord::A(a));
    }
    if ipv6_enabled {
        if let Some(a) = v6 {
            out.push(DnsRecord::AAAA(a));
        }
    }
    proof {
        assert(out@ =~= family_plan_spec(v4, v6, ipv6_enabled));
    }
    out
}

/// Family isolation: when IPv6 is enabled and IPv6 discovery succeeded, the
/// plan carries that AAAA record whatever IPv4 discovery produced — an IPv4
/// failure never blocks the IPv6 reconciliation, and the AAAA record it
/// runs with is the same either way.
pub proof fn lemma_family_isolation(v4: Option<Ipv4Address>, addr: Ipv6Address)
    ensures
        family_plan_spec(v4, Some(addr), true).last() == DnsRecord::AAAA(addr),
        family_plan_spec(v4, Some(addr), true).contains(DnsRecord::AAAA(addr)),
{
    let plan = family_plan_spec(v4, Some(addr), true);
    assert(plan.last() == DnsRecord::AAAA(addr));
    assert(plan[plan.len() - 1] == DnsRecord::AAAA(addr));
}

} // verus!
