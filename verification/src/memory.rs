//! An in-process record manager: the provider state is a list of (domain
//! name, published records) pairs held in memory.  It gives the
//! [`crate::dns::RecoderManager`] capability an implementation whose every
//! promise is proved, and it counts the writes made to it, so a whole
//! reconciliation run can be exercised end to end without a remote zone.

use crate::dns::{first_index_of_kind, DnsRecord, ProviderError, RecoderManager};
use vstd::prelude::*;

verus! {

/// The records that `entries` publishes under `name`: those of the first
/// entry whose name matches, or `None` when no entry matches.
pub open spec fn store_get(entries: Seq<(String, Vec<DnsRecord>)>, name: Seq<char>) -> Option<
    Seq<DnsRecord>,
>
    decreases entries.len(),
{
    if entries.len() == 0 {
        None
    } else if entries[0].0@ == name {
        Some(entries[0].1@)
    } else {
        store_get(entries.drop_first(), name)
    }
}

/// Appending an entry changes only what an unmatched name resolves to.
proof fn lemma_store_get_push(
    entries: Seq<(String, Vec<DnsRecord>)>,
    e: (String, Vec<DnsRecord>),
    name: Seq<char>,
)
    ensures
        store_get(entries, name) is Some ==> store_get(entries.push(e), name) == store_get(
            entries,
            name,
        ),
        store_get(entries, name) is None && e.0@ == name ==> store_get(entries.push(e), name)
            == Some(e.1@),
        store_get(entries, name) is None && e.0@ != name ==> store_get(entries.push(e), name)
            is None,
    decreases entries.len(),
{
    if entries.len() == 0 {
        assert(entries.push(e)[0] == e);
        assert(entries.push(e).drop_first() =~= Seq::<(String, Vec<DnsRecord>)>::empty());
        assert(store_get(Seq::<(String, Vec<DnsRecord>)>::empty(), name) is None);
    } else {
        assert(entries.push(e)[0] == entries[0]);
        assert(entries.push(e).drop_first() =~= entries.drop_first().push(e));
        lemma_store_get_push(entries.drop_first(), e, name);
    }
}

/// A store whose entries never carry `name` publishes nothing under it.
proof fn lemma_store_get_none(entries: Seq<(String, Vec<DnsRecord>)>, name: Seq<char>)
    requires
        forall|j: int| 0 <= j < entries.len() ==> entries[j].0@ != name,
    ensures
        store_get(entries, name) is None,
    decreases entries.len(),
{
    if entries.len() > 0 {
        lemma_store_get_none(entries.drop_first(), name);
    }
}

/// The first entry carrying `name` is the one `store_get` resolves to.
proof fn lemma_store_get_first(entries: Seq<(String, Vec<DnsRecord>)>, i: int)
    requires
        0 <= i < entries.len(),
        forall|j: int| 0 <= j < i ==> entries[j].0@ != entries[i].0@,
    ensures
        store_get(entries, entries[i].0@) == Some(entries[i].1@),
    decreases i,
{
    if i > 0 {
        lemma_store_get_first(entries.drop_first(), i - 1);
    }
}

/// Replacing the first entry carrying a name, with an entry of the same
/// name, changes only what that name resolves to.
proof fn lemma_store_get_update(
    entries: Seq<(String, Vec<DnsRecord>)>,
    i: int,
    e: (String, Vec<DnsRecord>),
)
    requires
        0 <= i < entries.len(),
        e.0@ == entries[i].0@,
        forall|j: int| 0 <= j < i ==> entries[j].0@ != entries[i].0@,
    ensures
        store_get(entries.update(i, e), entries[i].0@) == Some(e.1@),
        forall|k: Seq<char>|
            k != entries[i].0@ ==> store_get(entries.update(i, e), k) == store_get(entries, k),
    decreases i,
{
    if i == 0 {
        assert(entries.update(0, e)[0] == e);
        assert(entries.update(0, e).drop_first() =~= entries.drop_first());
        assert(store_get(entries.update(0, e), entries[0].0@) == Some(e.1@));
        assert forall|k: Seq<char>| k != entries[0].0@ implies store_get(entries.update(0, e), k)
            == store_get(entries, k) by {
            assert(store_get(entries.update(0, e), k) == store_get(
                entries.update(0, e).drop_first(),
                k,
            ));
            assert(store_get(entries, k) == store_get(entries.drop_first(), k));
        }
    } else {
        lemma_store_get_update(entries.drop_first(), i - 1, e);
        assert(entries.drop_first()[i - 1] == entries[i]);
        assert(entries.update(i, e)[0] == entries[0]);
        assert(entries.update(i, e).drop_first() =~= entries.drop_first().update(i - 1, e));
        assert(entries.update(i, e).drop_first() == entries.drop_first().update(i - 1, e));
        assert(store_get(entries.update(i, e), entries[i].0@) == store_get(
            entries.drop_first().update(i - 1, e),
            entries[i].0@,
        ));
        assert forall|k: Seq<char>| k != entries[i].0@ implies store_get(entries.update(i, e), k)
            == store_get(entries, k) by {
            if entries[0].0@ == k {
                assert(store_get(entries.update(i, e), k) == Some(entries[0].1@));
                assert(store_get(entries, k) == Some(entries[0].1@));
            } else {
                assert(store_get(entries.update(i, e), k) == store_get(
                    entries.drop_first().update(i - 1, e),
                    k,
                ));
                assert(store_get(entries, k) == store_get(entries.drop_first(), k));
            }
        }
    }
}

/// An in-memory DNS provider: each entry pairs a domain name with the
/// records published under it, in publication order.  `create_count` and
/// `update_count` report how many writes were asked of it (saturating).
pub struct MemoryRecoderManager {
    store: Vec<(String, Vec<DnsRecord>)>,
    creates: u64,
    updates: u64,
    writes: Ghost<nat>,
}

impl MemoryRecoderManager {
    /// How many create calls this manager has served.
    pub closed spec fn creates_spec(&self) -> u64 {
        self.creates
    }

    /// How many update calls this manager has served.
    pub closed spec fn updates_spec(&self) -> u64 {
        self.updates
    }

    /// A manager with no published records and no writes served.
    pub fn new() -> (r: MemoryRecoderManager)
        ensures
            forall|d: Seq<char>| r.records(d) == Seq::<DnsRecord>::empty(),
            r.creates_spec() == 0,
            r.updates_spec() == 0,
            r.write_calls() == 0,
    {
        MemoryRecoderManager { store: Vec::new(), creates: 0, updates: 0, writes: Ghost(0) }
    }

    /// How many create calls this manager has served.
    pub fn create_count(&self) -> (r: u64)
        ensures
            r == self.creates_spec(),
    {
        self.creates
    }

    /// How many update calls this manager has served.
    pub fn update_count(&self) -> (r: u64)
        ensures
            r == self.updates_spec(),
    {
        self.updates
    }

    /// The position of the first entry published under `name`, if any.
    fn find_name(&self, name: &String) -> (r: Option<usize>)
        ensures
            r matches Some(i) ==> 0 <= i < self.store@.len() && self.store@[i as int].0@ == name@
                && (forall|j: int| 0 <= j < i ==> self.store@[j].0@ != name@),
            r is None ==> forall|j: int| 0 <= j < self.store@.len() ==> self.store@[j].0@ != name@,
    {
        let n = self.store.len();
        let mut i: usize = 0;
        while i < n
            invariant
                n == self.store@.len(),
                0 <= i <= n,
                forall|j: int| 0 <= j < i ==> self.store@[j].0@ != name@,
            decreases n - i,
        {
            if self.store[i].0 == *name {
                return Some(i);
            }
            i = i + 1;
        }
        None
    }

    /// Sets the records published under `name`, establishing a starting
    /// provider state; every other name keeps its records.
    pub fn seed_records(&mut self, name: &String, records: Vec<DnsRecord>)
        ensures
            final(self).records(name@) == records@,
            forall|d: Seq<char>| d != name@ ==> final(self).records(d) == old(self).records(d),
            final(self).creates_spec() == old(self).creates_spec(),
            final(self).updates_spec() == old(self).updates_spec(),
            final(self).write_calls() == old(self).write_calls(),
    {
        match self.find_name(name) {
            Some(i) => {
                let mut e = self.store.remove(i);
                e.1 = records;
                self.store.insert(i, e);
                proof {
                    assert(self.store@ =~= old(self).store@.update(i as int, self.store@[i as int]));
                    lemma_store_get_update(old(self).store@, i as int, self.store@[i as int]);
                }
            },
            None => {
                proof {
                    lemma_store_get_none(self.store@, name@);
                }
                let ghost pre = self.store@;
                self.store.push((name.clone(), records));
                proof {
                    lemma_store_get_push(pre, self.store@.last(), name@);
                    assert forall|d: Seq<char>| d != name@ implies store_get(self.store@, d)
                        == store_get(pre, d) by {
                        lemma_store_get_push(pre, self.store@.last(), d);
                    }
                }
            },
        }
    }
}

impl RecoderManager for MemoryRecoderManager {
    /// The records of the first entry published under `name`, or nothing.
    closed spec fn records(&self, name: Seq<char>) -> Seq<DnsRecord> {
        match store_get(self.store@, name) {
            Some(rs) => rs,
            None => Seq::<DnsRecord>::empty(),
        }
    }

    /// Every create or update call raises the tally by one.
    closed spec fn write_calls(&self) -> nat {
        self.writes@
    }

    fn get_records(&self, name: &String) -> (r: Result<Vec<DnsRecord>, ProviderError>) {
        let mut out: Vec<DnsRecord> = Vec::new();
        match self.find_name(name) {
            Some(i) => {
                proof {
                    lemma_store_get_first(self.store@, i as int);
                }
                let m = self.store[i].1.len();
                let mut j: usize = 0;
                while j < m
                    invariant
                        0 <= i < self.store@.len(),
                        m == self.store@[i as int].1@.len(),
                        0 <= j <= m,
                        out@.len() == j,
                        forall|t: int| 0 <= t < j ==> out@[t] == self.store@[i as int].1@[t],
                    decreases m - j,
                {
                    out.push(self.store[i].1[j]);
                    j = j + 1;
                }
                proof {
                    assert(out@ =~= self.store@[i as int].1@);
                }
            },
            None => {
                proof {
                    lemma_store_get_none(self.store@, name@);
                    assert(out@ =~= Seq::<DnsRecord>::empty());
                }
            },
        }
        Ok(out)
    }

    fn create_records(&mut self, name: &String, rcd: &DnsRecord) -> (r: Result<
        (),
        ProviderError,
    >) {
        self.creates = self.creates.saturating_add(1);
        proof {
            self.writes@ = self.writes@ + 1;
        }
        match self.find_name(name) {
            Some(i) => {
                proof {
                    lemma_store_get_first(self.store@, i as int);
                }
                let mut e = self.store.remove(i);
                e.1.push(*rcd);
                self.store.insert(i, e);
                proof {
                    assert(self.store@ =~= old(self).store@.update(i as int, self.store@[i as int]));
                    lemma_store_get_update(old(self).store@, i as int, self.store@[i as int]);
                }
            },
            None => {
                proof {
                    lemma_store_get_none(self.store@, name@);
                }
                let mut v: Vec<DnsRecord> = Vec::new();
                v.push(*rcd);
                let ghost pre = self.store@;
                self.store.push((name.clone(), v));
                proof {
                    lemma_store_get_push(pre, self.store@.last(), name@);
                    assert forall|d: Seq<char>| d != name@ implies store_get(self.store@, d)
                        == store_get(pre, d) by {
                        lemma_store_get_push(pre, self.store@.last(), d);
                    }
                    assert(self.records(name@) =~= old(self).records(name@).push(*rcd));
                }
            },
        }
        Ok(())
    }

    fn update_records(&mut self, name: &String, rcd: &DnsRecord) -> (r: Result<
        (),
        ProviderError,
    >) {
        self.updates = self.updates.saturating_add(1);
        proof {
            self.writes@ = self.writes@ + 1;
        }
        match self.find_name(name) {
            Some(i) => {
                proof {
                    lemma_store_get_first(self.store@, i as int);
                }
                let target = rcd.kind();
                let m = self.store[i].1.len();
                let mut j: usize = 0;
                proof {
                    assert(self.store@[i as int].1@.skip(0) =~= self.store@[i as int].1@);
                }
                while j < m
                    invariant
                        self.store@ == old(self).store@,
                        self.creates == old(self).creates,
                        self.writes@ == old(self).writes@ + 1,
                        0 <= i < self.store@.len(),
                        self.store@[i as int].0@ == name@,
                        forall|t: int| 0 <= t < i ==> self.store@[t].0@ != name@,
                        m == self.store@[i as int].1@.len(),
                        0 <= j <= m,
                        target == rcd.kind_spec(),
                        first_index_of_kind(self.store@[i as int].1@, rcd.kind_spec()) == (
                        match first_index_of_kind(
                            self.store@[i as int].1@.skip(j as int),
                            rcd.kind_spec(),
                        ) {
                            Some(t) => Some(t + j),
                            None => None::<int>,
                        }),
                    decreases m - j,
                {
                    proof {
                        assert(self.store@[i as int].1@.skip(j as int)[0] == self.store@[
                            i as int].1@[j as int]);
                    }
                    if self.store[i].1[j].kind() == target {
                        proof {
                            lemma_store_get_first(self.store@, i as int);
                            assert(first_index_of_kind(self.store@[i as int].1@, rcd.kind_spec())
                                == Some(j as int));
                        }
                        let ghost recs0 = self.store@[i as int].1@;
                        let mut e = self.store.remove(i);
                        let _ = e.1.remove(j);
                        e.1.insert(j, *rcd);
                        proof {
                            assert(e.1@ =~= recs0.update(j as int, *rcd));
                        }
                        let ghost enew = e;
                        self.store.insert(i, e);
                        proof {
                            assert(self.store@ =~= old(self).store@.update(i as int, enew));
                            lemma_store_get_update(old(self).store@, i as int, enew);
                        }
                        return Ok(());
                    }
                    proof {
                        assert(self.store@[i as int].1@.skip(j as int).drop_first()
                            =~= self.store@[i as int].1@.skip(j as int + 1));
                    }
                    j = j + 1;
                }
                proof {
                    lemma_store_get_first(self.store@, i as int);
                    assert(self.store@[i as int].1@.skip(m as int) =~= Seq::<DnsRecord>::empty());
                }
                Err(ProviderError::RecordNotFound)
            },
            None => {
                proof {
                    lemma_store_get_none(self.store@, name@);
                }
                Err(ProviderError::RecordNotFound)
            },
        }
    }
}

} // verus!
