//! Run configuration: a list of services, each naming a provider type, a
//! free-form string-to-string configuration map (credentials, zone
//! identifiers), and the domain names managed under that provider; plus a
//! flag enabling IPv6 reconciliation.

use vstd::prelude::*;

verus! {

/// The value that `entries` associates with `key`: the value of the first
/// entry whose key matches, or `None` when no entry matches.
pub open spec fn entries_get(entries: Seq<(String, String)>, key: Seq<char>) -> Option<Seq<char>>
    decreases entries.len(),
{
    if entries.len() == 0 {
        None
    } else if entries[0].0@ == key {
        Some(entries[0].1@)
    } else {
        entries_get(entries.drop_first(), key)
    }
}

/// A read-only string-to-string configuration map with unique keys.
/// The meaning of the keys is defined by the provider that consumes the map.
pub struct ConfigMap {
    entries: Vec<(String, String)>,
}

impl ConfigMap {
    /// Keys are unique, so the first matching entry is the only one.
    pub closed spec fn wf(&self) -> bool {
        forall|i: int, j: int|
            0 <= i < j < self.entries@.len() ==> self.entries@[i].0@ != self.entries@[j].0@
    }

    /// The value bound to `key`, or `None` when the map has no such key.
    pub closed spec fn get_spec(&self, key: Seq<char>) -> Option<Seq<char>> {
        entries_get(self.entries@, key)
    }

    /// An empty configuration map.
    pub fn new() -> (r: ConfigMap)
        ensures
            r.wf(),
            forall|k: Seq<char>| r.get_spec(k) is None,
    {
        ConfigMap { entries: Vec::new() }
    }

    /// The value bound to `key`, if any.
    pub fn get<'a>(&'a self, key: &String) -> (r: Option<&'a String>)
        ensures
            match r {
                Some(v) => self.get_spec(key@) == Some(v@),
                None => self.get_spec(key@) is None,
            },
    {
        let n = self.entries.len();
        let mut i: usize = 0;
        proof {
            assert(self.entries@.skip(0) =~= self.entries@);
        }
        while i < n
            invariant
                n == self.entries@.len(),
                0 <= i <= n,
                entries_get(self.entries@, key@) == entries_get(self.entries@.skip(i as int), key@),
            decreases n - i,
        {
            proof {
                assert(self.entries@.skip(i as int)[0] == self.entries@[i as int]);
            }
            if self.entries[i].0 == *key {
                return Some(&self.entries[i].1);
            }
            proof {
                assert(self.entries@.skip(i as int).drop_first() =~= self.entries@.skip(
                    i as int + 1,
                ));
            }
            i = i + 1;
        }
        proof {
            assert(self.entries@.skip(n as int) =~= Seq::<(String, String)>::empty());
        }
        None
    }

    /// Whether the map binds `key`.
    pub fn contains_key(&self, key: &String) -> (r: bool)
        ensures
            r == (self.get_spec(key@) is Some),
    {
        self.get(key).is_some()
    }

    /// Binds `key` to `value`, replacing any earlier binding of `key` and
    /// leaving every other key untouched.
    pub fn insert(&mut self, key: &String, value: &String)
        requires
            old(self).wf(),
        ensures
            final(self).wf(),
            final(self).get_spec(key@) == Some::<Seq<char>>(value@),
            forall|k: Seq<char>| k != key@ ==> final(self).get_spec(k) == old(self).get_spec(k),
    {
        let n = self.entries.len();
        let mut idx: usize = 0;
        let mut found: bool = false;
        while idx < n && !found
            invariant
                self.entries@ == old(self).entries@,
                n == self.entries@.len(),
                0 <= idx <= n,
                forall|j: int| 0 <= j < idx ==> self.entries@[j].0@ != key@,
                found ==> idx < n && self.entries@[idx as int].0@ == key@,
            decreases n - idx, (if found { 0int } else { 1int }),
        {
            if self.entries[idx].0 == *key {
                found = true;
            } else {
                idx = idx + 1;
            }
        }
        if found {
            proof {
                assert forall|j: int|
                    0 <= j < self.entries@.len() && j != idx implies self.entries@[j].0@
                    != key@ by {}
            }
            let _ = self.entries.remove(idx);
            proof {
                lemma_entries_get_remove_other(old(self).entries@, idx as int, key@);
                lemma_wf_remove(old(self).entries@, idx as int);
                assert forall|j: int|
                    0 <= j < self.entries@.len() implies self.entries@[j].0@ != key@ by {
                    if j < idx {
                        assert(self.entries@[j] == old(self).entries@[j]);
                    } else {
                        assert(self.entries@[j] == old(self).entries@[j + 1]);
                    }
                }
            }
        }
        proof {
            lemma_entries_get_no_key(self.entries@, key@);
        }
        let ghost pre = self.entries@;
        self.entries.push((key.clone(), value.clone()));
        proof {
            lemma_entries_get_push(pre, self.entries@.last(), key@);
            assert forall|k: Seq<char>| k != key@ implies entries_get(self.entries@, k)
                == entries_get(pre, k) by {
                lemma_entries_get_push(pre, self.entries@.last(), k);
            }
            assert forall|a: int, b: int|
                0 <= a < b < self.entries@.len() implies self.entries@[a].0@
                != self.entries@[b].0@ by {
                if b == self.entries@.len() - 1 {
                    assert(self.entries@[a] == pre[a]);
                } else {
                    assert(self.entries@[a] == pre[a] && self.entries@[b] == pre[b]);
                }
            }
        }
    }

    /// Copies every binding of `other` into this map; on a key both maps
    /// bind, `other`'s value wins.
    pub fn extend(&mut self, other: &ConfigMap)
        requires
            old(self).wf(),
            other.wf(),
        ensures
            final(self).wf(),
            forall|k: Seq<char>|
                final(self).get_spec(k) == (if other.get_spec(k) is Some {
                    other.get_spec(k)
                } else {
                    old(self).get_spec(k)
                }),
    {
        let n = other.entries.len();
        let mut i: usize = 0;
        while i < n
            invariant
                n == other.entries@.len(),
                0 <= i <= n,
                self.wf(),
                other.wf(),
                forall|k: Seq<char>|
                    self.get_spec(k) == (if entries_get(other.entries@.take(i as int), k) is Some {
                        entries_get(other.entries@.take(i as int), k)
                    } else {
                        old(self).get_spec(k)
                    }),
            decreases n - i,
        {
            let ghost pre_take = other.entries@.take(i as int);
            self.insert(&other.entries[i].0, &other.entries[i].1);
            proof {
                assert(other.entries@.take(i as int + 1) =~= pre_take.push(
                    other.entries@[i as int],
                ));
                assert forall|k: Seq<char>|
                    entries_get(other.entries@.take(i as int + 1), k) == (
                    if entries_get(pre_take, k) is Some {
                        entries_get(pre_take, k)
                    } else if other.entries@[i as int].0@ == k {
                        Some(other.entries@[i as int].1@)
                    } else {
                        None::<Seq<char>>
                    }) by {
                    lemma_entries_get_push(pre_take, other.entries@[i as int], k);
                }
                assert forall|j: int| 0 <= j < i implies other.entries@[j].0@
                    != other.entries@[i as int].0@ by {}
                lemma_entries_get_no_key_prefix(other.entries@, i as int);
            }
            i = i + 1;
        }
        proof {
            assert(other.entries@.take(n as int) =~= other.entries@);
        }
    }
}

/// Appending an entry changes only what an unmatched key resolves to.
proof fn lemma_entries_get_push(entries: Seq<(String, String)>, e: (String, String), k: Seq<char>)
    ensures
        entries_get(entries, k) is Some ==> entries_get(entries.push(e), k) == entries_get(
            entries,
            k,
        ),
        entries_get(entries, k) is None && e.0@ == k ==> entries_get(entries.push(e), k) == Some(
            e.1@,
        ),
        entries_get(entries, k) is None && e.0@ != k ==> entries_get(entries.push(e), k) is None,
    decreases entries.len(),
{
    if entries.len() == 0 {
        assert(entries.push(e)[0] == e);
        assert(entries.push(e).drop_first() =~= Seq::<(String, String)>::empty());
        assert(entries_get(Seq::<(String, String)>::empty(), k) is None);
    } else {
        assert(entries.push(e)[0] == entries[0]);
        assert(entries.push(e).drop_first() =~= entries.drop_first().push(e));
        assert(entries.push(e).drop_first() == entries.drop_first().push(e));
        lemma_entries_get_push(entries.drop_first(), e, k);
        if entries[0].0@ == k {
            assert(entries_get(entries, k) == Some(entries[0].1@));
            assert(entries_get(entries.push(e), k) == Some(entries[0].1@));
        } else {
            assert(entries_get(entries, k) == entries_get(entries.drop_first(), k));
            assert(entries_get(entries.push(e), k) == entries_get(
                entries.drop_first().push(e),
                k,
            ));
        }
    }
}

/// A sequence of entries none of which has key `k` resolves `k` to nothing.
proof fn lemma_entries_get_no_key(entries: Seq<(String, String)>, k: Seq<char>)
    requires
        forall|j: int| 0 <= j < entries.len() ==> entries[j].0@ != k,
    ensures
        entries_get(entries, k) is None,
    decreases entries.len(),
{
    if entries.len() > 0 {
        lemma_entries_get_no_key(entries.drop_first(), k);
    }
}

/// With unique keys, the entries before position `i` never bind `entries[i]`'s key.
proof fn lemma_entries_get_no_key_prefix(entries: Seq<(String, String)>, i: int)
    requires
        0 <= i < entries.len(),
        forall|a: int, b: int| 0 <= a < b < entries.len() ==> entries[a].0@ != entries[b].0@,
    ensures
        entries_get(entries.take(i), entries[i].0@) is None,
{
    lemma_entries_get_no_key(entries.take(i), entries[i].0@);
}

/// Removing the entry at `i` changes only what `entries[i]`'s own key
/// resolves to, provided no earlier entry shares that key.
proof fn lemma_entries_get_remove_other(entries: Seq<(String, String)>, i: int, key: Seq<char>)
    requires
        0 <= i < entries.len(),
        entries[i].0@ == key,
        forall|j: int| 0 <= j < i ==> entries[j].0@ != key,
    ensures
        forall|k: Seq<char>| k != key ==> entries_get(entries.remove(i), k) == entries_get(
            entries,
            k,
        ),
    decreases i,
{
    if i == 0 {
        assert(entries.remove(0) =~= entries.drop_first());
    } else {
        lemma_entries_get_remove_other(entries.drop_first(), i - 1, key);
        assert(entries.remove(i).drop_first() =~= entries.drop_first().remove(i - 1));
        assert forall|k: Seq<char>| k != key implies entries_get(entries.remove(i), k)
            == entries_get(entries, k) by {
            if entries[0].0@ != k {
                assert(entries_get(entries.remove(i).drop_first(), k) == entries_get(
                    entries.drop_first(),
                    k,
                ));
            }
        }
    }
}

/// Removing an entry keeps the keys unique.
proof fn lemma_wf_remove(entries: Seq<(String, String)>, i: int)
    requires
        0 <= i < entries.len(),
        forall|a: int, b: int| 0 <= a < b < entries.len() ==> entries[a].0@ != entries[b].0@,
    ensures
        forall|a: int, b: int|
            0 <= a < b < entries.remove(i).len() ==> entries.remove(i)[a].0@ != entries.remove(
                i,
            )[b].0@,
{
}

/// One configured service: a provider type tag, the provider's free-form
/// configuration, and the domain names managed under it.
pub struct Service {
    pub name: String,
    pub config: ConfigMap,
    pub domain: Vec<String>,
}

impl Service {
    /// The configuration map keeps its unique-key invariant.
    pub open spec fn wf(&self) -> bool {
        self.config.wf()
    }
}

/// The whole run's configuration: the services to reconcile and whether
/// IPv6 records are reconciled too.
pub struct AppConfig {
    pub services: Vec<Service>,
    pub ipv6: bool,
}

impl AppConfig {
    /// Gathers an already-parsed configuration: the caller supplies the
    /// services and the IPv6 flag as plain values.
    pub fn new(services: Vec<Service>, ipv6: bool) -> (r: AppConfig)
        ensures
            r.services == services,
            r.ipv6 == ipv6,
    {
        AppConfig { services, ipv6 }
    }
}

} // verus!
