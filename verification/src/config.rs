//! Configuration model: string-keyed maps of networks, deployers, scenarios
//! and metaboard endpoints, the override merge where the external document's
//! values win, and resolution of names into concrete records.

use vstd::prelude::*;
use crate::address::Address;

verus! {

/// The first value mapped to `k`, searched front to back.
pub open spec fn smap_lookup<V>(keys: Seq<Seq<char>>, vals: Seq<V>, k: Seq<char>) -> Option<V>
    decreases keys.len(),
{
    if keys.len() == 0 || vals.len() == 0 {
        None
    } else if keys[0] == k {
        Some(vals[0])
    } else {
        smap_lookup(keys.subrange(1, keys.len() as int), vals.subrange(1, vals.len() as int), k)
    }
}

/// A key absent from the whole list is served by no lookup.
proof fn lemma_smap_absent<V>(keys: Seq<Seq<char>>, vals: Seq<V>, k: Seq<char>)
    requires
        forall|i: int| 0 <= i < keys.len() ==> keys[i] != k,
    ensures
        smap_lookup(keys, vals, k) is None,
    decreases keys.len(),
{
    if keys.len() > 0 && vals.len() > 0 {
        lemma_smap_absent(
            keys.subrange(1, keys.len() as int),
            vals.subrange(1, vals.len() as int),
            k,
        );
    }
}

/// A present key is served with the value at its first position.
proof fn lemma_smap_found<V>(keys: Seq<Seq<char>>, vals: Seq<V>, i: int)
    requires
        keys.len() == vals.len(),
        0 <= i < keys.len(),
        forall|j: int| 0 <= j < i ==> keys[j] != keys[i],
    ensures
        smap_lookup(keys, vals, keys[i]) == Some(vals[i]),
    decreases i,
{
    if i > 0 {
        lemma_smap_found(
            keys.subrange(1, keys.len() as int),
            vals.subrange(1, vals.len() as int),
            i - 1,
        );
    }
}

/// A map from names to values, insertion-ordered, with unique names.
pub struct StrMap<V> {
    keys: Vec<String>,
    vals: Vec<V>,
}

impl<V> StrMap<V> {
    /// The map is well formed: one value per name, names unique.
    pub closed spec fn wf(self) -> bool {
        &&& self.keys@.len() == self.vals@.len()
        &&& forall|i: int, j: int|
            0 <= i < j < self.keys@.len() ==> self.key_list()[i] != self.key_list()[j]
    }

    /// The names held, in insertion order.
    pub closed spec fn key_list(&self) -> Seq<Seq<char>> {
        self.keys@.map_values(|k: String| k@)
    }

    /// The value mapped to a name.
    pub closed spec fn spec_get(&self, k: Seq<char>) -> Option<V> {
        smap_lookup(self.key_list(), self.vals@, k)
    }

    /// Whether a name is mapped.
    pub open spec fn spec_contains(&self, k: Seq<char>) -> bool {
        self.spec_get(k) is Some
    }

    /// The number of names held.
    pub closed spec fn spec_len(&self) -> nat {
        self.keys@.len()
    }

    /// An empty map.
    pub fn new() -> (r: StrMap<V>)
        ensures
            r.wf(),
            forall|q: Seq<char>| r.spec_get(q) is None,
            r.key_list() == Seq::<Seq<char>>::empty(),
            r.spec_len() == 0,
    {
        let r = StrMap { keys: Vec::new(), vals: Vec::new() };
        proof {
            assert(r.key_list() =~= Seq::<Seq<char>>::empty());
            assert(forall|q: Seq<char>| r.spec_get(q) is None) by {
                assert(r.key_list().len() == 0);
            }
        }
        r
    }

    /// How many names the map holds.
    pub fn len(&self) -> (r: usize)
        ensures
            r == self.spec_len(),
    {
        self.keys.len()
    }

    /// The position of a name, where it is held.
    #[verifier::loop_isolation(false)]
    fn position(&self, k: &String) -> (r: Option<usize>)
        requires
            self.wf(),
        ensures
            match r {
                Some(i) => i < self.key_list().len() && self.key_list()[i as int] == k@
                    && self.spec_get(k@) == Some(self.vals@[i as int]),
                None => self.spec_get(k@) is None,
            },
    {
        let n = self.keys.len();
        let mut i: usize = 0;
        while i < n
            invariant
                i <= n,
                forall|j: int| 0 <= j < i ==> self.key_list()[j] != k@,
            decreases n - i,
        {
            if self.keys[i] == *k {
                proof {
                    lemma_smap_found(self.key_list(), self.vals@, i as int);
                }
                return Some(i);
            }
            i += 1;
        }
        proof {
            lemma_smap_absent(self.key_list(), self.vals@, k@);
        }
        None
    }

    /// The value held for a name.
    pub fn get(&self, k: &String) -> (r: Option<&V>)
        requires
            self.wf(),
        ensures
            match r {
                Some(v) => self.spec_get(k@) == Some(*v),
                None => self.spec_get(k@) is None,
            },
    {
        match self.position(k) {
            Some(i) => Some(&self.vals[i]),
            None => None,
        }
    }

    /// Whether the map holds a name.
    pub fn contains_key(&self, k: &String) -> (r: bool)
        requires
            self.wf(),
        ensures
            r == self.spec_contains(k@),
    {
        match self.position(k) {
            Some(_) => true,
            None => false,
        }
    }

    /// Maps a name to a value: a held name is overwritten in place, a new
    /// one appended at the end of the order.
    pub fn insert(&mut self, k: String, v: V)
        requires
            old(self).wf(),
        ensures
            final(self).wf(),
            final(self).spec_get(k@) == Some(v),
            forall|q: Seq<char>|
                q != k@ ==> final(self).spec_get(q) == old(self).spec_get(q),
            old(self).spec_contains(k@) ==> final(self).key_list() == old(self).key_list(),
            !old(self).spec_contains(k@) ==> final(self).key_list() == old(self).key_list().push(
                k@,
            ),
    {
        let ghost old_keys = self.key_list();
        let ghost old_vals = self.vals@;
        match self.position(&k) {
            Some(i) => {
                self.vals.set(i, v);
                proof {
                    assert(self.key_list() =~= old_keys);
                    assert(self.vals@ =~= old_vals.update(i as int, v));
                    assert forall|q: Seq<char>| true implies self.spec_get(q) == (if q == k@ {
                        Some(v)
                    } else {
                        smap_lookup(old_keys, old_vals, q)
                    }) by {
                        lemma_smap_update(old_keys, old_vals, i as int, v, q);
                        assert(old_keys[i as int] == k@);
                    }
                }
            },
            None => {
                let ghost kk = k@;
                self.keys.push(k);
                self.vals.push(v);
                proof {
                    assert(self.key_list() =~= old_keys.push(kk));
                    assert forall|q: Seq<char>| true implies self.spec_get(q) == (match
                        smap_lookup(old_keys, old_vals, q) {
                        Some(w) => Some(w),
                        None => if q == kk {
                            Some(v)
                        } else {
                            None
                        },
                    }) by {
                        lemma_smap_push(old_keys, old_vals, kk, v, q);
                        assert(self.key_list() == old_keys.push(kk));
                        assert(self.vals@ =~= old_vals.push(v));
                    }
                    assert forall|a: int, b: int|
                        0 <= a < b < self.key_list().len() implies self.key_list()[a]
                        != self.key_list()[b] by {
                        if b == self.key_list().len() - 1 {
                            if self.key_list()[a] == kk {
                                lemma_smap_found(old_keys, old_vals, a);
                            }
                        }
                    }
                }
            },
        }
    }

    /// The name and value at a position of the order.
    pub fn pair_at(&self, i: usize) -> (r: (&String, &V))
        requires
            self.wf(),
            i < self.spec_len(),
        ensures
            r.0@ == self.key_list()[i as int],
            self.spec_get(r.0@) == Some(*r.1),
    {
        proof {
            lemma_smap_found(self.key_list(), self.vals@, i as int);
        }
        (&self.keys[i], &self.vals[i])
    }

    /// Merges another map in: its values win on name collision.
    #[verifier::loop_isolation(false)]
    pub fn merge(&mut self, other: StrMap<V>)
        requires
            old(self).wf(),
            other.wf(),
        ensures
            final(self).wf(),
            forall|q: Seq<char>|
                final(self).spec_get(q) == (match other.spec_get(q) {
                    Some(v) => Some(v),
                    None => old(self).spec_get(q),
                }),
    {
        let mut rest = other;
        while rest.keys.len() > 0
            invariant
                self.wf(),
                rest.wf(),
                forall|q: Seq<char>| #![trigger rest.spec_get(q)]
                    (match rest.spec_get(q) {
                        Some(v) => Some(v),
                        None => self.spec_get(q),
                    }) == (match other.spec_get(q) {
                        Some(v) => Some(v),
                        None => old(self).spec_get(q),
                    }),
            decreases rest.keys@.len(),
        {
            let ghost rest0 = rest;
            let ghost self0 = *self;
            let ghost rest_keys = rest.key_list();
            let ghost rest_vals = rest.vals@;
            let k = rest.keys.remove(0);
            let v = rest.vals.remove(0);
            let ghost kk = k@;
            let ghost vv = v;
            proof {
                assert(rest.key_list() =~= rest_keys.subrange(1, rest_keys.len() as int));
                assert(rest.vals@ =~= rest_vals.subrange(1, rest_vals.len() as int));
                assert(rest_keys[0] == kk);
                assert(forall|i: int| 0 <= i < rest.key_list().len() ==> rest.key_list()[i]
                    != kk);
                lemma_smap_absent(rest.key_list(), rest.vals@, kk);
            }
            self.insert(k, v);
            proof {
                assert forall|q: Seq<char>| true implies (match #[trigger] rest.spec_get(q) {
                    Some(w) => Some(w),
                    None => self.spec_get(q),
                }) == (match other.spec_get(q) {
                    Some(w) => Some(w),
                    None => old(self).spec_get(q),
                }) by {
                    assert(rest0.spec_get(q) == smap_lookup(rest_keys, rest_vals, q));
                    if q == kk {
                        assert(rest0.spec_get(q) == Some(vv));
                        assert(rest.spec_get(q) is None);
                        assert(self.spec_get(q) == Some(vv));
                    } else {
                        assert(rest0.spec_get(q) == rest.spec_get(q));
                        assert(self.spec_get(q) == self0.spec_get(q));
                    }
                }
            }
        }
        proof {
            assert(rest.key_list().len() == 0);
            assert forall|q: Seq<char>| true implies self.spec_get(q) == (match
                other.spec_get(q) {
                Some(v) => Some(v),
                None => old(self).spec_get(q),
            }) by {
                assert(rest.spec_get(q) is None);
            }
        }
    }
}

/// Overwriting one position serves its name anew and others as before.
proof fn lemma_smap_update<V>(
    keys: Seq<Seq<char>>,
    vals: Seq<V>,
    i: int,
    v: V,
    q: Seq<char>,
)
    requires
        keys.len() == vals.len(),
        0 <= i < keys.len(),
        forall|a: int, b: int| 0 <= a < b < keys.len() ==> keys[a] != keys[b],
    ensures
        smap_lookup(keys, vals.update(i, v), q) == (if q == keys[i] {
            Some(v)
        } else {
            smap_lookup(keys, vals, q)
        }),
    decreases i,
{
    if keys.len() > 0 {
        if i == 0 {
            if q != keys[0] {
                assert(vals.update(0, v).subrange(1, vals.len() as int) =~= vals.subrange(
                    1,
                    vals.len() as int,
                ));
            }
        } else {
            assert(vals.update(i, v).subrange(1, vals.len() as int) =~= vals.subrange(
                1,
                vals.len() as int,
            ).update(i - 1, v));
            lemma_smap_update(
                keys.subrange(1, keys.len() as int),
                vals.subrange(1, vals.len() as int),
                i - 1,
                v,
                q,
            );
            if q == keys[i] {
                assert(keys[0] != keys[i]);
            }
        }
    }
}

/// Appending a fresh pair leaves held names alone and serves the new one.
proof fn lemma_smap_push<V>(keys: Seq<Seq<char>>, vals: Seq<V>, kk: Seq<char>, v: V, q: Seq<char>)
    requires
        keys.len() == vals.len(),
    ensures
        smap_lookup(keys.push(kk), vals.push(v), q) == (match smap_lookup(keys, vals, q) {
            Some(w) => Some(w),
            None => if q == kk {
                Some(v)
            } else {
                None
            },
        }),
    decreases keys.len(),
{
    if keys.len() == 0 {
        assert(keys.push(kk)[0] == kk);
        assert(vals.push(v)[0] == v);
        assert(keys.push(kk).subrange(1, 1) =~= Seq::<Seq<char>>::empty());
        assert(vals.push(v).subrange(1, 1) =~= Seq::<V>::empty());
        reveal_with_fuel(smap_lookup, 3);
    } else {
        lemma_smap_push(
            keys.subrange(1, keys.len() as int),
            vals.subrange(1, vals.len() as int),
            kk,
            v,
            q,
        );
        assert(keys.push(kk).subrange(1, keys.len() as int + 1) =~= keys.subrange(
            1,
            keys.len() as int,
        ).push(kk));
        assert(vals.push(v).subrange(1, vals.len() as int + 1) =~= vals.subrange(
            1,
            vals.len() as int,
        ).push(v));
        assert(keys.push(kk)[0] == keys[0]);
        assert(vals.push(v)[0] == vals[0]);
    }
}

impl<V> StrMap<V> {
    /// A mapped name stands somewhere in the order; an unmapped one nowhere.
    pub proof fn lemma_contains_position(&self, q: Seq<char>)
        requires
            self.wf(),
        ensures
            self.spec_get(q) is Some <==> (exists|i: int|
                0 <= i < self.key_list().len() && self.key_list()[i] == q),
    {
        if self.spec_get(q) is Some {
            lemma_smap_some_position(self.key_list(), self.vals@, q);
        } else {
            if exists|i: int| 0 <= i < self.key_list().len() && self.key_list()[i] == q {
                let i = choose|i: int|
                    0 <= i < self.key_list().len() && self.key_list()[i] == q;
                let j = choose|j: int|
                    0 <= j <= i && self.key_list()[j] == q && (forall|a: int|
                        0 <= a < j ==> self.key_list()[a] != q);
                lemma_smap_first_position(self.key_list(), self.vals@, q, i);
            }
        }
    }
}

/// A served name stands at some position.
proof fn lemma_smap_some_position<V>(keys: Seq<Seq<char>>, vals: Seq<V>, k: Seq<char>)
    requires
        smap_lookup(keys, vals, k) is Some,
    ensures
        exists|i: int| 0 <= i < keys.len() && keys[i] == k,
    decreases keys.len(),
{
    if keys.len() > 0 && vals.len() > 0 {
        if keys[0] != k {
            lemma_smap_some_position(
                keys.subrange(1, keys.len() as int),
                vals.subrange(1, vals.len() as int),
                k,
            );
        }
    }
}

/// A name standing at some position is served.
proof fn lemma_smap_first_position<V>(keys: Seq<Seq<char>>, vals: Seq<V>, k: Seq<char>, i: int)
    requires
        keys.len() == vals.len(),
        0 <= i < keys.len(),
        keys[i] == k,
    ensures
        smap_lookup(keys, vals, k) is Some,
    decreases i,
{
    if keys[0] != k {
        lemma_smap_first_position(
            keys.subrange(1, keys.len() as int),
            vals.subrange(1, vals.len() as int),
            k,
            i - 1,
        );
    }
}

impl StrMap<String> {
    /// The (name, value) pairs in insertion order.
    pub closed spec fn entry_list(&self) -> Seq<(Seq<char>, Seq<char>)> {
        Seq::new(self.keys@.len(), |i: int| (self.keys@[i]@, self.vals@[i]@))
    }

    /// The pairs, copied out in insertion order.
    #[verifier::loop_isolation(false)]
    pub fn entries(&self) -> (r: Vec<(String, String)>)
        requires
            self.wf(),
        ensures
            r@.map_values(|p: (String, String)| (p.0@, p.1@)) == self.entry_list(),
    {
        let mut out: Vec<(String, String)> = Vec::new();
        let n = self.keys.len();
        let mut i: usize = 0;
        while i < n
            invariant
                i <= n,
                out@.len() == i,
                forall|j: int|
                    0 <= j < i ==> (#[trigger] out@[j]).0@ == self.keys@[j]@ && out@[j].1@
                        == self.vals@[j]@,
            decreases n - i,
        {
            out.push((self.keys[i].clone(), self.vals[i].clone()));
            i += 1;
        }
        proof {
            assert(out@.map_values(|p: (String, String)| (p.0@, p.1@)) =~= self.entry_list());
        }
        out
    }

    /// A copy of the map, name for name and value for value.
    #[verifier::loop_isolation(false)]
    pub fn duplicate(&self) -> (r: StrMap<String>)
        requires
            self.wf(),
        ensures
            r.wf(),
            r.key_list() == self.key_list(),
            forall|q: Seq<char>| r.spec_get(q) == self.spec_get(q),
    {
        let mut out: StrMap<String> = StrMap::new();
        let n = self.len();
        let mut i: usize = 0;
        while i < n
            invariant
                i <= n,
                out.wf(),
                out.key_list() == self.key_list().subrange(0, i as int),
                forall|j: int|
                    0 <= j < i ==> out.spec_get(self.key_list()[j]) == self.spec_get(
                        self.key_list()[j],
                    ),
            decreases n - i,
        {
            let (k, v) = self.pair_at(i);
            let ghost pre = out;
            out.insert(k.clone(), v.clone());
            proof {
                pre.lemma_contains_position(self.key_list()[i as int]);
                assert(!pre.spec_contains(self.key_list()[i as int]));
                assert(out.key_list() =~= self.key_list().subrange(0, i + 1));
                assert forall|j: int|
                    0 <= j < i + 1 implies out.spec_get(self.key_list()[j]) == self.spec_get(
                    self.key_list()[j],
                ) by {
                    if j < i {
                        if self.key_list()[j] == self.key_list()[i as int] {
                        }
                    } else {
                        lemma_smap_found(self.key_list(), self.vals@, i as int);
                    }
                }
            }
            i += 1;
        }
        proof {
            assert(out.key_list() =~= self.key_list());
            assert forall|q: Seq<char>| true implies out.spec_get(q) == self.spec_get(q) by {
                self.lemma_contains_position(q);
                out.lemma_contains_position(q);
                if self.spec_get(q) is Some {
                    let j = choose|j: int|
                        0 <= j < self.key_list().len() && self.key_list()[j] == q;
                } else {
                }
            }
        }
        out
    }
}

/// One chain: its name, RPC endpoint and chain identifier.
pub struct Network {
    pub name: String,
    pub rpc: String,
    pub chain_id: u64,
}

impl Clone for Network {
    /// A clone carries the same fields.
    fn clone(&self) -> (r: Self)
        ensures
            r.name@ == self.name@,
            r.rpc@ == self.rpc@,
            r.chain_id == self.chain_id,
    {
        Network { name: self.name.clone(), rpc: self.rpc.clone(), chain_id: self.chain_id }
    }
}

/// A deployer as configured: its address and an optional network name; a
/// missing name defaults to the deployer's own key.
pub struct DeployerCfg {
    pub address: Address,
    pub network: Option<String>,
}

/// A scenario as configured: an optional deployer name — defaulting to the
/// scenario's own key — and its script bindings.
pub struct ScenarioCfg {
    pub deployer: Option<String>,
    pub bindings: StrMap<String>,
}

/// A deployer with its network resolved.
pub struct Deployer {
    pub address: Address,
    pub network: Network,
}

impl Clone for Deployer {
    /// A clone carries the same fields.
    fn clone(&self) -> (r: Self)
        ensures
            r.address@ == self.address@,
            r.network.name@ == self.network.name@,
            r.network.rpc@ == self.network.rpc@,
            r.network.chain_id == self.network.chain_id,
    {
        Deployer { address: self.address.clone(), network: self.network.clone() }
    }
}

/// A scenario with its deployer resolved.
pub struct Scenario {
    pub deployer: Deployer,
    pub bindings: StrMap<String>,
}

/// The parsed configuration document before resolution: maps keyed by name,
/// and the expected build version tag, if one is declared.
pub struct ConfigSource {
    pub networks: StrMap<Network>,
    pub deployers: StrMap<DeployerCfg>,
    pub scenarios: StrMap<ScenarioCfg>,
    pub metaboards: StrMap<String>,
    pub raindex_version: Option<String>,
}

/// The resolved configuration.
pub struct Config {
    pub networks: StrMap<Network>,
    pub deployers: StrMap<Deployer>,
    pub scenarios: StrMap<Scenario>,
    pub metaboards: StrMap<String>,
    pub raindex_version: Option<String>,
}

/// Why a configuration could not be resolved.
#[derive(Debug)]
pub enum ParseConfigError {
    /// A deployer names a network the configuration does not hold.
    NetworkNotFound(String),
    /// A scenario names a deployer the configuration does not hold.
    DeployerNotFound(String),
}

/// The network name a configured deployer refers to.
pub open spec fn deployer_network_key(d: DeployerCfg, own_key: Seq<char>) -> Seq<char> {
    match d.network {
        Some(n) => n@,
        None => own_key,
    }
}

/// The deployer name a configured scenario refers to.
pub open spec fn scenario_deployer_key(s: ScenarioCfg, own_key: Seq<char>) -> Seq<char> {
    match s.deployer {
        Some(n) => n@,
        None => own_key,
    }
}

impl ConfigSource {
    /// All maps of the source are well formed, each scenario's binding map
    /// included.
    pub open spec fn wf(self) -> bool {
        &&& self.networks.wf()
        &&& self.deployers.wf()
        &&& self.scenarios.wf()
        &&& self.metaboards.wf()
        &&& forall|q: Seq<char>|
            #[trigger] self.scenarios.spec_get(q) matches Some(s) ==> s.bindings.wf()
    }

    /// Every configured deployer names a held network.
    pub open spec fn deployers_resolvable(self) -> bool {
        forall|q: Seq<char>|
            #[trigger] self.deployers.spec_get(q) matches Some(d)
                ==> self.networks.spec_contains(deployer_network_key(d, q))
    }

    /// Every configured scenario names a held deployer.
    pub open spec fn scenarios_resolvable(self) -> bool {
        forall|q: Seq<char>|
            #[trigger] self.scenarios.spec_get(q) matches Some(s)
                ==> self.deployers.spec_contains(scenario_deployer_key(s, q))
    }

    /// Merges an override document in: its values win on key collision, map
    /// by map, and its declared version tag wins where it has one.
    pub fn merge(&mut self, other: ConfigSource)
        requires
            old(self).wf(),
            other.wf(),
        ensures
            final(self).wf(),
            forall|q: Seq<char>|
                final(self).networks.spec_get(q) == (match other.networks.spec_get(q) {
                    Some(v) => Some(v),
                    None => old(self).networks.spec_get(q),
                }),
            forall|q: Seq<char>|
                final(self).deployers.spec_get(q) == (match other.deployers.spec_get(q) {
                    Some(v) => Some(v),
                    None => old(self).deployers.spec_get(q),
                }),
            forall|q: Seq<char>|
                final(self).scenarios.spec_get(q) == (match other.scenarios.spec_get(q) {
                    Some(v) => Some(v),
                    None => old(self).scenarios.spec_get(q),
                }),
            forall|q: Seq<char>|
                final(self).metaboards.spec_get(q) == (match other.metaboards.spec_get(q) {
                    Some(v) => Some(v),
                    None => old(self).metaboards.spec_get(q),
                }),
            final(self).raindex_version == (match other.raindex_version {
                Some(v) => Some(v),
                None => old(self).raindex_version,
            }),
    {
        let ConfigSource { networks, deployers, scenarios, metaboards, raindex_version } = other;
        self.networks.merge(networks);
        self.deployers.merge(deployers);
        self.scenarios.merge(scenarios);
        self.metaboards.merge(metaboards);
        match raindex_version {
            Some(v) => {
                self.raindex_version = Some(v);
            },
            None => {},
        }
    }
}

/// Two network records carry the same data.
pub open spec fn network_like(a: Network, b: Network) -> bool {
    &&& a.name@ == b.name@
    &&& a.rpc@ == b.rpc@
    &&& a.chain_id == b.chain_id
}

/// A resolved configuration carries the source's data: networks and
/// metaboards unchanged, each deployer's network and each scenario's
/// deployer resolved by name, bindings and version tag carried over.
pub open spec fn resolves_to(src: ConfigSource, c: Config) -> bool {
    &&& c.networks.wf() && c.deployers.wf() && c.scenarios.wf() && c.metaboards.wf()
    &&& forall|q: Seq<char>| c.networks.spec_get(q) == src.networks.spec_get(q)
    &&& forall|q: Seq<char>|
        match src.deployers.spec_get(q) {
            Some(d) => #[trigger] c.deployers.spec_get(q) matches Some(rd) && deployer_resolves(
                src,
                q,
                d,
                rd,
            ),
            None => c.deployers.spec_get(q) is None,
        }
    &&& forall|q: Seq<char>|
        match src.scenarios.spec_get(q) {
            Some(s) => #[trigger] c.scenarios.spec_get(q) matches Some(rs)
                && rs.bindings.wf() && (src.deployers.spec_get(scenario_deployer_key(s, q))
                matches Some(d) && deployer_resolves(src, scenario_deployer_key(s, q), d, rs.deployer))
                && (forall|bq: Seq<char>| rs.bindings.spec_get(bq) == s.bindings.spec_get(bq)),
            None => c.scenarios.spec_get(q) is None,
        }
    &&& forall|q: Seq<char>| c.metaboards.spec_get(q) == src.metaboards.spec_get(q)
    &&& (match (c.raindex_version, src.raindex_version) {
        (Some(a), Some(b)) => a@ == b@,
        (None, None) => true,
        _ => false,
    })
}

/// A resolved deployer carries the configured address and the record of the
/// network the configuration holds under the deployer's network name.
pub open spec fn deployer_resolves(
    src: ConfigSource,
    q: Seq<char>,
    d: DeployerCfg,
    rd: Deployer,
) -> bool {
    &&& rd.address@ == d.address@
    &&& src.networks.spec_get(deployer_network_key(d, q)) matches Some(n) && network_like(
        rd.network,
        n,
    )
}

impl ConfigSource {
    /// Resolves the configuration: every deployer's network name and every
    /// scenario's deployer name must be held; bindings, metaboards and the
    /// version tag are carried over unchanged. Resolution succeeds exactly
    /// where every such reference is held.
    #[verifier::loop_isolation(false)]
    #[verifier::rlimit(100)]
    pub fn try_into_config(&self) -> (r: Result<Config, ParseConfigError>)
        requires
            self.wf(),
        ensures
            match r {
                Ok(c) => self.deployers_resolvable() && self.scenarios_resolvable()
                    && resolves_to(*self, c),
                Err(_) => !(self.deployers_resolvable() && self.scenarios_resolvable()),
            },
    {
        // networks and metaboards carry over unchanged
        let networks = self.copy_networks();
        let metaboards = self.metaboards.duplicate();

        // deployers: resolve each network name
        let mut deployers: StrMap<Deployer> = StrMap::new();
        let dn = self.deployers.len();
        let mut i: usize = 0;
        while i < dn
            invariant
                i <= dn,
                deployers.wf(),
                deployers.key_list() == self.deployers.key_list().subrange(0, i as int),
                forall|j: int|
                    0 <= j < i ==> (match self.deployers.spec_get(
                        #[trigger] self.deployers.key_list()[j],
                    ) {
                        Some(d) => deployers.spec_get(self.deployers.key_list()[j])
                            matches Some(rd) && deployer_resolves(
                            *self,
                            self.deployers.key_list()[j],
                            d,
                            rd,
                        ),
                        None => false,
                    }),
            decreases dn - i,
        {
            let (k, d) = self.deployers.pair_at(i);
            let net_key: &String = match &d.network {
                Some(n) => n,
                None => k,
            };
            let n = match self.networks.get(net_key) {
                Some(n) => n,
                None => {
                    proof {
                        assert(!self.deployers_resolvable()) by {
                            assert(self.deployers.spec_get(k@) matches Some(dd)
                                && !self.networks.spec_contains(deployer_network_key(dd, k@)));
                        }
                    }
                    return Err(ParseConfigError::NetworkNotFound(net_key.clone()));
                },
            };
            let rd = Deployer { address: d.address.clone(), network: n.clone() };
            let ghost pre = deployers;
            deployers.insert(k.clone(), rd);
            proof {
                pre.lemma_contains_position(self.deployers.key_list()[i as int]);
                assert(deployers.key_list() =~= self.deployers.key_list().subrange(0, i + 1));
            }
            i += 1;
        }
        proof {
            assert(deployers.key_list() =~= self.deployers.key_list());
        }

        // scenarios: resolve each deployer name against the resolved map
        let mut scenarios: StrMap<Scenario> = StrMap::new();
        let sn = self.scenarios.len();
        let mut i: usize = 0;
        while i < sn
            invariant
                i <= sn,
                scenarios.wf(),
                deployers.wf(),
                scenarios.key_list() == self.scenarios.key_list().subrange(0, i as int),
                forall|j: int|
                    0 <= j < i ==> (match self.scenarios.spec_get(
                        #[trigger] self.scenarios.key_list()[j],
                    ) {
                        Some(s) => scenarios.spec_get(self.scenarios.key_list()[j])
                            matches Some(rs) && rs.bindings.wf() && (self.deployers.spec_get(
                            scenario_deployer_key(s, self.scenarios.key_list()[j]),
                        ) matches Some(d) && deployer_resolves(
                            *self,
                            scenario_deployer_key(s, self.scenarios.key_list()[j]),
                            d,
                            rs.deployer,
                        )) && (forall|bq: Seq<char>|
                            rs.bindings.spec_get(bq) == s.bindings.spec_get(bq)),
                        None => false,
                    }),
            decreases sn - i,
        {
            let (k, s) = self.scenarios.pair_at(i);
            let dep_key: &String = match &s.deployer {
                Some(n) => n,
                None => k,
            };
            proof {
                self.deployers.lemma_contains_position(dep_key@);
                deployers.lemma_contains_position(dep_key@);
            }
            let rd = match deployers.get(dep_key) {
                Some(rd) => rd,
                None => {
                    proof {
                        assert(!self.scenarios_resolvable()) by {
                            assert(self.scenarios.spec_get(k@) matches Some(ss)
                                && !self.deployers.spec_contains(scenario_deployer_key(ss, k@)));
                        }
                    }
                    return Err(ParseConfigError::DeployerNotFound(dep_key.clone()));
                },
            };
            let rs = Scenario { deployer: rd.clone(), bindings: s.bindings.duplicate() };
            let ghost pre = scenarios;
            scenarios.insert(k.clone(), rs);
            proof {
                pre.lemma_contains_position(self.scenarios.key_list()[i as int]);
                assert(scenarios.key_list() =~= self.scenarios.key_list().subrange(0, i + 1));
            }
            i += 1;
        }
        proof {
            assert(scenarios.key_list() =~= self.scenarios.key_list());
        }

        let raindex_version = match &self.raindex_version {
            Some(v) => Some(v.clone()),
            None => None,
        };
        let c = Config { networks, deployers, scenarios, metaboards, raindex_version };
        proof {
            assert(self.deployers_resolvable()) by {
                assert forall|q: Seq<char>| #[trigger] self.deployers.spec_get(q) is Some implies
                    self.networks.spec_contains(
                        deployer_network_key(self.deployers.spec_get(q)->Some_0, q),
                    ) by {
                    self.deployers.lemma_contains_position(q);
                    let j = choose|j: int|
                        0 <= j < self.deployers.key_list().len()
                            && self.deployers.key_list()[j] == q;
                }
            }
            assert(self.scenarios_resolvable()) by {
                assert forall|q: Seq<char>| #[trigger] self.scenarios.spec_get(q) is Some implies
                    self.deployers.spec_contains(
                        scenario_deployer_key(self.scenarios.spec_get(q)->Some_0, q),
                    ) by {
                    self.scenarios.lemma_contains_position(q);
                    let j = choose|j: int|
                        0 <= j < self.scenarios.key_list().len()
                            && self.scenarios.key_list()[j] == q;
                }
            }
            assert forall|q: Seq<char>| true implies (match #[trigger] self.deployers.spec_get(q) {
                Some(d) => c.deployers.spec_get(q) matches Some(rd) && deployer_resolves(
                    *self,
                    q,
                    d,
                    rd,
                ),
                None => c.deployers.spec_get(q) is None,
            }) by {
                self.deployers.lemma_contains_position(q);
                c.deployers.lemma_contains_position(q);
                if self.deployers.spec_get(q) is Some {
                    let j = choose|j: int|
                        0 <= j < self.deployers.key_list().len()
                            && self.deployers.key_list()[j] == q;
                }
            }
            assert forall|q: Seq<char>| true implies (match #[trigger] self.scenarios.spec_get(q) {
                Some(s) => c.scenarios.spec_get(q) matches Some(rs) && rs.bindings.wf() && (
                self.deployers.spec_get(scenario_deployer_key(s, q)) matches Some(d)
                    && deployer_resolves(
                    *self,
                    scenario_deployer_key(s, q),
                    d,
                    rs.deployer,
                )) && (forall|bq: Seq<char>|
                    rs.bindings.spec_get(bq) == s.bindings.spec_get(bq)),
                None => c.scenarios.spec_get(q) is None,
            }) by {
                self.scenarios.lemma_contains_position(q);
                c.scenarios.lemma_contains_position(q);
                if self.scenarios.spec_get(q) is Some {
                    let j = choose|j: int|
                        0 <= j < self.scenarios.key_list().len()
                            && self.scenarios.key_list()[j] == q;
                }
            }
        }
        Ok(c)
    }

    /// A copy of the network map, record for record.
    #[verifier::loop_isolation(false)]
    fn copy_networks(&self) -> (r: StrMap<Network>)
        requires
            self.wf(),
        ensures
            r.wf(),
            r.key_list() == self.networks.key_list(),
            forall|q: Seq<char>| r.spec_get(q) == self.networks.spec_get(q),
    {
        let mut out: StrMap<Network> = StrMap::new();
        let n = self.networks.len();
        let mut i: usize = 0;
        while i < n
            invariant
                i <= n,
                out.wf(),
                out.key_list() == self.networks.key_list().subrange(0, i as int),
                forall|j: int|
                    0 <= j < i ==> out.spec_get(#[trigger] self.networks.key_list()[j])
                        == self.networks.spec_get(self.networks.key_list()[j]),
            decreases n - i,
        {
            let (k, v) = self.networks.pair_at(i);
            let ghost pre = out;
            let ghost held = *v;
            let copy = Network { name: v.name.clone(), rpc: v.rpc.clone(), chain_id: v.chain_id };
            proof {
                assert(copy == held);
            }
            out.insert(k.clone(), copy);
            proof {
                pre.lemma_contains_position(self.networks.key_list()[i as int]);
                assert(out.key_list() =~= self.networks.key_list().subrange(0, i + 1));
            }
            i += 1;
        }
        proof {
            assert(out.key_list() =~= self.networks.key_list());
            assert forall|q: Seq<char>| true implies out.spec_get(q) == self.networks.spec_get(
                q,
            ) by {
                self.networks.lemma_contains_position(q);
                out.lemma_contains_position(q);
                if self.networks.spec_get(q) is Some {
                    let j = choose|j: int|
                        0 <= j < self.networks.key_list().len()
                            && self.networks.key_list()[j] == q;
                }
            }
        }
        out
    }
}

} // verus!
