//! Fork simulation cache: one simulated-chain instance per (endpoint, block)
//! key, created on first use and reused for every later call with the same
//! key, plus the classification of a call's outcome.

use vstd::prelude::*;
use crate::revert::{
    decoded_matches, revert_decode_spec, AbiDecodedError, SelectorRegistry,
};

verus! {

/// Identifies one simulated-chain snapshot: a chain RPC endpoint and the
/// block the snapshot is rooted at.
pub struct ForkKey {
    pub endpoint: String,
    pub block_number: u64,
}

impl View for ForkKey {
    type V = (Seq<char>, u64);

    open spec fn view(&self) -> (Seq<char>, u64) {
        (self.endpoint@, self.block_number)
    }
}

impl Clone for ForkKey {
    /// A clone identifies the same snapshot.
    fn clone(&self) -> (r: Self)
        ensures
            r@ == self@,
    {
        ForkKey { endpoint: self.endpoint.clone(), block_number: self.block_number }
    }
}

/// What one simulated call produced.
pub enum SimulationOutcome {
    /// The call reverted: the failure bytes, decoded where the registry
    /// knows their selector, raw otherwise.
    Reverted(RevertPayload),
    /// The call returned these bytes.
    Returned(Vec<u8>),
}

/// The payload of a revert: decoded, or the raw failure bytes.
pub enum RevertPayload {
    Decoded(AbiDecodedError),
    Raw(Vec<u8>),
}

/// Why a simulation could not run at all.
#[derive(Debug)]
pub enum SimulationError {
    /// The endpoint was unreachable or the snapshot could not be built.
    ForkInit(String),
    /// The cache's lock was poisoned by an earlier panic.
    CacheUnavailable,
}

/// The first handle mapped to `k`, searched front to back.
pub open spec fn assoc_lookup(keys: Seq<(Seq<char>, u64)>, vals: Seq<u64>, k: (Seq<char>, u64)) -> Option<u64>
    decreases keys.len(),
{
    if keys.len() == 0 || vals.len() == 0 {
        None
    } else if keys[0] == k {
        Some(vals[0])
    } else {
        assoc_lookup(keys.subrange(1, keys.len() as int), vals.subrange(1, vals.len() as int), k)
    }
}

/// A served handle is one of the held ones.
proof fn lemma_assoc_lookup_held(
    keys: Seq<(Seq<char>, u64)>,
    vals: Seq<u64>,
    k: (Seq<char>, u64),
)
    requires
        assoc_lookup(keys, vals, k) is Some,
    ensures
        exists|j: int|
            0 <= j < vals.len() && vals[j] == assoc_lookup(keys, vals, k)->Some_0,
    decreases keys.len(),
{
    if keys.len() > 0 && vals.len() > 0 {
        if keys[0] != k {
            lemma_assoc_lookup_held(
                keys.subrange(1, keys.len() as int),
                vals.subrange(1, vals.len() as int),
                k,
            );
            let j = choose|j: int|
                0 <= j < vals.len() - 1 && vals.subrange(1, vals.len() as int)[j] == assoc_lookup(
                    keys,
                    vals,
                    k,
                )->Some_0;
            assert(vals[j + 1] == assoc_lookup(keys, vals, k)->Some_0);
        }
    }
}

/// Appending a fresh pair leaves present keys alone and serves the new one.
proof fn lemma_assoc_push(
    keys: Seq<(Seq<char>, u64)>,
    vals: Seq<u64>,
    kk: (Seq<char>, u64),
    h: u64,
    q: (Seq<char>, u64),
)
    requires
        keys.len() == vals.len(),
    ensures
        assoc_lookup(keys.push(kk), vals.push(h), q) == (match assoc_lookup(keys, vals, q) {
            Some(v) => Some(v),
            None => if q == kk {
                Some(h)
            } else {
                None
            },
        }),
    decreases keys.len(),
{
    if keys.len() == 0 {
        assert(keys.push(kk)[0] == kk);
        assert(vals.push(h)[0] == h);
        assert(keys.push(kk).subrange(1, 1) =~= Seq::<(Seq<char>, u64)>::empty());
        assert(vals.push(h).subrange(1, 1) =~= Seq::<u64>::empty());
        assert(assoc_lookup(keys, vals, q) is None);
        reveal_with_fuel(assoc_lookup, 3);
        if q == kk {
            assert(assoc_lookup(keys.push(kk), vals.push(h), q) == Some(h));
        } else {
            assert(assoc_lookup(keys.push(kk), vals.push(h), q) is None);
        }
    } else {
        lemma_assoc_push(
            keys.subrange(1, keys.len() as int),
            vals.subrange(1, vals.len() as int),
            kk,
            h,
            q,
        );
        assert(keys.push(kk).subrange(1, keys.len() as int + 1) =~= keys.subrange(
            1,
            keys.len() as int,
        ).push(kk));
        assert(vals.push(h).subrange(1, vals.len() as int + 1) =~= vals.subrange(
            1,
            vals.len() as int,
        ).push(h));
        assert(keys.push(kk)[0] == keys[0]);
        assert(vals.push(h)[0] == vals[0]);
        if keys[0] == q {
            assert(assoc_lookup(keys.push(kk), vals.push(h), q) == Some(vals[0]));
            assert(assoc_lookup(keys, vals, q) == Some(vals[0]));
        } else {
            assert(assoc_lookup(keys.push(kk), vals.push(h), q) == assoc_lookup(
                keys.subrange(1, keys.len() as int).push(kk),
                vals.subrange(1, vals.len() as int).push(h),
                q,
            ));
            assert(assoc_lookup(keys, vals, q) == assoc_lookup(
                keys.subrange(1, keys.len() as int),
                vals.subrange(1, vals.len() as int),
                q,
            ));
        }
    }
}

/// The keyed cache of simulated-chain instances. It maps each fork key to
/// the handle of the one instance built for it, and counts constructions:
/// repeated acquisition of one key reuses the handle and builds nothing.
pub struct ForkCache {
    keys: Vec<ForkKey>,
    handles: Vec<u64>,
    built: u64,
}

impl ForkCache {
    /// The cache is well formed: one handle per key, every held handle
    /// below the construction counter. Constructors establish it and every
    /// method keeps it.
    pub closed spec fn wf(self) -> bool {
        &&& self.keys@.len() == self.handles@.len()
        &&& forall|i: int| 0 <= i < self.handles@.len() ==> self.handles@[i] < self.built
    }

    /// The handle mapped to a key, front entry first.
    pub closed spec fn lookup(&self, k: (Seq<char>, u64)) -> Option<u64> {
        assoc_lookup(self.keys@.map_values(|kk: ForkKey| kk@), self.handles@, k)
    }

    /// How many instance constructions the cache has ever asked for.
    pub closed spec fn construction_count(&self) -> u64 {
        self.built
    }

    /// Reads the construction counter.
    pub fn constructions(&self) -> (r: u64)
        ensures
            r == self.construction_count(),
    {
        self.built
    }

    /// An empty cache: no instance yet, none constructed.
    pub fn new() -> (r: ForkCache)
        ensures
            r.wf(),
            forall|k: (Seq<char>, u64)| r.lookup(k) is None,
            r.construction_count() == 0,
    {
        let r = ForkCache { keys: Vec::new(), handles: Vec::new(), built: 0 };
        proof {
            assert(forall|k: (Seq<char>, u64)| r.lookup(k) is None) by {
                assert(r.keys@.map_values(|kk: ForkKey| kk@).len() == 0);
            }
        }
        r
    }

    /// The handle of the instance held for a key, if one was built.
    #[verifier::loop_isolation(false)]
    pub fn find(&self, key: &ForkKey) -> (r: Option<u64>)
        requires
            self.wf(),
        ensures
            r == self.lookup(key@),
    {
        let ghost kviews = self.keys@.map_values(|kk: ForkKey| kk@);
        let n = self.keys.len();
        proof {
            assert(kviews.subrange(0, n as int) =~= kviews);
            assert(self.handles@.subrange(0, n as int) =~= self.handles@);
        }
        let mut i: usize = 0;
        while i < n
            invariant
                i <= n,
                assoc_lookup(kviews, self.handles@, key@) == assoc_lookup(
                    kviews.subrange(i as int, n as int),
                    self.handles@.subrange(i as int, n as int),
                    key@,
                ),
            decreases n - i,
        {
            let k = &self.keys[i];
            proof {
                assert(kviews.subrange(i as int, n as int)[0] == kviews[i as int]);
                assert(kviews[i as int] == self.keys@[i as int]@);
            }
            if k.endpoint == key.endpoint && k.block_number == key.block_number {
                proof {
                    assert(kviews[i as int] == key@);
                }
                return Some(self.handles[i]);
            }
            proof {
                let rest_k = kviews.subrange(i as int, n as int);
                let rest_v = self.handles@.subrange(i as int, n as int);
                assert(rest_k.subrange(1, rest_k.len() as int) =~= kviews.subrange(
                    i + 1,
                    n as int,
                ));
                assert(rest_v.subrange(1, rest_v.len() as int) =~= self.handles@.subrange(
                    i + 1,
                    n as int,
                ));
                assert(kviews[i as int] != key@);
            }
            i += 1;
        }
        None
    }

    /// Serves the instance handle for a key: the held one where the key is
    /// cached — nothing is constructed then — and a fresh handle otherwise,
    /// counted as one construction. The second component says whether the
    /// caller must build the instance for the handle.
    #[verifier::loop_isolation(false)]
    pub fn acquire(&mut self, key: &ForkKey) -> (r: (u64, bool))
        requires
            old(self).wf(),
            old(self).construction_count() < 0xffff_ffff_ffff_ffff,
        ensures
            final(self).wf(),
            match old(self).lookup(key@) {
                Some(h) => {
                    &&& r == (h, false)
                    &&& final(self).construction_count() == old(self).construction_count()
                    &&& forall|q: (Seq<char>, u64)| final(self).lookup(q) == old(self).lookup(q)
                },
                None => {
                    &&& r.1 == true
                    &&& final(self).construction_count() == old(self).construction_count() + 1
                    &&& final(self).lookup(key@) == Some(r.0)
                    &&& forall|q: (Seq<char>, u64)|
                        q != key@ ==> final(self).lookup(q) == old(self).lookup(q)
                    &&& forall|q: (Seq<char>, u64)|
                        q != key@ ==> final(self).lookup(q) != Some(r.0)
                },
            },
    {
        match self.find(key) {
            Some(h) => (h, false),
            None => {
                let h = self.built;
                let ghost old_keys = self.keys@.map_values(|kk: ForkKey| kk@);
                let ghost old_vals = self.handles@;
                let ghost old_built = self.built;
                self.keys.push(key.clone());
                self.handles.push(h);
                self.built = self.built + 1;
                proof {
                    assert(self.keys@.map_values(|kk: ForkKey| kk@) =~= old_keys.push(key@));
                    assert(forall|q: (Seq<char>, u64)| #[trigger] self.lookup(q) == (match
                        assoc_lookup(old_keys, old_vals, q) {
                        Some(v) => Some(v),
                        None => if q == key@ {
                            Some(h)
                        } else {
                            None
                        },
                    })) by {
                        assert forall|q: (Seq<char>, u64)| true implies #[trigger] self.lookup(q)
                            == (match assoc_lookup(old_keys, old_vals, q) {
                            Some(v) => Some(v),
                            None => if q == key@ {
                                Some(h)
                            } else {
                                None
                            },
                        }) by {
                            lemma_assoc_push(old_keys, old_vals, key@, h, q);
                        }
                    }
                    assert forall|q: (Seq<char>, u64)| q != key@ implies self.lookup(q) != Some(
                        h,
                    ) by {
                        if self.lookup(q) is Some {
                            if assoc_lookup(old_keys, old_vals, q) is Some {
                                lemma_assoc_lookup_held(old_keys, old_vals, q);
                            }
                        }
                    }
                }
                (h, true)
            },
        }
    }
}

/// Classifies what a simulated call produced: returned bytes pass through,
/// and failure bytes are decoded against the registry, falling back to the
/// raw bytes where no entry matches or the payload is malformed. A decode
/// failure never fails the simulation.
pub fn classify_call_result(
    reverted: bool,
    output: Vec<u8>,
    registry: &SelectorRegistry,
) -> (r: SimulationOutcome)
    ensures
        if reverted {
            match revert_decode_spec(output@, registry.entries@) {
                Ok(v) => r matches SimulationOutcome::Reverted(RevertPayload::Decoded(e))
                    && decoded_matches(e, v),
                Err(_) => r matches SimulationOutcome::Reverted(RevertPayload::Raw(b)) && b@
                    == output@,
            }
        } else {
            r matches SimulationOutcome::Returned(b) && b@ == output@
        },
{
    if reverted {
        match crate::revert::decode_revert(&output, registry) {
            Ok(e) => SimulationOutcome::Reverted(RevertPayload::Decoded(e)),
            Err(_) => SimulationOutcome::Reverted(RevertPayload::Raw(output)),
        }
    } else {
        SimulationOutcome::Returned(output)
    }
}

} // verus!
