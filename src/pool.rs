use crate::action::{StoreFSTAction, StoreFSTActionBuilder};
use crate::consolidate::{consolidate_item, merged, target_set, ConsolidateCounts, ConsolidateItem};
use crate::graph::{StoreFST, StoreFSTConfig};
use crate::key::{
    atom_of, path_of, to_compact, StoreFSTAtom, StoreFSTBuilder, StoreFSTKey, StoreFSTPathMode,
};
use crate::outside::{decoded_terms, readable, sealed};
use crate::register::ConsolidationRegister;
use crate::terms::lemma_push_contains;
use vstd::prelude::*;
use vstd::string::StringSliceAdditionalSpecFns;

verus! {

/// The live handles, keyed by graph key, held in a hash map of hashbrown's
/// keyed by the pair of atoms.
#[verifier::external_body]
pub struct HandleMap {
    inner: hashbrown::HashMap<(u32, u32), StoreFSTAction>,
}

/// The handles that a handle map holds.
pub uninterp spec fn handles(m: HandleMap) -> Map<StoreFSTKey, StoreFSTAction>;

impl HandleMap {
    pub open spec fn view(&self) -> Map<StoreFSTKey, StoreFSTAction> {
        handles(*self)
    }

    /// Relies on hashbrown's `HashMap::new`: an empty map.
    #[verifier::external_body]
    pub(crate) fn new() -> (r: HandleMap)
        ensures
            handles(r).dom() == Set::<StoreFSTKey>::empty(),
    {
        HandleMap { inner: hashbrown::HashMap::new() }
    }

    /// Relies on hashbrown's `HashMap::len`: the number of keys.
    #[verifier::external_body]
    pub(crate) fn len(&self) -> (r: usize)
        ensures
            r == handles(*self).len(),
    {
        self.inner.len()
    }

    /// Relies on hashbrown's `HashMap::get`.
    #[verifier::external_body]
    pub(crate) fn get(&self, key: &StoreFSTKey) -> (r: Option<&StoreFSTAction>)
        ensures
            r is Some <==> handles(*self).contains_key(*key),
            r matches Some(a) ==> *a == handles(*self)[*key],
    {
        self.inner.get(&(key.collection_hash, key.bucket_hash))
    }

    /// Relies on hashbrown's `HashMap::insert`.
    #[verifier::external_body]
    pub(crate) fn insert(&mut self, key: StoreFSTKey, action: StoreFSTAction)
        ensures
            handles(*final(self)) == handles(*old(self)).insert(key, action),
            handles(*old(self)).dom().finite() ==> handles(*final(self)).dom().finite(),
    {
        self.inner.insert((key.collection_hash, key.bucket_hash), action);
    }

    /// Relies on hashbrown's `HashMap::remove`.
    #[verifier::external_body]
    pub(crate) fn remove(&mut self, key: &StoreFSTKey) -> (r: Option<StoreFSTAction>)
        ensures
            handles(*final(self)) == handles(*old(self)).remove(*key),
            handles(*old(self)).dom().finite() ==> handles(*final(self)).dom().finite(),
            r is Some <==> handles(*old(self)).contains_key(*key),
            r matches Some(a) ==> a == handles(*old(self))[*key],
    {
        self.inner.remove(&(key.collection_hash, key.bucket_hash))
    }

    /// Relies on hashbrown's `HashMap::keys`: each key, in no given order.
    #[verifier::external_body]
    pub(crate) fn keys(&self) -> (r: Vec<StoreFSTKey>)
        ensures
            forall|k: StoreFSTKey| r@.contains(k) <==> handles(*self).contains_key(k),
    {
        self.inner.keys().map(|&(c, b)| StoreFSTKey::from_atom(c, b)).collect()
    }
}

/// Seconds from `then` to `now`, none where the clock went back.
pub open spec fn elapsed(now: u64, then: u64) -> int {
    if now >= then {
        now - then
    } else {
        0
    }
}

/// `bytes` encodes what consolidating the handle `a` should give.
pub open spec fn consolidates(a: StoreFSTAction, bytes: Seq<u8>, config: StoreFSTConfig) -> bool {
    &&& sealed(bytes)
    &&& exists|c: ConsolidateCounts|
        merged(decoded_terms(bytes), target_set(a.terms(), a.push_set(), a.pop_set()), c, config)
}

/// Some entry of `out` is given for `k`.
pub open spec fn listed(out: Seq<(StoreFSTKey, Vec<u8>)>, k: StoreFSTKey) -> bool {
    exists|i: int| 0 <= i < out.len() && (#[trigger] out[i]).0 == k
}

/// The journal of `a` holds nothing.
pub open spec fn settled(a: StoreFSTAction) -> bool {
    a.push_set().is_empty() && a.pop_set().is_empty()
}

/// The handle `a` went unused for `inactive_after` seconds or more at `now`.
pub open spec fn is_idle(a: StoreFSTAction, now: u64, inactive_after: u64) -> bool {
    elapsed(now, a.store.last_used) >= inactive_after
}

/// The graph of `k` is due for consolidation: it is listed, live, and its
/// debounce window has passed (or the run is forced).
pub open spec fn is_due(
    graphs: Map<StoreFSTKey, StoreFSTAction>,
    register: Set<StoreFSTKey>,
    k: StoreFSTKey,
    force: bool,
    now: u64,
    consolidate_after: u64,
) -> bool {
    register.contains(k) && graphs.contains_key(k) && (force || elapsed(
        now,
        graphs[k].store.last_consolidated,
    ) >= consolidate_after)
}

/// The live graphs, keyed by their graph key, and the register of those
/// waiting for consolidation.
pub struct StoreFSTPool {
    pub graphs: HandleMap,
    pub register: ConsolidationRegister,
}

impl StoreFSTPool {
    /// The keys of the live graphs.
    pub open spec fn keys(&self) -> Set<StoreFSTKey> {
        self.graphs@.dom()
    }

    /// Each handle stands under its own key and keeps the journal's rules.
    pub open spec fn wf(&self) -> bool {
        &&& self.register.wf()
        &&& self.graphs@.dom().finite()
        &&& forall|k: StoreFSTKey| #[trigger]
            self.graphs@.contains_key(k) ==> self.graphs@[k].store.target == k
                && self.graphs@[k].wf()
    }

    pub fn new() -> (r: StoreFSTPool)
        ensures
            r.wf(),
            r.keys().is_empty(),
            r.register@.is_empty(),
    {
        StoreFSTPool { graphs: HandleMap::new(), register: ConsolidationRegister::new() }
    }

    /// Number of live graphs and of graphs waiting for consolidation.
    pub fn count(&self) -> (r: (usize, usize))
        requires
            self.wf(),
        ensures
            r.0 == self.keys().len(),
            r.1 == self.register@.len(),
    {
        (self.graphs.len(), self.register.len())
    }

    pub fn contains(&self, key: &StoreFSTKey) -> (r: bool)
        ensures
            r == self.keys().contains(*key),
    {
        self.graphs.get(key).is_some()
    }

    /// The live graph of `key`.
    pub fn get(&self, key: &StoreFSTKey) -> (r: Option<&StoreFSTAction>)
        ensures
            r is Some <==> self.keys().contains(*key),
            r matches Some(a) ==> *a == self.graphs@[*key],
    {
        self.graphs.get(key)
    }

    /// Bumps the use time of the live graph of `key` to `now`; `false` where
    /// it must first be opened and added.
    pub fn acquire(&mut self, key: &StoreFSTKey, now: u64) -> (r: bool)
        requires
            old(self).wf(),
        ensures
            final(self).wf(),
            final(self).register == old(self).register,
            final(self).keys() == old(self).keys(),
            r == old(self).keys().contains(*key),
            forall|k: StoreFSTKey|
                k != *key && old(self).keys().contains(k) ==> final(self).graphs@[k] == old(
                    self,
                ).graphs@[k],
            r ==> ({
                let a = final(self).graphs@[*key];
                let b = old(self).graphs@[*key];
                &&& a.store.last_used == now
                &&& a.store.graph == b.store.graph
                &&& a.store.target == b.store.target
                &&& a.store.pending == b.store.pending
                &&& a.store.last_consolidated == b.store.last_consolidated
            }),
    {
        match self.graphs.remove(key) {
            Some(mut action) => {
                action.store.last_used = now;
                self.graphs.insert(*key, action);
                proof {
                    assert(self.keys() =~= old(self).keys());
                }
                true
            },
            None => {
                proof {
                    assert(self.graphs@ =~= old(self).graphs@);
                }
                false
            },
        }
    }

    /// Adds the graph of `key`, opened as `graph`, with an empty journal.
    pub fn insert(&mut self, key: StoreFSTKey, graph: fst::Set, now: u64)
        requires
            old(self).wf(),
            !old(self).keys().contains(key),
            readable(graph),
        ensures
            final(self).wf(),
            final(self).keys() == old(self).keys().insert(key),
            final(self).register == old(self).register,
            final(self).graphs@[key].store.graph == graph,
            settled(final(self).graphs@[key]),
            forall|k: StoreFSTKey|
                k != key && old(self).keys().contains(k) ==> final(self).graphs@[k] == old(
                    self,
                ).graphs@[k],
    {
        let store = StoreFST::new(key, graph, now);
        self.graphs.insert(key, StoreFSTAction { store });
    }

    /// Takes the live graph of `key` out of the pool, to work on it.
    pub fn take(&mut self, key: &StoreFSTKey) -> (r: Option<StoreFSTAction>)
        requires
            old(self).wf(),
        ensures
            final(self).wf(),
            final(self).graphs@ == old(self).graphs@.remove(*key),
            final(self).register == old(self).register,
            r is Some <==> old(self).keys().contains(*key),
            r matches Some(a) ==> a == old(self).graphs@[*key] && a.wf() && a.store.target
                == *key,
    {
        self.graphs.remove(key)
    }

    /// Puts a graph taken out of the pool back under its key.
    pub fn put(&mut self, action: StoreFSTAction)
        requires
            old(self).wf(),
            action.wf(),
        ensures
            final(self).wf(),
            final(self).graphs@ == old(self).graphs@.insert(action.store.target, action),
            final(self).register == old(self).register,
    {
        let key = action.store.target;
        self.graphs.insert(key, action);
    }

    /// Drops the handle of `key`, if it is live; its listing stays.
    pub fn evict(&mut self, key: &StoreFSTKey)
        requires
            old(self).wf(),
        ensures
            final(self).wf(),
            final(self).graphs@ == old(self).graphs@.remove(*key),
            final(self).register == old(self).register,
    {
        self.graphs.remove(key);
    }

    /// Closes the graph of a key: drops its handle and its listing.
    pub fn close(&mut self, collection_hash: StoreFSTAtom, bucket_hash: StoreFSTAtom)
        requires
            old(self).wf(),
        ensures
            final(self).wf(),
            final(self).graphs@ == old(self).graphs@.remove(
                StoreFSTKey::from_atom_spec(collection_hash, bucket_hash),
            ),
            final(self).register@ == old(self).register@.remove(
                StoreFSTKey::from_atom_spec(collection_hash, bucket_hash),
            ),
    {
        let key = StoreFSTKey::from_atom(collection_hash, bucket_hash);
        self.register.remove(&key);
        self.graphs.remove(&key);
    }

    /// Closes the graphs of every key in `keys`.
    pub fn close_all(&mut self, keys: &Vec<StoreFSTKey>)
        requires
            old(self).wf(),
        ensures
            final(self).wf(),
            forall|k: StoreFSTKey|
                #[trigger] final(self).keys().contains(k) <==> (old(self).keys().contains(k)
                    && !keys@.contains(k)),
            forall|k: StoreFSTKey|
                #[trigger] final(self).register@.contains(k) <==> (old(self).register@.contains(k)
                    && !keys@.contains(k)),
    {
        let mut t: usize = 0;
        while t < keys.len()
            invariant
                0 <= t <= keys@.len(),
                self.wf(),
                forall|k: StoreFSTKey|
                    #[trigger] self.keys().contains(k) <==> (old(self).keys().contains(k)
                        && !keys@.subrange(0, t as int).contains(k)),
                forall|k: StoreFSTKey|
                    #[trigger] self.register@.contains(k) <==> (old(self).register@.contains(k)
                        && !keys@.subrange(0, t as int).contains(k)),
            decreases keys@.len() - t,
        {
            let k = keys[t];
            let ghost pk = self.keys();
            let ghost pr = self.register@;
            self.close(k.collection_hash, k.bucket_hash);
            proof {
                assert(StoreFSTKey::from_atom_spec(k.collection_hash, k.bucket_hash) == k);
                assert(keys@.subrange(0, t + 1) =~= keys@.subrange(0, t as int).push(k));
                assert forall|x: StoreFSTKey|
                    #[trigger] self.keys().contains(x) <==> (old(self).keys().contains(x)
                        && !keys@.subrange(0, t + 1).contains(x)) by {
                    lemma_push_contains(keys@.subrange(0, t as int), k, x);
                    assert(pk.contains(x) <==> (old(self).keys().contains(x)
                        && !keys@.subrange(0, t as int).contains(x)));
                }
                assert forall|x: StoreFSTKey|
                    #[trigger] self.register@.contains(x) <==> (old(self).register@.contains(x)
                        && !keys@.subrange(0, t + 1).contains(x)) by {
                    lemma_push_contains(keys@.subrange(0, t as int), k, x);
                    assert(pr.contains(x) <==> (old(self).register@.contains(x)
                        && !keys@.subrange(0, t as int).contains(x)));
                }
            }
            t = t + 1;
        }
        proof {
            assert(keys@.subrange(0, t as int) =~= keys@);
        }
    }

    /// Keys of the live graphs of a collection.
    pub fn collection_keys(&self, collection_hash: StoreFSTAtom) -> (r: Vec<StoreFSTKey>)
        ensures
            forall|k: StoreFSTKey|
                r@.contains(k) <==> (self.keys().contains(k) && k.collection_hash == collection_hash),
    {
        let all = self.graphs.keys();
        let mut r: Vec<StoreFSTKey> = Vec::new();
        let mut i: usize = 0;
        while i < all.len()
            invariant
                0 <= i <= all@.len(),
                forall|k: StoreFSTKey| all@.contains(k) <==> self.keys().contains(k),
                forall|k: StoreFSTKey|
                    r@.contains(k) <==> (all@.subrange(0, i as int).contains(k) && k.collection_hash
                        == collection_hash),
            decreases all@.len() - i,
        {
            let k = all[i];
            let ghost before = r@;
            if k.collection_hash == collection_hash {
                r.push(k);
            }
            proof {
                assert(all@.subrange(0, i + 1) =~= all@.subrange(0, i as int).push(k));
                assert forall|x: StoreFSTKey|
                    r@.contains(x) <==> (all@.subrange(0, i + 1).contains(x) && x.collection_hash
                        == collection_hash) by {
                    lemma_push_contains(all@.subrange(0, i as int), k, x);
                    if r@ != before {
                        lemma_push_contains(before, k, x);
                    }
                }
            }
            i = i + 1;
        }
        proof {
            assert(all@.subrange(0, i as int) =~= all@);
        }
        r
    }

    /// Keys of the handles idle for `inactive_after` seconds or more at `now`.
    pub fn idle_keys(&self, now: u64, inactive_after: u64) -> (r: Vec<StoreFSTKey>)
        ensures
            forall|k: StoreFSTKey|
                r@.contains(k) <==> (self.keys().contains(k) && is_idle(
                    self.graphs@[k],
                    now,
                    inactive_after,
                )),
    {
        let all = self.graphs.keys();
        let mut r: Vec<StoreFSTKey> = Vec::new();
        let mut i: usize = 0;
        while i < all.len()
            invariant
                0 <= i <= all@.len(),
                forall|k: StoreFSTKey| all@.contains(k) <==> self.keys().contains(k),
                forall|k: StoreFSTKey|
                    r@.contains(k) <==> (all@.subrange(0, i as int).contains(k) && self.keys().contains(k)
                        && is_idle(self.graphs@[k], now, inactive_after)),
            decreases all@.len() - i,
        {
            let k = all[i];
            let ghost before = r@;
            proof {
                assert(all@.contains(k));
            }
            match self.graphs.get(&k) {
                Some(action) => {
                    let used = action.store.last_used;
                    let idle = if now >= used {
                        now - used >= inactive_after
                    } else {
                        inactive_after == 0
                    };
                    if idle {
                        r.push(k);
                    }
                },
                None => {},
            }
            proof {
                assert(all@.subrange(0, i + 1) =~= all@.subrange(0, i as int).push(k));
                assert forall|x: StoreFSTKey|
                    r@.contains(x) <==> (all@.subrange(0, i + 1).contains(x) && self.keys().contains(x)
                        && is_idle(self.graphs@[x], now, inactive_after)) by {
                    lemma_push_contains(all@.subrange(0, i as int), k, x);
                    if r@ != before {
                        lemma_push_contains(before, k, x);
                    }
                }
            }
            i = i + 1;
        }
        proof {
            assert(all@.subrange(0, i as int) =~= all@);
        }
        r
    }

    /// Drops every handle idle for `inactive_after` seconds or more at `now`.
    pub fn janitor(&mut self, now: u64, inactive_after: u64)
        requires
            old(self).wf(),
        ensures
            final(self).wf(),
            final(self).register == old(self).register,
            forall|k: StoreFSTKey|
                #[trigger] final(self).keys().contains(k) <==> (old(self).keys().contains(k)
                    && !is_idle(old(self).graphs@[k], now, inactive_after)),
            forall|k: StoreFSTKey|
                #[trigger] final(self).keys().contains(k) ==> final(self).graphs@[k] == old(
                    self,
                ).graphs@[k],
    {
        let idle = self.idle_keys(now, inactive_after);
        let mut t: usize = 0;
        while t < idle.len()
            invariant
                0 <= t <= idle@.len(),
                self.wf(),
                self.register == old(self).register,
                forall|k: StoreFSTKey|
                    idle@.contains(k) <==> (old(self).keys().contains(k) && is_idle(
                        old(self).graphs@[k],
                        now,
                        inactive_after,
                    )),
                forall|k: StoreFSTKey|
                    #[trigger] self.keys().contains(k) <==> (old(self).keys().contains(k)
                        && !idle@.subrange(0, t as int).contains(k)),
                forall|k: StoreFSTKey|
                    #[trigger] self.keys().contains(k) ==> self.graphs@[k] == old(self).graphs@[k],
            decreases idle@.len() - t,
        {
            let ghost pk = self.keys();
            self.evict(&idle[t]);
            proof {
                let k = idle@[t as int];
                assert(idle@.subrange(0, t + 1) =~= idle@.subrange(0, t as int).push(k));
                assert forall|x: StoreFSTKey|
                    #[trigger] self.keys().contains(x) <==> (old(self).keys().contains(x)
                        && !idle@.subrange(0, t + 1).contains(x)) by {
                    lemma_push_contains(idle@.subrange(0, t as int), k, x);
                    assert(pk.contains(x) <==> (old(self).keys().contains(x)
                        && !idle@.subrange(0, t as int).contains(x)));
                }
            }
            t = t + 1;
        }
        proof {
            assert(idle@.subrange(0, t as int) =~= idle@);
        }
    }

    /// Listed keys whose graph is due for consolidation.
    pub fn due_keys(&self, force: bool, now: u64, consolidate_after: u64) -> (r: Vec<StoreFSTKey>)
        ensures
            forall|k: StoreFSTKey|
                r@.contains(k) <==> is_due(
                    self.graphs@,
                    self.register@,
                    k,
                    force,
                    now,
                    consolidate_after,
                ),
    {
        let listed = self.register.to_vec();
        let mut r: Vec<StoreFSTKey> = Vec::new();
        let mut t: usize = 0;
        while t < listed.len()
            invariant
                0 <= t <= listed@.len(),
                forall|k: StoreFSTKey| listed@.contains(k) <==> self.register@.contains(k),
                forall|k: StoreFSTKey|
                    r@.contains(k) <==> (listed@.subrange(0, t as int).contains(k) && is_due(
                        self.graphs@,
                        self.register@,
                        k,
                        force,
                        now,
                        consolidate_after,
                    )),
            decreases listed@.len() - t,
        {
            let k = listed[t];
            let ghost before = r@;
            proof {
                assert(listed@.contains(k));
            }
            match self.graphs.get(&k) {
                Some(action) => {
                    let lc = action.store.last_consolidated;
                    let due = force || if now >= lc {
                        now - lc >= consolidate_after
                    } else {
                        consolidate_after == 0
                    };
                    if due {
                        r.push(k);
                    }
                },
                None => {},
            }
            proof {
                assert(listed@.subrange(0, t + 1) =~= listed@.subrange(0, t as int).push(k));
                assert forall|x: StoreFSTKey|
                    r@.contains(x) <==> (listed@.subrange(0, t + 1).contains(x) && is_due(
                        self.graphs@,
                        self.register@,
                        x,
                        force,
                        now,
                        consolidate_after,
                    )) by {
                    lemma_push_contains(listed@.subrange(0, t as int), k, x);
                    if r@ != before {
                        lemma_push_contains(before, k, x);
                    }
                }
            }
            t = t + 1;
        }
        proof {
            assert(listed@.subrange(0, t as int) =~= listed@);
        }
        r
    }

    /// Consolidates the graph of `key`, if it is live: its journal is emptied
    /// whatever the outcome; where a new set was built, its encoding is
    /// returned and the handle is dropped, to be opened again on the new set.
    pub fn consolidate_key(&mut self, key: &StoreFSTKey, config: &StoreFSTConfig) -> (r: Option<
        Vec<u8>,
    >)
        requires
            old(self).wf(),
        ensures
            final(self).wf(),
            final(self).register == old(self).register,
            forall|k: StoreFSTKey|
                k != *key ==> (#[trigger] final(self).keys().contains(k) == old(self).keys().contains(
                    k,
                ) && (old(self).keys().contains(k) ==> final(self).graphs@[k] == old(
                    self,
                ).graphs@[k])),
            final(self).keys().contains(*key) ==> old(self).keys().contains(*key) && settled(
                final(self).graphs@[*key],
            ) && final(self).graphs@[*key].store.graph == old(self).graphs@[*key].store.graph,
            old(self).keys().contains(*key) && !settled(old(self).graphs@[*key]) ==> r is Some,
            r matches Some(bytes) ==> old(self).keys().contains(*key)
                && !final(self).keys().contains(*key) && !settled(old(self).graphs@[*key])
                && consolidates(old(self).graphs@[*key], bytes@, *config),
    {
        match self.graphs.remove(key) {
            None => {
                proof {
                    assert(self.graphs@ =~= old(self).graphs@);
                }
                None
            },
            Some(mut action) => {
                let ghost a0 = action;
                proof {
                    assert(old(self).graphs@.contains_key(*key));
                }
                let item = consolidate_item(&mut action.store, config);
                match item {
                    ConsolidateItem::Built(bytes, counts) => {
                        proof {
                            assert(merged(
                                decoded_terms(bytes@),
                                target_set(a0.terms(), a0.push_set(), a0.pop_set()),
                                counts,
                                *config,
                            ));
                        }
                        Some(bytes)
                    },
                    _ => {
                        proof {
                            assert(action.wf());
                        }
                        self.graphs.insert(*key, action);
                        None
                    },
                }
            },
        }
    }
}

impl StoreFSTPool {
    /// One consolidation run: every due graph is taken off the register and
    /// its journal merged; the encodings of the new sets are returned with
    /// their keys, to be installed, and their handles are dropped. Graphs
    /// that are not due are left as they were.
    pub fn consolidate(&mut self, force: bool, now: u64, config: &StoreFSTConfig) -> (r: Vec<
        (StoreFSTKey, Vec<u8>),
    >)
        requires
            old(self).wf(),
        ensures
            final(self).wf(),
            forall|k: StoreFSTKey|
                #[trigger] final(self).register@.contains(k) <==> (old(self).register@.contains(k)
                    && !is_due(
                    old(self).graphs@,
                    old(self).register@,
                    k,
                    force,
                    now,
                    config.consolidate_after,
                )),
            forall|k: StoreFSTKey|
                #[trigger] final(self).keys().contains(k) ==> old(self).keys().contains(k) && (
                is_due(
                    old(self).graphs@,
                    old(self).register@,
                    k,
                    force,
                    now,
                    config.consolidate_after,
                ) ==> settled(final(self).graphs@[k])),
            forall|i: int|
                0 <= i < r@.len() ==> old(self).keys().contains((#[trigger] r@[i]).0)
                    && consolidates(old(self).graphs@[r@[i].0], r@[i].1@, *config)
                    && !settled(old(self).graphs@[r@[i].0]) && is_due(
                    old(self).graphs@,
                    old(self).register@,
                    r@[i].0,
                    force,
                    now,
                    config.consolidate_after,
                ),
            forall|k: StoreFSTKey|
                #[trigger] final(self).keys().contains(k) ==> final(self).graphs@[k].store.graph
                    == old(self).graphs@[k].store.graph,
            forall|k: StoreFSTKey|
                is_due(
                    old(self).graphs@,
                    old(self).register@,
                    k,
                    force,
                    now,
                    config.consolidate_after,
                ) && !settled(old(self).graphs@[k]) ==> !final(self).keys().contains(k) && listed(
                    r@,
                    k,
                ),
            forall|k: StoreFSTKey|
                !is_due(
                    old(self).graphs@,
                    old(self).register@,
                    k,
                    force,
                    now,
                    config.consolidate_after,
                ) ==> (final(self).keys().contains(k) == old(self).keys().contains(k) && (old(
                    self,
                ).keys().contains(k) ==> final(self).graphs@[k] == old(self).graphs@[k])),
    {
        let due = self.due_keys(force, now, config.consolidate_after);
        let ghost start = self.register@;
        let mut t: usize = 0;
        while t < due.len()
            invariant
                0 <= t <= due@.len(),
                self.wf(),
                self.graphs@ == old(self).graphs@,
                start == old(self).register@,
                forall|k: StoreFSTKey|
                    due@.contains(k) <==> is_due(
                        old(self).graphs@,
                        start,
                        k,
                        force,
                        now,
                        config.consolidate_after,
                    ),
                forall|k: StoreFSTKey|
                    #[trigger] self.register@.contains(k) <==> (start.contains(k)
                        && !due@.subrange(0, t as int).contains(k)),
            decreases due@.len() - t,
        {
            let ghost prevr = self.register@;
            self.register.remove(&due[t]);
            proof {
                let k = due@[t as int];
                assert(due@.subrange(0, t + 1) =~= due@.subrange(0, t as int).push(k));
                assert forall|x: StoreFSTKey|
                    #[trigger] self.register@.contains(x) <==> (start.contains(x)
                        && !due@.subrange(0, t + 1).contains(x)) by {
                    lemma_push_contains(due@.subrange(0, t as int), k, x);
                    assert(prevr.contains(x) <==> (start.contains(x) && !due@.subrange(
                        0,
                        t as int,
                    ).contains(x)));
                }
            }
            t = t + 1;
        }
        proof {
            assert(due@.subrange(0, t as int) =~= due@);
        }
        let mut out: Vec<(StoreFSTKey, Vec<u8>)> = Vec::new();
        let mut u: usize = 0;
        while u < due.len()
            invariant
                0 <= u <= due@.len(),
                self.wf(),
                start == old(self).register@,
                forall|k: StoreFSTKey|
                    due@.contains(k) <==> is_due(
                        old(self).graphs@,
                        start,
                        k,
                        force,
                        now,
                        config.consolidate_after,
                    ),
                forall|k: StoreFSTKey|
                    #[trigger] self.register@.contains(k) <==> (start.contains(k)
                        && !due@.contains(k)),
                forall|k: StoreFSTKey|
                    #[trigger] self.keys().contains(k) ==> old(self).keys().contains(k) && (
                    due@.subrange(0, u as int).contains(k) ==> settled(self.graphs@[k])) && (
                    !due@.subrange(0, u as int).contains(k) ==> self.graphs@[k] == old(
                        self,
                    ).graphs@[k]),
                forall|k: StoreFSTKey|
                    old(self).keys().contains(k) && !due@.subrange(0, u as int).contains(k)
                        ==> #[trigger] self.keys().contains(k),
                forall|k: StoreFSTKey|
                    due@.subrange(0, u as int).contains(k) && old(self).keys().contains(k)
                        && !settled(#[trigger] old(self).graphs@[k]) ==> !self.keys().contains(k)
                        && listed(out@, k),
                forall|i: int|
                    0 <= i < out@.len() ==> old(self).keys().contains((#[trigger] out@[i]).0)
                        && consolidates(old(self).graphs@[out@[i].0], out@[i].1@, *config)
                        && !settled(old(self).graphs@[out@[i].0]) && due@.contains(out@[i].0),
                forall|k: StoreFSTKey|
                    #[trigger] self.keys().contains(k) ==> self.graphs@[k].store.graph == old(
                        self,
                    ).graphs@[k].store.graph,
            decreases due@.len() - u,
        {
            let key = due[u];
            let ghost prev = self.graphs@;
            let ghost prev_keys = self.keys();
            let ghost prev_out = out@;
            let built = self.consolidate_key(&key, config);
            let ghost was_built = built is Some;
            match built {
                Some(bytes) => {
                    let ghost bv = bytes@;
                    proof {
                        assert(prev_keys.contains(key));
                        if due@.subrange(0, u as int).contains(key) {
                            assert(settled(prev[key]));
                        }
                        assert(prev[key] == old(self).graphs@[key]);
                    }
                    out.push((key, bytes));
                    proof {
                        assert forall|i: int|
                            0 <= i < out@.len() implies old(self).keys().contains(
                            (#[trigger] out@[i]).0,
                        ) && consolidates(old(self).graphs@[out@[i].0], out@[i].1@, *config)
                            && !settled(old(self).graphs@[out@[i].0]) && due@.contains(
                            out@[i].0,
                        ) by {
                            if i < prev_out.len() {
                                assert(out@[i] == prev_out[i]);
                            } else {
                                assert(out@[i].0 == key && out@[i].1@ == bv);
                            }
                        }
                    }
                },
                None => {},
            }
            proof {
                assert(due@.subrange(0, u + 1) =~= due@.subrange(0, u as int).push(key));
                assert forall|k: StoreFSTKey| #[trigger]
                    self.keys().contains(k) implies old(self).keys().contains(k) && (due@.subrange(
                        0,
                        u + 1,
                    ).contains(k) ==> settled(self.graphs@[k])) && (!due@.subrange(
                        0,
                        u + 1,
                    ).contains(k) ==> self.graphs@[k] == old(self).graphs@[k]) by {
                    lemma_push_contains(due@.subrange(0, u as int), key, k);
                    if k != key {
                        assert(prev_keys.contains(k));
                    }
                }
                assert forall|k: StoreFSTKey|
                    old(self).keys().contains(k) && !due@.subrange(0, u + 1).contains(k)
                        implies #[trigger] self.keys().contains(k) by {
                    lemma_push_contains(due@.subrange(0, u as int), key, k);
                    assert(prev_keys.contains(k));
                }
                assert forall|k: StoreFSTKey|
                    due@.subrange(0, u + 1).contains(k) && old(self).keys().contains(k)
                        && !settled(#[trigger] old(self).graphs@[k]) implies !self.keys().contains(k)
                        && listed(out@, k) by {
                    lemma_push_contains(due@.subrange(0, u as int), key, k);
                    if due@.subrange(0, u as int).contains(k) {
                        assert(listed(prev_out, k));
                        let q = choose|q: int|
                            0 <= q < prev_out.len() && (#[trigger] prev_out[q]).0 == k;
                        assert(out@[q] == prev_out[q]);
                        if k == key {
                            assert(!prev_keys.contains(k));
                        }
                    } else {
                        assert(k == key);
                        assert(prev_keys.contains(k));
                        assert(prev[k] == old(self).graphs@[k]);
                        assert(was_built);
                        assert(out@[out@.len() - 1].0 == k);
                    }
                }
            }
            u = u + 1;
        }
        proof {
            assert(due@.subrange(0, u as int) =~= due@);
            assert forall|k: StoreFSTKey|
                is_due(
                    old(self).graphs@,
                    old(self).register@,
                    k,
                    force,
                    now,
                    config.consolidate_after,
                ) && !settled(old(self).graphs@[k]) implies !self.keys().contains(k) && listed(
                    out@,
                    k,
                ) by {
                assert(due@.contains(k));
                assert(old(self).keys().contains(k));
            }
        }
        out
    }
}

impl StoreFSTActionBuilder {
    /// Erases a collection (`bucket` is `None`) or one bucket of it: closes
    /// the live graphs concerned, takes them off the register, and returns
    /// the path, relative to the store's root, of what is to be removed on
    /// disk.
    pub fn erase(pool: &mut StoreFSTPool, collection: &str, bucket: Option<&str>) -> (r: String)
        requires
            old(pool).wf(),
        ensures
            final(pool).wf(),
            bucket is None ==> r@ == path_of(
                StoreFSTPathMode::Permanent,
                atom_of(collection.spec_bytes()),
                None,
            ),
            bucket is None ==> forall|k: StoreFSTKey|
                #[trigger] final(pool).keys().contains(k) <==> (old(pool).keys().contains(k)
                    && k.collection_hash != atom_of(collection.spec_bytes())),
            bucket is None ==> forall|k: StoreFSTKey|
                #[trigger] final(pool).register@.contains(k) <==> (old(pool).register@.contains(k)
                    && !(old(pool).keys().contains(k) && k.collection_hash == atom_of(
                    collection.spec_bytes(),
                ))),
            bucket matches Some(b) ==> r@ == path_of(
                StoreFSTPathMode::Permanent,
                atom_of(collection.spec_bytes()),
                Some(atom_of(b.spec_bytes())),
            ),
            bucket matches Some(b) ==> final(pool).keys() == old(pool).keys().remove(
                StoreFSTKey::from_atom_spec(
                    atom_of(collection.spec_bytes()),
                    atom_of(b.spec_bytes()),
                ),
            ),
            bucket matches Some(b) ==> final(pool).register@ == old(pool).register@.remove(
                StoreFSTKey::from_atom_spec(
                    atom_of(collection.spec_bytes()),
                    atom_of(b.spec_bytes()),
                ),
            ),
    {
        let collection_atom = to_compact(collection);
        match bucket {
            None => {
                let keys = pool.collection_keys(collection_atom);
                pool.close_all(&keys);
                StoreFSTBuilder::path(StoreFSTPathMode::Permanent, collection_atom, None)
            },
            Some(b) => {
                let bucket_atom = to_compact(b);
                pool.close(collection_atom, bucket_atom);
                proof {
                    assert(pool.keys() =~= old(pool).keys().remove(
                        StoreFSTKey::from_atom_spec(collection_atom, bucket_atom),
                    ));
                }
                StoreFSTBuilder::path(
                    StoreFSTPathMode::Permanent,
                    collection_atom,
                    Some(bucket_atom),
                )
            },
        }
    }
}

} // verus!
