use crate::key::StoreFSTKey;
use vstd::prelude::*;

verus! {

/// Keys of the graphs waiting for consolidation, held in a hash set of
/// hashbrown's as pairs of atoms.
#[verifier::external_body]
pub struct ConsolidationRegister {
    keys: hashbrown::HashSet<(u32, u32)>,
}

/// The keys that a register holds.
pub uninterp spec fn register_keys(r: ConsolidationRegister) -> Set<StoreFSTKey>;

impl ConsolidationRegister {
    pub open spec fn view(&self) -> Set<StoreFSTKey> {
        register_keys(*self)
    }

    /// A register holds finitely many keys.
    pub open spec fn wf(&self) -> bool {
        self@.finite()
    }

    /// Relies on hashbrown's `HashSet::new`: an empty set.
    #[verifier::external_body]
    pub(crate) fn new() -> (r: ConsolidationRegister)
        ensures
            register_keys(r) == Set::<StoreFSTKey>::empty(),
    {
        ConsolidationRegister { keys: hashbrown::HashSet::new() }
    }

    /// Relies on hashbrown's `HashSet::len`: the number of distinct keys.
    #[verifier::external_body]
    pub(crate) fn len(&self) -> (r: usize)
        ensures
            r == register_keys(*self).len(),
    {
        self.keys.len()
    }

    /// Relies on hashbrown's `HashSet::contains`.
    #[verifier::external_body]
    pub(crate) fn contains(&self, key: &StoreFSTKey) -> (r: bool)
        ensures
            r == register_keys(*self).contains(*key),
    {
        self.keys.contains(&(key.collection_hash, key.bucket_hash))
    }

    /// Relies on hashbrown's `HashSet::insert`.
    #[verifier::external_body]
    pub(crate) fn insert(&mut self, key: StoreFSTKey)
        ensures
            register_keys(*final(self)) == register_keys(*old(self)).insert(key),
            register_keys(*old(self)).finite() ==> register_keys(*final(self)).finite(),
    {
        self.keys.insert((key.collection_hash, key.bucket_hash));
    }

    /// Relies on hashbrown's `HashSet::remove`.
    #[verifier::external_body]
    pub(crate) fn remove(&mut self, key: &StoreFSTKey)
        ensures
            register_keys(*final(self)) == register_keys(*old(self)).remove(*key),
            register_keys(*old(self)).finite() ==> register_keys(*final(self)).finite(),
    {
        self.keys.remove(&(key.collection_hash, key.bucket_hash));
    }

    /// Relies on hashbrown's `HashSet::iter`: each key, in no given order.
    #[verifier::external_body]
    pub(crate) fn to_vec(&self) -> (r: Vec<StoreFSTKey>)
        ensures
            forall|k: StoreFSTKey| r@.contains(k) <==> register_keys(*self).contains(k),
    {
        self.keys.iter().map(|&(c, b)| StoreFSTKey::from_atom(c, b)).collect()
    }
}

} // verus!
