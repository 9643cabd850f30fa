use vstd::prelude::*;

verus! {

/// A set of terms held in a hash set of hashbrown's.
#[verifier::external_body]
pub struct TermSet {
    inner: hashbrown::HashSet<Vec<u8>>,
}

/// The terms that a term set holds.
pub uninterp spec fn term_set(s: TermSet) -> Set<Seq<u8>>;

impl TermSet {
    /// Relies on hashbrown's `HashSet::new`: an empty set.
    #[verifier::external_body]
    pub(crate) fn new() -> (r: TermSet)
        ensures
            term_set(r) == Set::<Seq<u8>>::empty(),
    {
        TermSet { inner: hashbrown::HashSet::new() }
    }

    /// Relies on hashbrown's `HashSet::contains`.
    #[verifier::external_body]
    pub(crate) fn contains(&self, t: &[u8]) -> (r: bool)
        ensures
            r == term_set(*self).contains(t@),
    {
        self.inner.contains(t)
    }

    /// Relies on hashbrown's `HashSet::len`: the number of distinct terms.
    #[verifier::external_body]
    pub(crate) fn len(&self) -> (r: usize)
        ensures
            r == term_set(*self).len(),
    {
        self.inner.len()
    }

    /// Relies on hashbrown's `HashSet::insert`.
    #[verifier::external_body]
    pub(crate) fn insert(&mut self, t: Vec<u8>)
        ensures
            term_set(*final(self)) == term_set(*old(self)).insert(t@),
            term_set(*old(self)).finite() ==> term_set(*final(self)).finite(),
    {
        self.inner.insert(t);
    }

    /// Relies on hashbrown's `HashSet::remove`.
    #[verifier::external_body]
    pub(crate) fn remove(&mut self, t: &[u8])
        ensures
            term_set(*final(self)) == term_set(*old(self)).remove(t@),
            term_set(*old(self)).finite() ==> term_set(*final(self)).finite(),
    {
        self.inner.remove(t);
    }

    /// Relies on hashbrown's `HashSet::clear`.
    #[verifier::external_body]
    pub(crate) fn clear(&mut self)
        ensures
            term_set(*final(self)) == Set::<Seq<u8>>::empty(),
    {
        self.inner.clear();
    }

    /// Relies on hashbrown's `HashSet::iter`: each term once, in no given
    /// order.
    #[verifier::external_body]
    pub(crate) fn to_vec(&self) -> (r: Vec<Vec<u8>>)
        ensures
            forall|t: Seq<u8>| r.deep_view().contains(t) <==> term_set(*self).contains(t),
    {
        self.inner.iter().cloned().collect()
    }
}

/// Terms waiting for the next consolidation: those to insert and those to
/// delete.
pub struct StoreFSTPending {
    pub pop: TermSet,
    pub push: TermSet,
}

impl StoreFSTPending {
    pub open spec fn push_set(&self) -> Set<Seq<u8>> {
        term_set(self.push)
    }

    pub open spec fn pop_set(&self) -> Set<Seq<u8>> {
        term_set(self.pop)
    }

    pub fn new() -> (r: StoreFSTPending)
        ensures
            r.push_set().is_empty(),
            r.pop_set().is_empty(),
            r.wf(),
    {
        StoreFSTPending { pop: TermSet::new(), push: TermSet::new() }
    }

    /// Both sets are finite, as every term set is.
    pub open spec fn wf(&self) -> bool {
        self.push_set().finite() && self.pop_set().finite()
    }

    pub fn is_empty(&self) -> (r: bool)
        requires
            self.wf(),
        ensures
            r == (self.push_set().is_empty() && self.pop_set().is_empty()),
    {
        let a = self.push.len();
        let b = self.pop.len();
        proof {
            vstd::set_lib::lemma_set_empty_equivalency_len(self.push_set());
            vstd::set_lib::lemma_set_empty_equivalency_len(self.pop_set());
        }
        a == 0 && b == 0
    }

    pub fn clear(&mut self)
        ensures
            final(self).push_set().is_empty(),
            final(self).pop_set().is_empty(),
            final(self).wf(),
    {
        self.push.clear();
        self.pop.clear();
    }
}

} // verus!
