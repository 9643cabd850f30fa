use crate::journal::StoreFSTPending;
use crate::key::{names_bucket, StoreFSTKey, StoreFSTPathMode};
use crate::outside::{
    escaped, fuzzy_search, graph_len, graph_search_fuzzy, graph_search_regex, graph_stream,
    readable, regex_escape, regex_search, set_terms,
};
use crate::register::ConsolidationRegister;
use crate::terms::{strictly_ascending, typo_distance, typo_factor};
use vstd::string::StringSliceAdditionalSpecFns;
use vstd::prelude::*;
use vstd::string::StringExecFns;

verus! {

/// The settings that bound a graph and pace its upkeep.
#[derive(Clone, Copy, Debug)]
pub struct StoreFSTConfig {
    /// Largest encoding of a graph, in kibibytes.
    pub max_size: usize,
    /// Most terms a graph holds.
    pub max_words: usize,
    /// Seconds after the last scheduling before a graph may be consolidated.
    pub consolidate_after: u64,
    /// Seconds of idleness before a handle is evicted.
    pub inactive_after: u64,
}

/// A graph of `bytes` bytes and `words` terms may take no more.
pub open spec fn over_limits(bytes: int, words: int, config: StoreFSTConfig) -> bool {
    bytes >= config.max_size * 1024 || words >= config.max_words
}

/// How many of the file names `names` are names of bucket files.
pub open spec fn bucket_count(names: Seq<Seq<u8>>) -> nat
    decreases names.len(),
{
    if names.len() == 0 {
        0
    } else {
        bucket_count(names.drop_last()) + if names_bucket(StoreFSTPathMode::Permanent, names.last()) {
            1nat
        } else {
            0nat
        }
    }
}

pub struct StoreFSTMisc;

impl StoreFSTMisc {
    /// Counts the buckets of a collection from the names of the files in its
    /// directory.
    pub fn count_collection_buckets(names: &Vec<Vec<u8>>) -> (r: usize)
        ensures
            r == bucket_count(names.deep_view()),
    {
        let ghost nv = names.deep_view();
        let mut count: usize = 0;
        let mut i: usize = 0;
        while i < names.len()
            invariant
                nv == names.deep_view(),
                0 <= i <= nv.len(),
                count == bucket_count(nv.subrange(0, i as int)),
                count <= i,
            decreases nv.len() - i,
        {
            proof {
                assert(nv.subrange(0, i + 1).drop_last() =~= nv.subrange(0, i as int));
                assert(names[i as int]@ == nv[i as int]);
            }
            if StoreFSTPathMode::Permanent.bucket_name_len(names[i].as_slice()).is_some() {
                count = count + 1;
            }
            i = i + 1;
        }
        proof {
            assert(nv.subrange(0, i as int) =~= nv);
        }
        count
    }

    pub fn check_over_limits(bytes_count: usize, words_count: usize, config: &StoreFSTConfig) -> (r:
        bool)
        ensures
            r == over_limits(bytes_count as int, words_count as int, *config),
    {
        match config.max_size.checked_mul(1024) {
            Some(max_bytes) => {
                if bytes_count >= max_bytes {
                    return true;
                }
            },
            None => {},
        }
        words_count >= config.max_words
    }
}

/// A live graph: its ordered term set, its key, its pending journal and its
/// two clocks (seconds).
pub struct StoreFST {
    pub graph: fst::Set,
    pub target: StoreFSTKey,
    pub pending: StoreFSTPending,
    pub last_used: u64,
    pub last_consolidated: u64,
}

impl StoreFST {
    pub open spec fn terms(&self) -> Seq<Seq<u8>> {
        set_terms(self.graph)
    }

    /// The graph can be walked, and the journal's rules hold: no term waits
    /// both to be inserted and deleted; a term waits for insertion only when
    /// the graph lacks it, and for deletion only when the graph holds it.
    pub open spec fn wf(&self) -> bool {
        &&& readable(self.graph)
        &&& self.pending.wf()
        &&& forall|t: Seq<u8>| #[trigger]
            self.pending.push_set().contains(t) ==> !self.pending.pop_set().contains(t)
        &&& forall|t: Seq<u8>| #[trigger]
            self.pending.push_set().contains(t) ==> !self.terms().contains(t)
        &&& forall|t: Seq<u8>| #[trigger]
            self.pending.pop_set().contains(t) ==> self.terms().contains(t)
    }

    /// A handle over `graph` with an empty journal, both clocks at `now`.
    pub fn new(target: StoreFSTKey, graph: fst::Set, now: u64) -> (r: StoreFST)
        requires
            readable(graph),
        ensures
            r.wf(),
            r.target == target,
            r.graph == graph,
            r.pending.push_set().is_empty(),
            r.pending.pop_set().is_empty(),
            r.last_used == now,
            r.last_consolidated == now,
    {
        StoreFST { graph, target, pending: StoreFSTPending::new(), last_used: now, last_consolidated: now }
    }

    pub fn cardinality(&self) -> (r: usize)
        requires
            readable(self.graph),
        ensures
            r == self.terms().len(),
    {
        graph_len(&self.graph)
    }

    pub fn as_stream(&self) -> (r: Vec<Vec<u8>>)
        requires
            readable(self.graph),
        ensures
            r.deep_view() == self.terms(),
            strictly_ascending(r.deep_view()),
    {
        graph_stream(&self.graph)
    }

    /// What a prefix lookup of `word` over the class `range` finds.
    pub open spec fn begins(&self, word: Seq<char>, range: Seq<char>) -> Option<Seq<Seq<u8>>> {
        regex_search(self.graph, escaped(word) + seq!['('] + range + seq!['*', ')'])
    }

    /// What a fuzzy lookup of `word` finds.
    pub open spec fn typos(&self, word: &str, max_factor: Option<u32>) -> Option<Seq<Seq<u8>>> {
        fuzzy_search(
            self.graph,
            word@,
            typo_distance(word.spec_bytes().len(), max_factor),
        )
    }

    /// The pattern of a prefix lookup: the escaped term, then any number of
    /// characters of the class `range` (given in brackets).
    pub fn begins_pattern(word: &str, range: &str) -> (r: String)
        ensures
            r@ == escaped(word@) + seq!['('] + range@ + seq!['*', ')'],
    {
        proof {
            reveal_strlit("(");
            reveal_strlit("*)");
        }
        let p = regex_escape(word);
        let p = p.concat("(");
        let p = p.concat(range);
        p.concat("*)")
    }

    /// Terms that begin with `word`, followed by characters of `range`;
    /// `None` where the pattern cannot be built.
    pub fn lookup_begins(&self, word: &str, range: &str) -> (r: Option<Vec<Vec<u8>>>)
        requires
            readable(self.graph),
        ensures
            r is Some <==> self.begins(word@, range@) is Some,
            r matches Some(v) ==> v.deep_view() == self.begins(word@, range@).unwrap(),
            r matches Some(v) ==> (forall|i: int|
                0 <= i < v.len() ==> self.terms().contains(#[trigger] v.deep_view()[i])),
            r matches Some(v) ==> strictly_ascending(v.deep_view()),
    {
        let pattern = Self::begins_pattern(word, range);
        graph_search_regex(&self.graph, pattern.as_str())
    }

    /// Terms within the edit distance that the length of `word` allows,
    /// capped by `max_factor`.
    pub fn lookup_typos(&self, word: &str, max_factor: Option<u32>) -> (r: Option<Vec<Vec<u8>>>)
        requires
            readable(self.graph),
        ensures
            r is Some <==> self.typos(word, max_factor) is Some,
            r matches Some(v) ==> v.deep_view() == self.typos(word, max_factor).unwrap(),
            r matches Some(v) ==> (forall|i: int|
                0 <= i < v.len() ==> self.terms().contains(#[trigger] v.deep_view()[i])),
            r matches Some(v) ==> strictly_ascending(v.deep_view()),
    {
        let distance = typo_factor(word.as_bytes().len(), max_factor);
        graph_search_fuzzy(&self.graph, word, distance)
    }

    /// Lists the graph for consolidation, unless it is listed already; a
    /// new listing restarts the debounce window at `now`.
    pub fn should_consolidate(&mut self, register: &mut ConsolidationRegister, now: u64)
        requires
            old(register).wf(),
        ensures
            final(register).wf(),
            final(register)@ == old(register)@.insert(old(self).target),
            final(self).last_consolidated == (if old(register)@.contains(old(self).target) {
                old(self).last_consolidated
            } else {
                now
            }),
            final(self).graph == old(self).graph,
            final(self).target == old(self).target,
            final(self).pending == old(self).pending,
            final(self).last_used == old(self).last_used,
    {
        if !register.contains(&self.target) {
            register.insert(self.target);
            self.last_consolidated = now;
        } else {
            assert(old(register)@.insert(old(self).target) =~= old(register)@);
        }
    }
}

} // verus!
