use crate::graph::{over_limits, StoreFST, StoreFSTConfig, StoreFSTMisc};
use crate::outside::{graph_contains, graph_size, set_size, utf8_string, utf8_text};
use crate::register::ConsolidationRegister;
use crate::terms::{copy_bytes, over_limit, WORD_LIMIT_LENGTH};
use vstd::prelude::*;
use vstd::string::StringSliceAdditionalSpecFns;

verus! {

/// What a push does to a journal `(push, pop)` over a graph holding `terms`
/// and taking `size` bytes: whether it succeeds, and the two sets after it.
pub open spec fn push_outcome(
    push: Set<Seq<u8>>,
    pop: Set<Seq<u8>>,
    terms: Seq<Seq<u8>>,
    size: int,
    t: Seq<u8>,
    config: StoreFSTConfig,
) -> (bool, Set<Seq<u8>>, Set<Seq<u8>>) {
    if over_limit(t.len()) {
        (false, push, pop)
    } else if pop.contains(t) {
        (true, push, pop.remove(t))
    } else if !terms.contains(t) && !push.contains(t) && push.len() < config.max_words
        && !over_limits(size, terms.len() as int, config) {
        (true, push.insert(t), pop)
    } else {
        (false, push, pop)
    }
}

/// What a pop does to a journal `(push, pop)` over a graph holding `terms`.
pub open spec fn pop_outcome(
    push: Set<Seq<u8>>,
    pop: Set<Seq<u8>>,
    terms: Seq<Seq<u8>>,
    t: Seq<u8>,
) -> (bool, Set<Seq<u8>>, Set<Seq<u8>>) {
    if over_limit(t.len()) {
        (false, push, pop)
    } else if push.contains(t) {
        (true, push.remove(t), pop)
    } else if terms.contains(t) && !pop.contains(t) {
        (true, push, pop.insert(t))
    } else {
        (false, push, pop)
    }
}

/// Distinct texts gathered from `stream` after `found`, up to `limit` in
/// all; terms that are not valid UTF-8 are passed over.
pub open spec fn gather(found: Seq<Seq<char>>, stream: Seq<Seq<u8>>, limit: nat) -> Seq<Seq<char>>
    decreases stream.len(),
{
    if stream.len() == 0 || found.len() >= limit {
        found
    } else {
        match utf8_text(stream[0]) {
            Some(w) => if found.contains(w) {
                gather(found, stream.drop_first(), limit)
            } else {
                gather(found.push(w), stream.drop_first(), limit)
            },
            None => gather(found, stream.drop_first(), limit),
        }
    }
}

/// What a suggestion gathers: the texts found by the prefix lookup, then,
/// while fewer than `limit`, those of the fuzzy lookup; `None` when empty.
pub open spec fn suggestion(
    begins: Option<Seq<Seq<u8>>>,
    typos: Option<Seq<Seq<u8>>>,
    limit: nat,
) -> Option<Seq<Seq<char>>> {
    let first = match begins {
        Some(s) => gather(Seq::empty(), s, limit),
        None => Seq::empty(),
    };
    let all = if first.len() < limit {
        match typos {
            Some(t) => gather(first, t, limit),
            None => first,
        }
    } else {
        first
    };
    if all.len() > 0 {
        Some(all)
    } else {
        None
    }
}

pub open spec fn texts(v: Seq<String>) -> Seq<Seq<char>> {
    v.map_values(|s: String| s@)
}

/// Every term of `terms` is valid UTF-8.
pub open spec fn all_text(terms: Seq<Seq<u8>>) -> bool {
    forall|i: int| 0 <= i < terms.len() ==> (#[trigger] utf8_text(terms[i])) is Some
}

/// The texts of `terms`.
pub open spec fn decoded(terms: Seq<Seq<u8>>) -> Seq<Seq<char>> {
    terms.map_values(|t: Seq<u8>| utf8_text(t).unwrap())
}

/// The window of a listing: `limit` items from `offset` on.
pub open spec fn window<A>(s: Seq<A>, limit: nat, offset: nat) -> Seq<A> {
    let start = if offset <= s.len() { offset as int } else { s.len() as int };
    let end = if start + limit <= s.len() { start + limit } else { s.len() as int };
    s.subrange(start, end)
}

/// Every text of `found` is the text of some term of `terms`.
pub open spec fn sourced(found: Seq<Seq<char>>, terms: Seq<Seq<u8>>) -> bool {
    forall|i: int|
        0 <= i < found.len() ==> exists|t: Seq<u8>|
            terms.contains(t) && utf8_text(t) == Some(#[trigger] found[i])
}

/// Each text that `gather` adds comes from a term of `terms` and is new.
pub proof fn lemma_gather_sound(
    found: Seq<Seq<char>>,
    stream: Seq<Seq<u8>>,
    limit: nat,
    terms: Seq<Seq<u8>>,
)
    requires
        forall|i: int| 0 <= i < stream.len() ==> terms.contains(#[trigger] stream[i]),
    ensures
        ({
            let g = gather(found, stream, limit);
            &&& found.len() <= g.len()
            &&& g.subrange(0, found.len() as int) == found
            &&& found.no_duplicates() ==> g.no_duplicates()
            &&& (found.len() <= limit ==> g.len() <= limit)
            &&& forall|i: int|
                found.len() <= i < g.len() ==> exists|t: Seq<u8>|
                    terms.contains(t) && utf8_text(t) == Some(#[trigger] g[i])
        }),
    decreases stream.len(),
{
    if stream.len() == 0 || found.len() >= limit {
        assert(found.subrange(0, found.len() as int) =~= found);
    } else {
        let rest = stream.drop_first();
        assert forall|i: int| 0 <= i < rest.len() implies terms.contains(#[trigger] rest[i]) by {
            assert(rest[i] == stream[i + 1]);
        }
        assert(terms.contains(stream[0]));
        match utf8_text(stream[0]) {
            Some(w) => {
                if found.contains(w) {
                    lemma_gather_sound(found, rest, limit, terms);
                } else {
                    let f2 = found.push(w);
                    lemma_gather_sound(f2, rest, limit, terms);
                    let g = gather(f2, rest, limit);
                    assert(g.subrange(0, found.len() as int) =~= g.subrange(0, f2.len() as int).subrange(0, found.len() as int));
                    assert(f2.subrange(0, found.len() as int) =~= found);
                    assert(g[found.len() as int] == f2[found.len() as int]);
                    if found.no_duplicates() {
                        assert(f2.no_duplicates()) by {
                            assert forall|a: int, b: int| 0 <= a < b < f2.len() implies f2[a] != f2[b] by {
                                if b == found.len() {
                                    assert(found.contains(f2[a]));
                                }
                            }
                        }
                    }
                    assert forall|i: int| found.len() <= i < g.len() implies exists|t: Seq<u8>|
                        terms.contains(t) && utf8_text(t) == Some(#[trigger] g[i]) by {
                        if i == found.len() {
                            assert(terms.contains(stream[0]) && utf8_text(stream[0]) == Some(g[i]));
                        }
                    }
                }
            },
            None => {
                lemma_gather_sound(found, rest, limit, terms);
            },
        }
    }
}

/// The verbs on one graph.
pub struct StoreFSTAction {
    pub store: StoreFST,
}

pub struct StoreFSTActionBuilder;

impl StoreFSTActionBuilder {
    pub fn access(store: StoreFST) -> (r: StoreFSTAction)
        ensures
            r.store == store,
    {
        StoreFSTAction { store }
    }
}

impl StoreFSTAction {
    pub open spec fn wf(&self) -> bool {
        self.store.wf()
    }

    pub open spec fn push_set(&self) -> Set<Seq<u8>> {
        self.store.pending.push_set()
    }

    pub open spec fn pop_set(&self) -> Set<Seq<u8>> {
        self.store.pending.pop_set()
    }

    pub open spec fn terms(&self) -> Seq<Seq<u8>> {
        self.store.terms()
    }

    /// A term longer than the limit is refused.
    pub fn word_over_limit(word: &str) -> (r: bool)
        ensures
            r == over_limit(word.spec_bytes().len()),
    {
        word.as_bytes().len() > WORD_LIMIT_LENGTH
    }

    /// Schedules `word` for insertion, or cancels its pending deletion.
    pub fn push_word(
        &mut self,
        word: &str,
        config: &StoreFSTConfig,
        register: &mut ConsolidationRegister,
        now: u64,
    ) -> (r: bool)
        requires
            old(self).wf(),
            old(register).wf(),
        ensures
            final(self).wf(),
            final(register).wf(),
            (r, final(self).push_set(), final(self).pop_set()) == push_outcome(
                old(self).push_set(),
                old(self).pop_set(),
                old(self).terms(),
                set_size(old(self).store.graph) as int,
                word.spec_bytes(),
                *config,
            ),
            final(self).store.graph == old(self).store.graph,
            final(self).store.target == old(self).store.target,
            final(register)@ == (if r && !old(self).pop_set().contains(word.spec_bytes()) {
                old(register)@.insert(old(self).store.target)
            } else {
                old(register)@
            }),
    {
        if Self::word_over_limit(word) {
            return false;
        }
        let t = word.as_bytes();
        if self.store.pending.pop.contains(t) {
            self.store.pending.pop.remove(t);
            return true;
        }
        if !graph_contains(&self.store.graph, t) && !self.store.pending.push.contains(t)
            && self.store.pending.push.len() < config.max_words && !StoreFSTMisc::check_over_limits(
            graph_size(&self.store.graph),
            crate::outside::graph_len(&self.store.graph),
            config,
        ) {
            self.store.pending.push.insert(copy_bytes(t));
            self.store.should_consolidate(register, now);
            true
        } else {
            false
        }
    }

    /// Schedules `word` for deletion, or cancels its pending insertion.
    pub fn pop_word(
        &mut self,
        word: &str,
        register: &mut ConsolidationRegister,
        now: u64,
    ) -> (r: bool)
        requires
            old(self).wf(),
            old(register).wf(),
        ensures
            final(self).wf(),
            final(register).wf(),
            (r, final(self).push_set(), final(self).pop_set()) == pop_outcome(
                old(self).push_set(),
                old(self).pop_set(),
                old(self).terms(),
                word.spec_bytes(),
            ),
            final(self).store.graph == old(self).store.graph,
            final(self).store.target == old(self).store.target,
            final(register)@ == (if r && !old(self).push_set().contains(word.spec_bytes()) {
                old(register)@.insert(old(self).store.target)
            } else {
                old(register)@
            }),
    {
        if Self::word_over_limit(word) {
            return false;
        }
        let t = word.as_bytes();
        if self.store.pending.push.contains(t) {
            self.store.pending.push.remove(t);
            return true;
        }
        if graph_contains(&self.store.graph, t) && !self.store.pending.pop.contains(t) {
            self.store.pending.pop.insert(copy_bytes(t));
            self.store.should_consolidate(register, now);
            true
        } else {
            false
        }
    }

    /// Appends to `found` the distinct texts of `stream`, until `found`
    /// holds `limit` of them; terms that are not UTF-8 are passed over.
    pub fn find_words_stream(stream: &Vec<Vec<u8>>, found: &mut Vec<String>, limit: usize)
        ensures
            texts(final(found)@) == gather(texts(old(found)@), stream.deep_view(), limit as nat),
    {
        let ghost sv = stream.deep_view();
        let ghost start = texts(found@);
        let mut i: usize = 0;
        proof {
            assert(sv.subrange(0, sv.len() as int) =~= sv);
        }
        while i < stream.len() && found.len() < limit
            invariant
                sv == stream.deep_view(),
                0 <= i <= sv.len(),
                gather(start, sv, limit as nat) == gather(
                    texts(found@),
                    sv.subrange(i as int, sv.len() as int),
                    limit as nat,
                ),
            decreases sv.len() - i,
        {
            let ghost rest = sv.subrange(i as int, sv.len() as int);
            let ghost before = texts(found@);
            proof {
                assert(rest.drop_first() =~= sv.subrange(i + 1, sv.len() as int));
                assert(rest[0] == stream[i as int]@);
            }
            match utf8_string(stream[i].as_slice()) {
                Some(w) => {
                    let mut seen = false;
                    let mut k: usize = 0;
                    while k < found.len()
                        invariant
                            0 <= k <= found@.len(),
                            before == texts(found@),
                            seen == (exists|q: int| 0 <= q < k && found@[q]@ == w@),
                        decreases found@.len() - k,
                    {
                        if found[k] == w {
                            seen = true;
                        }
                        proof {
                            if !seen {
                                assert forall|q: int| 0 <= q < k + 1 implies found@[q]@ != w@ by {
                                    if q == k {
                                    }
                                }
                            } else {
                                if found@[k as int]@ == w@ {
                                    assert(exists|q: int| 0 <= q < k + 1 && found@[q]@ == w@);
                                } else {
                                    let q0 = choose|q: int| 0 <= q < k && found@[q]@ == w@;
                                    assert(0 <= q0 < k + 1 && found@[q0]@ == w@);
                                }
                            }
                        }
                        k = k + 1;
                    }
                    proof {
                        if seen {
                            let q0 = choose|q: int| 0 <= q < found@.len() && found@[q]@ == w@;
                            assert(before[q0] == w@);
                        } else if before.contains(w@) {
                            let q0 = choose|q: int| 0 <= q < before.len() && before[q] == w@;
                            assert(found@[q0]@ == w@);
                        }
                    }
                    if !seen {
                        found.push(w);
                        proof {
                            assert(texts(found@) =~= before.push(w@));
                        }
                    }
                },
                None => {},
            }
            i = i + 1;
        }
        proof {
            if i == stream.len() {
                assert(sv.subrange(i as int, sv.len() as int) =~= Seq::<Seq<u8>>::empty());
            }
        }
    }

    /// Terms that complete `from_word` (a prefix lookup over the character
    /// class `range`), topped up with terms near it in spelling, distinct,
    /// up to `limit`; `None` where nothing is found or the term is too
    /// long. Pending terms are not seen.
    pub fn suggest_words(
        &self,
        from_word: &str,
        limit: usize,
        max_typo_factor: Option<u32>,
        range: &str,
    ) -> (r: Option<Vec<String>>)
        requires
            self.wf(),
        ensures
            over_limit(from_word.spec_bytes().len()) ==> r is None,
            !over_limit(from_word.spec_bytes().len()) ==> ({
                let s = suggestion(
                    self.store.begins(from_word@, range@),
                    self.store.typos(from_word, max_typo_factor),
                    limit as nat,
                );
                &&& r is Some <==> s is Some
                &&& r matches Some(v) ==> texts(v@) == s.unwrap()
            }),
            r matches Some(v) ==> 0 < v.len() <= limit,
            r matches Some(v) ==> (forall|i: int| 0 <= i < v.len() ==> exists|t: Seq<u8>|
                self.terms().contains(t) && utf8_text(t) == Some(#[trigger] v@[i]@)),
            r matches Some(v) ==> texts(v@).no_duplicates(),
    {
        if Self::word_over_limit(from_word) {
            return None;
        }
        let mut found: Vec<String> = Vec::new();
        proof {
            assert(texts(found@) =~= Seq::<Seq<char>>::empty());
        }
        if let Some(stream) = self.store.lookup_begins(from_word, range) {
            Self::find_words_stream(&stream, &mut found, limit);
            proof {
                lemma_gather_sound(Seq::empty(), stream.deep_view(), limit as nat, self.terms());
            }
        }
        let ghost mid = texts(found@);
        assert(sourced(mid, self.terms()) && mid.no_duplicates() && mid.len() <= limit);
        if found.len() < limit {
            if let Some(stream) = self.store.lookup_typos(from_word, max_typo_factor) {
                Self::find_words_stream(&stream, &mut found, limit);
                proof {
                    lemma_gather_sound(mid, stream.deep_view(), limit as nat, self.terms());
                    let g = texts(found@);
                    assert forall|i: int| 0 <= i < g.len() implies exists|t: Seq<u8>|
                        self.terms().contains(t) && utf8_text(t) == Some(#[trigger] g[i]) by {
                        if i < mid.len() {
                            assert(g[i] == g.subrange(0, mid.len() as int)[i]);
                            assert(mid[i] == g[i]);
                        }
                    }
                }
            }
        }
        if found.len() > 0 {
            proof {
                let g = texts(found@);
                assert forall|i: int| 0 <= i < found@.len() implies exists|t: Seq<u8>|
                    self.terms().contains(t) && utf8_text(t) == Some(#[trigger] found@[i]@) by {
                    assert(g[i] == found@[i]@);
                }
            }
            Some(found)
        } else {
            None
        }
    }

    /// `limit` terms of the graph from `offset` on, in order; an error where
    /// any term of the graph is not valid UTF-8.
    pub fn list_words(&self, limit: usize, offset: usize) -> (r: Result<Vec<String>, ()>)
        requires
            self.wf(),
        ensures
            r is Ok <==> all_text(self.terms()),
            r matches Ok(v) ==> texts(v@) == window(decoded(self.terms()), limit as nat, offset as nat),
    {
        let terms = self.store.as_stream();
        let ghost tv = terms.deep_view();
        let mut all: Vec<String> = Vec::new();
        let mut i: usize = 0;
        while i < terms.len()
            invariant
                tv == terms.deep_view(),
                tv == self.terms(),
                0 <= i <= tv.len(),
                forall|q: int| 0 <= q < i ==> (#[trigger] utf8_text(tv[q])) is Some,
                texts(all@) == decoded(tv.subrange(0, i as int)),
            decreases tv.len() - i,
        {
            match utf8_string(terms[i].as_slice()) {
                Some(w) => {
                    let ghost prev = all@;
                    proof {
                        assert(terms[i as int]@ == tv[i as int]);
                        assert(utf8_text(tv[i as int]) == Some(w@));
                        assert(tv.subrange(0, i + 1) =~= tv.subrange(0, i as int).push(tv[i as int]));
                        assert(decoded(tv.subrange(0, i + 1)) =~= decoded(tv.subrange(0, i as int)).push(w@));
                    }
                    all.push(w);
                    i = i + 1;
                    proof {
                        assert(all@ == prev.push(w));
                        assert(texts(all@) =~= texts(prev).push(w@));
                    }
                },
                None => {
                    proof {
                        assert(terms[i as int]@ == tv[i as int]);
                        assert(utf8_text(tv[i as int]) is None);
                        assert(!all_text(tv));
                    }
                    return Err(());
                },
            }
        }
        proof {
            assert(tv.subrange(0, i as int) =~= tv);
        }
        let n = all.len();
        let start = if offset <= n { offset } else { n };
        let end = if limit <= n - start { start + limit } else { n };
        let mut out: Vec<String> = Vec::new();
        let mut k: usize = start;
        while k < end
            invariant
                start <= k <= end <= all@.len(),
                texts(out@) == texts(all@).subrange(start as int, k as int),
            decreases end - k,
        {
            let ghost prev = out@;
            out.push(all[k].clone());
            k = k + 1;
            proof {
                assert(out@ == prev.push(all@[k - 1]));
                assert(texts(out@) =~= texts(prev).push(all@[k - 1]@));
                assert(texts(out@) =~= texts(all@).subrange(start as int, k as int));
            }
        }
        Ok(out)
    }

    /// Number of terms in the graph; pending ones do not count.
    pub fn count_words(&self) -> (r: usize)
        requires
            self.wf(),
        ensures
            r == self.terms().len(),
    {
        self.store.cardinality()
    }
}

} // verus!
