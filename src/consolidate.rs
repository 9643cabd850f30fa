use crate::graph::{over_limits, StoreFST, StoreFSTConfig, StoreFSTMisc};
use crate::journal::{term_set, TermSet};
use crate::outside::{
    builder_finish, builder_insert, builder_new, builder_size, built_size, built_terms,
    decoded_terms, graph_stream, sealed, set_terms,
};
use crate::terms::{
    bytes_eq, copy_bytes,
    ascending, bytes_lt, lemma_lex_asym, lemma_lex_le_lt, lemma_lex_le_trans, lemma_lex_total,
    lemma_strict_push, lex_le, lex_lt, strictly_ascending,
};
use vstd::prelude::*;

verus! {

/// A term that a consolidation keeps or adds: an old term not deleted, or a
/// pushed one.
pub open spec fn in_target(
    olds: Seq<Seq<u8>>,
    push: Set<Seq<u8>>,
    pop: Set<Seq<u8>>,
    t: Seq<u8>,
) -> bool {
    (olds.contains(t) && !pop.contains(t)) || push.contains(t)
}

/// Everything a complete consolidation leaves in the graph.
pub open spec fn target_set(olds: Seq<Seq<u8>>, push: Set<Seq<u8>>, pop: Set<Seq<u8>>) -> Set<
    Seq<u8>,
> {
    Set::new(|t: Seq<u8>| in_target(olds, push, pop, t))
}

/// The state of a merge that has read `i` old terms and `j` pushed ones and
/// emitted `e`.
pub open spec fn merge_state(
    olds: Seq<Seq<u8>>,
    push: Seq<Seq<u8>>,
    pop: Set<Seq<u8>>,
    e: Seq<Seq<u8>>,
    i: int,
    j: int,
) -> bool {
    &&& 0 <= i <= olds.len()
    &&& 0 <= j <= push.len()
    &&& strictly_ascending(e)
    &&& forall|k: int| 0 <= k < e.len() ==> in_target(olds, push.to_set(), pop, #[trigger] e[k])
    &&& forall|a: int| 0 <= a < i && !pop.contains(olds[a]) ==> e.contains(#[trigger] olds[a])
    &&& forall|b: int| 0 <= b < j ==> e.contains(#[trigger] push[b])
    &&& e.len() > 0 ==> (i < olds.len() ==> lex_le(e.last(), olds[i]))
    &&& e.len() > 0 ==> (j < push.len() ==> lex_le(e.last(), push[j]))
}

/// What a merge leaves, `e`, against what it should leave, `target`: terms
/// in strictly ascending order, all of them wanted and the smallest of them;
/// each inserted while the builder was below both limits (`states` holds
/// the builder before each insertion); every wanted term unless the merge
/// stopped at a limit.
pub open spec fn merged(
    e: Seq<Seq<u8>>,
    target: Set<Seq<u8>>,
    r: ConsolidateCounts,
    config: StoreFSTConfig,
) -> bool {
    &&& strictly_ascending(e)
    &&& e.len() == r.moved + r.pushed
    &&& e.len() <= config.max_words
    &&& r.states@.len() == e.len()
    &&& forall|k: int|
        0 <= k < e.len() ==> built_terms(#[trigger] r.states@[k]) == e.subrange(0, k)
            && !over_limits(built_size(r.states@[k]) as int, k, config)
    &&& forall|k: int| 0 <= k < e.len() ==> target.contains(#[trigger] e[k])
    &&& !r.truncated ==> (forall|t: Seq<u8>| target.contains(t) ==> e.contains(t))
    &&& e.len() > 0 ==> (forall|t: Seq<u8>|
        target.contains(t) && lex_lt(t, e.last()) ==> e.contains(t))
    &&& built_terms(r.last@) == e
    &&& r.written == built_size(r.last@)
    &&& r.truncated ==> over_limits(built_size(r.last@) as int, e.len() as int, config)
}

proof fn lemma_not_le_lt(a: Seq<u8>, b: Seq<u8>)
    ensures
        !(lex_le(a, b) && lex_lt(b, a)),
{
    if a == b {
        crate::terms::lemma_lex_irreflexive(a);
    } else if lex_lt(a, b) {
        lemma_lex_asym(a, b);
    }
}

/// A merge emits the wanted terms from the smallest up: any wanted term
/// below the last one emitted was emitted.
proof fn lemma_merge_prefix(
    olds: Seq<Seq<u8>>,
    push: Seq<Seq<u8>>,
    pop: Set<Seq<u8>>,
    e: Seq<Seq<u8>>,
    i: int,
    j: int,
)
    requires
        merge_state(olds, push, pop, e, i, j),
        strictly_ascending(olds),
        ascending(push),
        e.len() > 0,
    ensures
        forall|t: Seq<u8>|
            in_target(olds, push.to_set(), pop, t) && lex_lt(t, e.last()) ==> e.contains(t),
{
    assert forall|t: Seq<u8>|
        in_target(olds, push.to_set(), pop, t) && lex_lt(t, e.last()) implies e.contains(t) by {
        if push.to_set().contains(t) {
            let b = choose|b: int| 0 <= b < push.len() && push[b] == t;
            if b >= j {
                if b > j {
                    assert(lex_le(push[j], push[b]));
                }
                lemma_lex_le_trans(e.last(), push[j], t);
                lemma_not_le_lt(e.last(), t);
            }
        } else {
            let a = choose|a: int| 0 <= a < olds.len() && olds[a] == t;
            if a >= i {
                if a > i {
                    assert(lex_lt(olds[i], olds[a]));
                }
                lemma_lex_le_trans(e.last(), olds[i], t);
                lemma_not_le_lt(e.last(), t);
            }
        }
    }
}

/// Relies on std's `slice::sort` on byte strings: the same terms, in
/// non-decreasing byte-lexicographic order.
#[verifier::external_body]
fn sort_terms(v: &mut Vec<Vec<u8>>)
    ensures
        final(v).len() == old(v).len(),
        forall|t: Seq<u8>| final(v).deep_view().contains(t) <==> old(v).deep_view().contains(t),
        ascending(final(v).deep_view()),
{
    v.sort();
}

/// What offering a term to the builder did.
pub enum Emit {
    /// The builder was at a limit (bytes written given); nothing inserted.
    Stop(usize),
    /// The term was the last one inserted; nothing inserted.
    Same,
    /// The term was inserted; bytes written before it given.
    Added(usize),
}

/// Offers `k`, which is not below the last term inserted, to the builder:
/// refused at a limit, passed over when it repeats the last term, inserted
/// otherwise.
fn emit(
    builder: &mut fst::SetBuilder<Vec<u8>>,
    k: &[u8],
    last: &mut Option<Vec<u8>>,
    count: usize,
    config: &StoreFSTConfig,
) -> (r: Emit)
    requires
        strictly_ascending(built_terms(*old(builder))),
        count == built_terms(*old(builder)).len(),
        *old(last) is None <==> count == 0,
        *old(last) matches Some(l) ==> l@ == built_terms(*old(builder)).last(),
        count > 0 ==> lex_le(built_terms(*old(builder)).last(), k@),
    ensures
        strictly_ascending(built_terms(*final(builder))),
        *final(last) is None <==> built_terms(*final(builder)).len() == 0,
        *final(last) matches Some(l) ==> l@ == built_terms(*final(builder)).last(),
        r matches Emit::Stop(s) ==> *final(builder) == *old(builder) && s == built_size(*old(builder))
            && over_limits(s as int, count as int, *config),
        r is Same ==> *final(builder) == *old(builder) && count > 0 && built_terms(
            *old(builder),
        ).last() == k@,
        r matches Emit::Added(s) ==> built_terms(*final(builder)) == built_terms(*old(builder)).push(k@)
            && s == built_size(*old(builder)) && !over_limits(s as int, count as int, *config),
{
    let same = match last {
        Some(l) => bytes_eq(l.as_slice(), k),
        None => false,
    };
    if same {
        return Emit::Same;
    }
    let size = builder_size(builder);
    if StoreFSTMisc::check_over_limits(size, count, config) {
        return Emit::Stop(size);
    }
    let ghost e0 = built_terms(*builder);
    proof {
        if count > 0 {
            assert(lex_lt(e0.last(), k@));
            lemma_lex_asym(e0.last(), k@);
        }
    }
    let accepted = builder_insert(builder, k);
    proof {
        assert(accepted);
        lemma_strict_push(e0, k@);
        assert(built_terms(*builder).last() == k@);
    }
    *last = Some(copy_bytes(k));
    Emit::Added(size)
}

proof fn lemma_after_emit(e0: Seq<Seq<u8>>, e: Seq<Seq<u8>>, k: Seq<u8>)
    requires
        e == e0.push(k) || (e == e0 && e0.len() > 0 && e0.last() == k),
    ensures
        e.contains(k),
        e.len() > 0 && e.last() == k,
        forall|q: int| 0 <= q < e0.len() ==> e[q] == e0[q],
        forall|t: Seq<u8>| e.contains(t) ==> (e0.contains(t) || t == k),
{
    assert(e[e.len() - 1] == k);
    assert forall|t: Seq<u8>| e.contains(t) implies (e0.contains(t) || t == k) by {
        let q = choose|q: int| 0 <= q < e.len() && e[q] == t;
        if q < e0.len() {
            assert(e0[q] == t);
        }
    }
}

/// The builder states before each insertion, and the limits they met.
pub open spec fn states_ok(
    states: Seq<fst::SetBuilder<Vec<u8>>>,
    e: Seq<Seq<u8>>,
    config: StoreFSTConfig,
) -> bool {
    &&& states.len() == e.len()
    &&& forall|k: int|
        0 <= k < e.len() ==> built_terms(#[trigger] states[k]) == e.subrange(0, k)
            && !over_limits(built_size(states[k]) as int, k, config)
}

proof fn lemma_states_push(
    states: Seq<fst::SetBuilder<Vec<u8>>>,
    e0: Seq<Seq<u8>>,
    b0: fst::SetBuilder<Vec<u8>>,
    k: Seq<u8>,
    config: StoreFSTConfig,
)
    requires
        states_ok(states, e0, config),
        built_terms(b0) == e0,
        !over_limits(built_size(b0) as int, e0.len() as int, config),
    ensures
        states_ok(states.push(b0), e0.push(k), config),
{
    let s1 = states.push(b0);
    let e1 = e0.push(k);
    assert forall|q: int| 0 <= q < e1.len() implies built_terms(#[trigger] s1[q]) == e1.subrange(0, q)
        && !over_limits(built_size(s1[q]) as int, q, config) by {
        if q < e0.len() {
            assert(s1[q] == states[q]);
            assert(e1.subrange(0, q) =~= e0.subrange(0, q));
        } else {
            assert(e1.subrange(0, q) =~= e0);
        }
    }
}

/// Counts of a merge: terms carried over, terms added, terms dropped.
pub struct ConsolidateCounts {
    pub moved: usize,
    pub pushed: usize,
    pub popped: usize,
    /// The merge stopped at a limit before reading everything.
    pub truncated: bool,
    /// Bytes the builder had written when the merge ended.
    pub written: usize,
    /// The builder before each insertion.
    pub states: Ghost<Seq<fst::SetBuilder<Vec<u8>>>>,
    /// The builder when the merge ended.
    pub last: Ghost<fst::SetBuilder<Vec<u8>>>,
}

/// Interleaves the sorted pushed terms with the old terms, leaving out the
/// deleted ones, into `builder`, and stops as soon as the next insertion
/// would go over the limits.
pub fn merge_into(
    olds: &Vec<Vec<u8>>,
    push: &Vec<Vec<u8>>,
    pop: &TermSet,
    builder: &mut fst::SetBuilder<Vec<u8>>,
    config: &StoreFSTConfig,
) -> (r: ConsolidateCounts)
    requires
        strictly_ascending(olds.deep_view()),
        ascending(push.deep_view()),
        built_terms(*old(builder)) == Seq::<Seq<u8>>::empty(),
    ensures
        merged(
            built_terms(*final(builder)),
            target_set(olds.deep_view(), push.deep_view().to_set(), term_set(*pop)),
            r,
            *config,
        ),
        r.written == built_size(*final(builder)),
        r.moved + r.popped <= olds.len(),
{
    let ghost ov = olds.deep_view();
    let ghost pv = push.deep_view();
    let ghost popv = term_set(*pop);
    let n = olds.len();
    let m = push.len();
    let mut i: usize = 0;
    let mut j: usize = 0;
    let mut count: usize = 0;
    let mut moved: usize = 0;
    let mut pushed: usize = 0;
    let mut popped: usize = 0;
    let mut stopped = false;
    let mut written: usize = 0;
    let mut last: Option<Vec<u8>> = None;
    let ghost mut states: Seq<fst::SetBuilder<Vec<u8>>> = Seq::empty();
    while i < n && !stopped
        invariant
            n == ov.len(),
            m == pv.len(),
            ov == olds.deep_view(),
            pv == push.deep_view(),
            popv == term_set(*pop),
            strictly_ascending(ov),
            ascending(pv),
            merge_state(ov, pv, popv, built_terms(*builder), i as int, j as int),
            count == built_terms(*builder).len(),
            count == moved + pushed,
            moved + popped <= i,
            last is None <==> count == 0,
            last matches Some(l) ==> l@ == built_terms(*builder).last(),
            states_ok(states, built_terms(*builder), *config),
            stopped ==> over_limits(written as int, count as int, *config),
            stopped ==> written == built_size(*builder),
        decreases n - i + m - j, (if stopped { 0int } else { 1int }),
    {
        let w = &olds[i];
        let ghost j_start = j as int;
        let mut front_done = false;
        while j < m && !front_done && !stopped
            invariant
                n == ov.len(),
                m == pv.len(),
                ov == olds.deep_view(),
                pv == push.deep_view(),
                popv == term_set(*pop),
                strictly_ascending(ov),
                ascending(pv),
                i < n,
                j_start <= j,
                w@ == ov[i as int],
                merge_state(ov, pv, popv, built_terms(*builder), i as int, j as int),
                count == built_terms(*builder).len(),
                count == moved + pushed,
                moved + popped <= i,
                last is None <==> count == 0,
                last matches Some(l) ==> l@ == built_terms(*builder).last(),
                states_ok(states, built_terms(*builder), *config),
                stopped ==> over_limits(written as int, count as int, *config),
                stopped ==> written == built_size(*builder),
                front_done ==> j < m && lex_lt(ov[i as int], pv[j as int]),
            decreases m - j, (if front_done || stopped { 0int } else { 1int }),
        {
            let p = &push[j];
            let ghost e0 = built_terms(*builder);
            let ghost b0 = *builder;
            let ghost jj = j as int;
            proof {
                assert(p@ == pv[jj]);
            }
            if bytes_lt(w.as_slice(), p.as_slice()) {
                front_done = true;
            } else {
                proof {
                    lemma_lex_total(w@, p@);
                    assert(lex_le(p@, w@));
                    assert(pv.to_set().contains(p@)) by {
                        assert(pv.contains(p@));
                    }
                }
                match emit(builder, p.as_slice(), &mut last, count, config) {
                    Emit::Stop(size) => {
                        stopped = true;
                        written = size;
                    },
                    Emit::Same => {
                        j = j + 1;
                    },
                    Emit::Added(_) => {
                        proof {
                            lemma_states_push(states, e0, b0, p@, *config);
                            states = states.push(b0);
                        }
                        count = count + 1;
                        pushed = pushed + 1;
                        j = j + 1;
                    },
                }
                if !stopped {
                    proof {
                        let e = built_terms(*builder);
                        lemma_after_emit(e0, e, p@);
                        assert forall|b: int| 0 <= b < j implies e.contains(#[trigger] pv[b]) by {
                            if b < jj {
                                assert(e0.contains(pv[b]));
                                let q = choose|q: int| 0 <= q < e0.len() && e0[q] == pv[b];
                                assert(e[q] == pv[b]);
                            }
                        }
                        assert forall|a: int|
                            0 <= a < i && !popv.contains(ov[a]) implies e.contains(
                            #[trigger] ov[a],
                        ) by {
                            assert(e0.contains(ov[a]));
                            let q = choose|q: int| 0 <= q < e0.len() && e0[q] == ov[a];
                            assert(e[q] == ov[a]);
                        }
                        assert forall|k: int|
                            0 <= k < e.len() implies in_target(
                            ov,
                            pv.to_set(),
                            popv,
                            #[trigger] e[k],
                        ) by {
                            if k < e0.len() {
                                assert(e[k] == e0[k]);
                            }
                        }
                        if j < m {
                            assert(lex_le(pv[jj], pv[j as int]));
                        }
                    }
                }
            }
        }
        if !stopped {
            let ghost e0 = built_terms(*builder);
            let ghost b0 = *builder;
            let ghost ii = i as int;
            proof {
                assert(w@ == ov[ii]);
            }
            if !pop.contains(w.as_slice()) {
                proof {
                    assert(ov.contains(w@));
                    if !front_done {
                        assert(j == m);
                    }
                }
                match emit(builder, w.as_slice(), &mut last, count, config) {
                    Emit::Stop(size) => {
                        stopped = true;
                        written = size;
                    },
                    Emit::Same => {
                        i = i + 1;
                    },
                    Emit::Added(_) => {
                        proof {
                            lemma_states_push(states, e0, b0, w@, *config);
                            states = states.push(b0);
                        }
                        count = count + 1;
                        moved = moved + 1;
                        i = i + 1;
                    },
                }
                if !stopped {
                    proof {
                        let e = built_terms(*builder);
                        lemma_after_emit(e0, e, w@);
                        assert forall|b: int| 0 <= b < j implies e.contains(#[trigger] pv[b]) by {
                            assert(e0.contains(pv[b]));
                            let q = choose|q: int| 0 <= q < e0.len() && e0[q] == pv[b];
                            assert(e[q] == pv[b]);
                        }
                        assert forall|a: int|
                            0 <= a < i && !popv.contains(ov[a]) implies e.contains(
                            #[trigger] ov[a],
                        ) by {
                            if a < ii {
                                assert(e0.contains(ov[a]));
                                let q = choose|q: int| 0 <= q < e0.len() && e0[q] == ov[a];
                                assert(e[q] == ov[a]);
                            }
                        }
                        assert forall|k: int|
                            0 <= k < e.len() implies in_target(
                            ov,
                            pv.to_set(),
                            popv,
                            #[trigger] e[k],
                        ) by {
                            if k < e0.len() {
                                assert(e[k] == e0[k]);
                            }
                        }
                        if i < n {
                            assert(lex_lt(ov[ii], ov[i as int]));
                        }
                    }
                }
            } else {
                popped = popped + 1;
                i = i + 1;
                proof {
                    let e = built_terms(*builder);
                    if e.len() > 0 && i < n {
                        assert(lex_lt(ov[ii], ov[i as int]));
                        lemma_lex_le_lt(e.last(), ov[ii], ov[i as int]);
                    }
                }
            }
        }
    }
    while j < m && !stopped
        invariant
            n == ov.len(),
            m == pv.len(),
            ov == olds.deep_view(),
            pv == push.deep_view(),
            popv == term_set(*pop),
            strictly_ascending(ov),
            ascending(pv),
            stopped || i == n,
            merge_state(ov, pv, popv, built_terms(*builder), i as int, j as int),
            count == built_terms(*builder).len(),
            count == moved + pushed,
            moved + popped <= i,
            last is None <==> count == 0,
            last matches Some(l) ==> l@ == built_terms(*builder).last(),
            states_ok(states, built_terms(*builder), *config),
            stopped ==> over_limits(written as int, count as int, *config),
            stopped ==> written == built_size(*builder),
        decreases m - j, (if stopped { 0int } else { 1int }),
    {
        let p = &push[j];
        let ghost e0 = built_terms(*builder);
        let ghost b0 = *builder;
        let ghost jj = j as int;
        proof {
            assert(p@ == pv[jj]);
            assert(pv.to_set().contains(p@)) by {
                assert(pv.contains(p@));
            }
        }
        match emit(builder, p.as_slice(), &mut last, count, config) {
            Emit::Stop(size) => {
                stopped = true;
                written = size;
            },
            Emit::Same => {
                j = j + 1;
            },
            Emit::Added(_) => {
                proof {
                    lemma_states_push(states, e0, b0, p@, *config);
                    states = states.push(b0);
                }
                count = count + 1;
                pushed = pushed + 1;
                j = j + 1;
            },
        }
        if !stopped {
            proof {
                let e = built_terms(*builder);
                lemma_after_emit(e0, e, p@);
                assert forall|b: int| 0 <= b < j implies e.contains(#[trigger] pv[b]) by {
                    if b < jj {
                        assert(e0.contains(pv[b]));
                        let q = choose|q: int| 0 <= q < e0.len() && e0[q] == pv[b];
                        assert(e[q] == pv[b]);
                    }
                }
                assert forall|a: int|
                    0 <= a < i && !popv.contains(ov[a]) implies e.contains(#[trigger] ov[a]) by {
                    assert(e0.contains(ov[a]));
                    let q = choose|q: int| 0 <= q < e0.len() && e0[q] == ov[a];
                    assert(e[q] == ov[a]);
                }
                assert forall|k: int|
                    0 <= k < e.len() implies in_target(ov, pv.to_set(), popv, #[trigger] e[k]) by {
                    if k < e0.len() {
                        assert(e[k] == e0[k]);
                    }
                }
                if j < m {
                    assert(lex_le(pv[jj], pv[j as int]));
                }
            }
        }
    }
    if !stopped {
        written = builder_size(builder);
    }
    proof {
        let e = built_terms(*builder);
        let target = target_set(ov, pv.to_set(), popv);
        if e.len() > 0 {
            lemma_merge_prefix(ov, pv, popv, e, i as int, j as int);
        }
        assert forall|k: int| 0 <= k < e.len() implies target.contains(#[trigger] e[k]) by {
            assert(in_target(ov, pv.to_set(), popv, e[k]));
        }
        if !stopped {
            assert forall|t: Seq<u8>| target.contains(t) implies e.contains(t) by {
                if pv.to_set().contains(t) {
                    let b = choose|b: int| 0 <= b < pv.len() && pv[b] == t;
                    assert(e.contains(pv[b]));
                } else {
                    let a = choose|a: int| 0 <= a < ov.len() && ov[a] == t;
                    assert(e.contains(ov[a]));
                }
            }
        }
        if e.len() > 0 {
            assert(states_ok(states, e, *config));
            assert(!over_limits(built_size(states[e.len() - 1]) as int, e.len() - 1, *config));
        }
    }
    ConsolidateCounts {
        moved,
        pushed,
        popped,
        truncated: stopped,
        written,
        states: Ghost(states),
        last: Ghost(*builder),
    }
}

/// What consolidating one graph gave.
pub enum ConsolidateItem {
    /// Nothing was pending.
    Skipped,
    /// The new set could not be sealed; the old one stays.
    Failed(ConsolidateCounts),
    /// The encoding of the new set, to install in place of the old one.
    Built(Vec<u8>, ConsolidateCounts),
}

/// Merges a graph's journal into a new ordered set: its old terms but the
/// deleted ones, with the pushed terms, in order and within the limits.
/// The journal is emptied whatever the outcome.
pub fn consolidate_item(store: &mut StoreFST, config: &StoreFSTConfig) -> (r: ConsolidateItem)
    requires
        old(store).wf(),
    ensures
        final(store).pending.push_set().is_empty(),
        final(store).pending.pop_set().is_empty(),
        final(store).pending.wf(),
        final(store).graph == old(store).graph,
        final(store).target == old(store).target,
        (r is Skipped) <==> (old(store).pending.push_set().is_empty()
            && old(store).pending.pop_set().is_empty()),
        !(old(store).pending.push_set().is_empty() && old(store).pending.pop_set().is_empty())
            ==> r is Built,
        r matches ConsolidateItem::Built(bytes, counts) ==> merged(
            decoded_terms(bytes@),
            target_set(
                set_terms(old(store).graph),
                old(store).pending.push_set(),
                old(store).pending.pop_set(),
            ),
            counts,
            *config,
        ) && counts.moved + counts.popped <= set_terms(old(store).graph).len() && sealed(bytes@),
{
    if store.pending.is_empty() {
        return ConsolidateItem::Skipped;
    }
    let olds = graph_stream(&store.graph);
    let mut push = store.pending.push.to_vec();
    sort_terms(&mut push);
    let mut builder = builder_new();
    let counts = merge_into(&olds, &push, &store.pending.pop, &mut builder, config);
    proof {
        assert(push.deep_view().to_set() =~= store.pending.push_set());
    }
    let sealed = builder_finish(builder);
    store.pending.clear();
    match sealed {
        Some(bytes) => ConsolidateItem::Built(bytes, counts),
        None => ConsolidateItem::Failed(counts),
    }
}

} // verus!
