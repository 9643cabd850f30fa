use crate::action::{pop_outcome, push_outcome, StoreFSTAction};
use crate::consolidate::{merged, target_set, ConsolidateCounts};
use crate::dump::{backup_text, lemma_backup_lines, line_safe, lines_of};
use crate::graph::{over_limits, StoreFSTConfig};
use crate::terms::{lemma_lex_asym, lex_lt, over_limit, strictly_ascending};
use vstd::prelude::*;

verus! {

/// No term waits at once for insertion and for deletion.
pub proof fn lemma_journal_disjoint(h: StoreFSTAction, t: Seq<u8>)
    requires
        h.wf(),
    ensures
        !(h.push_set().contains(t) && h.pop_set().contains(t)),
{
}

/// Pushing a term that the graph lacks and then popping it leaves the
/// journal as it was; so does popping a term that the graph holds and then
/// pushing it.
pub proof fn lemma_cancellation(
    push: Set<Seq<u8>>,
    pop: Set<Seq<u8>>,
    terms: Seq<Seq<u8>>,
    size: int,
    t: Seq<u8>,
    config: StoreFSTConfig,
)
    requires
        !push.contains(t),
        !pop.contains(t),
    ensures
        ({
            let (ok, push1, pop1) = push_outcome(push, pop, terms, size, t, config);
            let (ok2, push2, pop2) = pop_outcome(push1, pop1, terms, t);
            !terms.contains(t) && ok ==> ok2 && push2 == push && pop2 == pop
        }),
        ({
            let (ok, push1, pop1) = pop_outcome(push, pop, terms, t);
            let (ok2, push2, pop2) = push_outcome(push1, pop1, terms, size, t, config);
            terms.contains(t) && ok ==> ok2 && push2 == push && pop2 == pop
        }),
{
    assert(push.insert(t).remove(t) =~= push);
    assert(pop.insert(t).remove(t) =~= pop);
}

/// A push of a new term succeeds while fewer than `max_words` terms wait
/// for insertion; once that many wait, the push of another new term fails.
pub proof fn lemma_push_cap(
    push: Set<Seq<u8>>,
    pop: Set<Seq<u8>>,
    terms: Seq<Seq<u8>>,
    size: int,
    t: Seq<u8>,
    u: Seq<u8>,
    config: StoreFSTConfig,
)
    requires
        push.finite(),
        push.len() + 1 == config.max_words,
        !over_limits(size, terms.len() as int, config),
        !over_limit(t.len()),
        !push.contains(t),
        !pop.contains(t),
        !terms.contains(t),
        !pop.contains(u),
        !push.contains(u),
        u != t,
    ensures
        ({
            let (ok, push1, pop1) = push_outcome(push, pop, terms, size, t, config);
            let (ok2, push2, pop2) = push_outcome(push1, pop1, terms, size, u, config);
            ok && push1.len() == config.max_words && !ok2 && push2 == push1
        }),
{
}

/// Two strictly ascending lists with the same terms are the same list.
pub proof fn lemma_sorted_unique(a: Seq<Seq<u8>>, b: Seq<Seq<u8>>)
    requires
        strictly_ascending(a),
        strictly_ascending(b),
        forall|t: Seq<u8>| a.contains(t) <==> b.contains(t),
    ensures
        a == b,
    decreases a.len(),
{
    if a.len() == 0 {
        if b.len() > 0 {
            assert(b.contains(b[0]));
        }
        assert(a =~= b);
    } else if b.len() == 0 {
        assert(a.contains(a[0]));
    } else {
        assert(a.contains(a[0]));
        assert(b.contains(b[0]));
        if a[0] != b[0] {
            let k = choose|k: int| 0 <= k < b.len() && b[k] == a[0];
            let m = choose|m: int| 0 <= m < a.len() && a[m] == b[0];
            assert(k > 0 && m > 0);
            assert(lex_lt(b[0], b[k]));
            assert(lex_lt(a[0], a[m]));
            lemma_lex_asym(a[0], b[0]);
        }
        let a2 = a.drop_first();
        let b2 = b.drop_first();
        assert forall|t: Seq<u8>| a2.contains(t) <==> b2.contains(t) by {
            if a2.contains(t) {
                let i = choose|i: int| 0 <= i < a2.len() && a2[i] == t;
                assert(a[i + 1] == t);
                assert(lex_lt(a[0], a[i + 1]));
                lemma_lex_asym(a[0], t);
                assert(b.contains(t));
                let j = choose|j: int| 0 <= j < b.len() && b[j] == t;
                assert(j != 0);
                assert(b2[j - 1] == t);
            }
            if b2.contains(t) {
                let i = choose|i: int| 0 <= i < b2.len() && b2[i] == t;
                assert(b[i + 1] == t);
                assert(lex_lt(b[0], b[i + 1]));
                lemma_lex_asym(b[0], t);
                assert(a.contains(t));
                let j = choose|j: int| 0 <= j < a.len() && a[j] == t;
                assert(j != 0);
                assert(a2[j - 1] == t);
            }
        }
        assert forall|x: int, y: int| 0 <= x < y < a2.len() implies lex_lt(#[trigger] a2[x], #[trigger] a2[y]) by {
            assert(a2[x] == a[x + 1] && a2[y] == a[y + 1]);
        }
        assert forall|x: int, y: int| 0 <= x < y < b2.len() implies lex_lt(#[trigger] b2[x], #[trigger] b2[y]) by {
            assert(b2[x] == b[x + 1] && b2[y] == b[y + 1]);
        }
        lemma_sorted_unique(a2, b2);
        assert(a =~= b2.insert(0, b[0]));
        assert(b =~= b2.insert(0, b[0]));
    }
}

/// Consolidating pushed terms into an empty graph, within the limits,
/// gives exactly the pushed terms in ascending order, all counted as
/// pushed.
pub proof fn lemma_fresh_graph(
    e: Seq<Seq<u8>>,
    push: Set<Seq<u8>>,
    pop: Set<Seq<u8>>,
    sorted_push: Seq<Seq<u8>>,
    r: ConsolidateCounts,
    config: StoreFSTConfig,
)
    requires
        merged(e, target_set(Seq::empty(), push, pop), r, config),
        !r.truncated,
        strictly_ascending(sorted_push),
        forall|t: Seq<u8>| sorted_push.contains(t) <==> push.contains(t),
    ensures
        e == sorted_push,
        r.moved == 0 ==> r.pushed == sorted_push.len(),
{
    let target = target_set(Seq::empty(), push, pop);
    assert forall|t: Seq<u8>| e.contains(t) <==> sorted_push.contains(t) by {
        if e.contains(t) {
            let k = choose|k: int| 0 <= k < e.len() && e[k] == t;
            assert(target.contains(e[k]));
        }
        if sorted_push.contains(t) {
            assert(target.contains(t));
        }
    }
    lemma_sorted_unique(e, sorted_push);
}

/// The backup of a graph reads back as its terms, in the same order, so a
/// restore of it succeeds and gives back exactly those terms, provided no
/// term holds a newline.
pub proof fn lemma_backup_restore(terms: Seq<Seq<u8>>)
    requires
        strictly_ascending(terms),
        forall|i: int| 0 <= i < terms.len() ==> line_safe(#[trigger] terms[i]),
    ensures
        lines_of(backup_text(terms)) == terms,
        strictly_ascending(lines_of(backup_text(terms))),
{
    lemma_backup_lines(terms);
}

} // verus!
