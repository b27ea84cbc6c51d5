//! Dependency graph and topological extraction.
//!
//! `order` turns a set of transactions into a deterministic execution
//! sequence: repeatedly, every transaction whose declared dependencies are
//! all resolved is extracted, highest priority first (ties broken by
//! identifier), and a round's extractions only unblock the following
//! round. If a full round extracts nothing while transactions remain, the
//! remainder blocks on itself and a `CyclicDependency` error names one of
//! its members.
//!
//! Dependencies that name no transaction of the set are treated as already
//! settled here; `DAGProcessor::begin_schedule` checks beforehand that
//! every such identifier is confirmed in the pool.

use vstd::prelude::*;
use vstd::multiset::Multiset;
use vstd::seq_lib::lemma_multiset_commutative;

use crate::ids::{contains_str, id_in, lex_lt, str_lt};
use crate::txn::{views_of_ids, DAGTransaction, SchedulerError, TxView};

verus! {

/// The views of a list of transactions.
pub open spec fn views_of(s: Seq<DAGTransaction>) -> Seq<TxView> {
    Seq::new(s.len(), |i: int| s[i]@)
}

/// The identifiers of a list of transactions.
pub open spec fn ids_of(s: Seq<TxView>) -> Seq<Seq<char>> {
    Seq::new(s.len(), |i: int| s[i].id)
}

/// Every dependency of `t` that names a transaction of the graph
/// (`known`) is resolved. Dependencies outside `known` are not this
/// graph's to schedule.
pub open spec fn deps_met(t: TxView, resolved: Seq<Seq<char>>, known: Seq<Seq<char>>) -> bool {
    forall|k: int|
        0 <= k < t.dependencies.len() ==> id_in(resolved, #[trigger] t.dependencies[k]) || !id_in(
            known,
            t.dependencies[k],
        )
}

/// Partition a list into the transactions whose dependencies are met
/// (first component) and the rest, each keeping the input order.
pub open spec fn split_ready(
    s: Seq<TxView>,
    resolved: Seq<Seq<char>>,
    known: Seq<Seq<char>>,
) -> (Seq<TxView>, Seq<TxView>)
    decreases s.len(),
{
    if s.len() == 0 {
        (Seq::empty(), Seq::empty())
    } else {
        let p = split_ready(s.drop_last(), resolved, known);
        if deps_met(s.last(), resolved, known) {
            (p.0.push(s.last()), p.1)
        } else {
            (p.0, p.1.push(s.last()))
        }
    }
}

/// What the partition guarantees: the two parts cover the input exactly,
/// the first meets its dependencies, the second does not, and membership
/// is preserved.
pub proof fn lemma_split_ready(s: Seq<TxView>, resolved: Seq<Seq<char>>, known: Seq<Seq<char>>)
    ensures
        split_ready(s, resolved, known).0.len() + split_ready(s, resolved, known).1.len()
            == s.len(),
        forall|i: int|
            0 <= i < split_ready(s, resolved, known).0.len() ==> deps_met(
                #[trigger] split_ready(s, resolved, known).0[i],
                resolved,
                known,
            ),
        forall|i: int|
            0 <= i < split_ready(s, resolved, known).1.len() ==> !deps_met(
                #[trigger] split_ready(s, resolved, known).1[i],
                resolved,
                known,
            ),
        forall|t: TxView| #[trigger]
            split_ready(s, resolved, known).0.contains(t) ==> s.contains(t),
        forall|t: TxView| #[trigger]
            split_ready(s, resolved, known).1.contains(t) ==> s.contains(t),
        forall|t: TxView| #[trigger]
            s.contains(t) && !deps_met(t, resolved, known) ==> split_ready(
                s,
                resolved,
                known,
            ).1.contains(t),
        forall|t: TxView| #[trigger]
            s.contains(t) ==> split_ready(s, resolved, known).0.contains(t) || split_ready(
                s,
                resolved,
                known,
            ).1.contains(t),
        split_ready(s, resolved, known).0.to_multiset().add(
            split_ready(s, resolved, known).1.to_multiset(),
        ) == s.to_multiset(),
    decreases s.len(),
{
    broadcast use vstd::seq_lib::group_seq_properties;

    if s.len() == 0 {
        assert(s.to_multiset() =~= Multiset::empty().add(Multiset::empty()));
    } else {
        let d = s.drop_last();
        lemma_split_ready(d, resolved, known);
        assert(d.push(s.last()) =~= s);
        assert(d == s.take(s.len() - 1));
        assert(s.contains(s.last()));
        let p = split_ready(d, resolved, known);
        if deps_met(s.last(), resolved, known) {
            assert(p.0.push(s.last()).to_multiset() =~= p.0.to_multiset().insert(s.last()));
            assert(p.0.to_multiset().insert(s.last()).add(p.1.to_multiset()) =~= s.to_multiset());
        } else {
            assert(p.1.push(s.last()).to_multiset() =~= p.1.to_multiset().insert(s.last()));
            assert(p.0.to_multiset().add(p.1.to_multiset().insert(s.last())) =~= s.to_multiset());
        }
    }
}

/// When nothing is ready, the second part is the whole input.
pub proof fn lemma_split_ready_stuck(s: Seq<TxView>, resolved: Seq<Seq<char>>, known: Seq<Seq<char>>)
    requires
        split_ready(s, resolved, known).0.len() == 0,
    ensures
        split_ready(s, resolved, known).1 == s,
    decreases s.len(),
{
    if s.len() > 0 {
        lemma_split_ready_stuck(s.drop_last(), resolved, known);
        assert(split_ready(s, resolved, known).1 =~= s);
    } else {
        assert(split_ready(s, resolved, known).1 =~= s);
    }
}

/// The scheduling order between two transactions whose dependencies are
/// simultaneously satisfiable: higher priority first, then by identifier.
pub open spec fn key_better(a: TxView, b: TxView) -> bool {
    a.priority > b.priority || (a.priority == b.priority && lex_lt(a.id, b.id))
}

/// Index of the best transaction among the first `n`, scanning left to
/// right and replacing only on a strict improvement.
pub open spec fn best_upto(s: Seq<TxView>, n: int) -> int
    decreases n,
{
    if n <= 1 {
        0
    } else {
        let b = best_upto(s, n - 1);
        if key_better(s[n - 1], s[b]) {
            n - 1
        } else {
            b
        }
    }
}

pub proof fn lemma_best_upto(s: Seq<TxView>, n: int)
    requires
        1 <= n <= s.len(),
    ensures
        0 <= best_upto(s, n) < n,
    decreases n,
{
    if n > 1 {
        lemma_best_upto(s, n - 1);
    }
}

/// Selection order of a round: repeatedly extract the best remaining
/// transaction.
pub open spec fn sort_by_key(s: Seq<TxView>) -> Seq<TxView>
    decreases s.len(),
    via sort_by_key_decreases
{
    if s.len() == 0 {
        s
    } else {
        let b = best_upto(s, s.len() as int);
        seq![s[b]] + sort_by_key(s.remove(b))
    }
}

#[via_fn]
proof fn sort_by_key_decreases(s: Seq<TxView>) {
    if s.len() > 0 {
        lemma_best_upto(s, s.len() as int);
    }
}

/// Sorting a round keeps exactly its transactions.
pub proof fn lemma_sort_by_key_multiset(s: Seq<TxView>)
    ensures
        sort_by_key(s).to_multiset() == s.to_multiset(),
        sort_by_key(s).len() == s.len(),
        forall|t: TxView| #[trigger] sort_by_key(s).contains(t) ==> s.contains(t),
    decreases s.len(),
{
    broadcast use vstd::seq_lib::group_to_multiset_ensures;

    if s.len() > 0 {
        let b = best_upto(s, s.len() as int);
        lemma_best_upto(s, s.len() as int);
        let rest = s.remove(b);
        lemma_sort_by_key_multiset(rest);
        assert(s.contains(s[b]));
        lemma_multiset_commutative(seq![s[b]], sort_by_key(rest));
        assert(seq![s[b]].to_multiset() =~= Multiset::empty().insert(s[b]));
        assert(sort_by_key(s).to_multiset() =~= s.to_multiset()) by {
            assert(rest.to_multiset() == s.to_multiset().remove(s[b]));
            assert(s.to_multiset().count(s[b]) > 0);
        }
        assert forall|t: TxView| #[trigger] sort_by_key(s).contains(t) implies s.contains(t) by {
            assert(sort_by_key(s).to_multiset().count(t) > 0);
            assert(s.to_multiset().count(t) > 0);
        }
    }
}

/// The rounds of the extraction, in tail form: `out` already extracted,
/// `resolved` their identifiers (plus anything settled beforehand),
/// `remaining` still to place. One round partitions the remainder,
/// fails if nothing is ready, and otherwise appends the ready
/// transactions in selection order.
pub open spec fn order_rounds(
    remaining: Seq<TxView>,
    resolved: Seq<Seq<char>>,
    known: Seq<Seq<char>>,
    out: Seq<TxView>,
) -> Result<Seq<TxView>, Seq<char>>
    decreases remaining.len(),
    via order_rounds_decreases
{
    if remaining.len() == 0 {
        Ok(out)
    } else {
        let p = split_ready(remaining, resolved, known);
        if p.0.len() == 0 {
            Err(remaining[0].id)
        } else {
            order_rounds(p.1, resolved + ids_of(p.0), known, out + sort_by_key(p.0))
        }
    }
}

#[via_fn]
proof fn order_rounds_decreases(
    remaining: Seq<TxView>,
    resolved: Seq<Seq<char>>,
    known: Seq<Seq<char>>,
    out: Seq<TxView>,
) {
    if remaining.len() > 0 {
        lemma_split_ready(remaining, resolved, known);
    }
}

/// The whole extraction, as a function of the input alone: nothing
/// resolved to begin with, and exactly the input's identifiers known.
/// `order` returns precisely this; calling it twice on the same input
/// yields the same result.
pub open spec fn order_spec(txs: Seq<TxView>) -> Result<Seq<TxView>, Seq<char>> {
    order_rounds(txs, Seq::empty(), ids_of(txs), Seq::empty())
}

/// An identifier occurs in a concatenation exactly when it occurs in a part.
pub proof fn lemma_id_in_concat(a: Seq<Seq<char>>, b: Seq<Seq<char>>, x: Seq<char>)
    ensures
        id_in(a + b, x) == (id_in(a, x) || id_in(b, x)),
{
    if id_in(a + b, x) {
        let i = choose|i: int| 0 <= i < (a + b).len() && (a + b)[i] == x;
        if i < a.len() {
            assert(a[i] == (a + b)[i]);
        } else {
            assert(b[i - a.len()] == (a + b)[i]);
        }
    }
    if id_in(a, x) {
        let i = choose|i: int| 0 <= i < a.len() && a[i] == x;
        assert((a + b)[i] == a[i]);
    }
    if id_in(b, x) {
        let i = choose|i: int| 0 <= i < b.len() && b[i] == x;
        assert((a + b)[a.len() + i] == b[i]);
    }
}

/// The identifiers of a concatenation are the concatenated identifiers.
pub proof fn lemma_ids_of_concat(a: Seq<TxView>, b: Seq<TxView>)
    ensures
        ids_of(a + b) =~= ids_of(a) + ids_of(b),
{
}

/// Whatever holds one way by multiset equality of contents holds for
/// membership in both directions.
pub proof fn lemma_sort_by_key_contains(s: Seq<TxView>)
    ensures
        forall|t: TxView| sort_by_key(s).contains(t) <==> s.contains(t),
{
    broadcast use vstd::seq_lib::group_to_multiset_ensures;

    lemma_sort_by_key_multiset(s);
    assert forall|t: TxView| #[trigger] s.contains(t) implies sort_by_key(s).contains(t) by {
        assert(s.to_multiset().count(t) > 0);
        assert(sort_by_key(s).to_multiset().count(t) > 0);
    }
    assert forall|t: TxView| #[trigger] sort_by_key(s).contains(t) implies s.contains(t) by {
        assert(sort_by_key(s).to_multiset().count(t) > 0);
        assert(s.to_multiset().count(t) > 0);
    }
}

/// The output is topologically ordered: every dependency that names a
/// transaction of the graph appears strictly earlier than its dependent.
pub open spec fn topo_sorted(o: Seq<TxView>, known: Seq<Seq<char>>) -> bool {
    forall|i: int, k: int|
        0 <= i < o.len() && 0 <= k < o[i].dependencies.len() && id_in(
            known,
            #[trigger] o[i].dependencies[k],
        ) ==> exists|j: int| 0 <= j < i && o[j].id == o[i].dependencies[k]
}

proof fn lemma_order_rounds_props(
    remaining: Seq<TxView>,
    resolved: Seq<Seq<char>>,
    known: Seq<Seq<char>>,
    out: Seq<TxView>,
    o: Seq<TxView>,
)
    requires
        order_rounds(remaining, resolved, known, out) == Ok::<Seq<TxView>, Seq<char>>(o),
        topo_sorted(out, known),
        forall|x: Seq<char>| id_in(resolved, x) <==> id_in(ids_of(out), x),
    ensures
        topo_sorted(o, known),
        o.to_multiset() == out.to_multiset().add(remaining.to_multiset()),
        o.len() == out.len() + remaining.len(),
    decreases remaining.len(),
{
    broadcast use vstd::seq_lib::group_to_multiset_ensures;

    if remaining.len() == 0 {
        assert(o == out);
        assert(remaining.to_multiset() =~= Multiset::empty());
        assert(o.to_multiset() =~= out.to_multiset().add(remaining.to_multiset()));
    } else {
        let p = split_ready(remaining, resolved, known);
        lemma_split_ready(remaining, resolved, known);
        let srt = sort_by_key(p.0);
        lemma_sort_by_key_multiset(p.0);
        lemma_sort_by_key_contains(p.0);
        let out2 = out + srt;
        let resolved2 = resolved + ids_of(p.0);

        // The new prefix stays topologically ordered: a ready transaction's
        // known dependencies were resolved, hence already in `out`.
        assert forall|i: int, k: int|
            0 <= i < out2.len() && 0 <= k < out2[i].dependencies.len() && id_in(
                known,
                #[trigger] out2[i].dependencies[k],
            ) implies exists|j: int| 0 <= j < i && out2[j].id == out2[i].dependencies[k] by {
            if i < out.len() {
                assert(out2[i] == out[i]);
                let j = choose|j: int| 0 <= j < i && out[j].id == out[i].dependencies[k];
                assert(out2[j] == out[j]);
                assert(out2[j].id == out2[i].dependencies[k]);
            } else {
                let t = out2[i];
                assert(t == srt[i - out.len()]);
                assert(srt.contains(t));
                assert(p.0.contains(t));
                let pi = choose|pi: int| 0 <= pi < p.0.len() && p.0[pi] == t;
                assert(deps_met(p.0[pi], resolved, known));
                let d = t.dependencies[k];
                assert(id_in(resolved, d));
                assert(id_in(ids_of(out), d));
                let j = choose|j: int| 0 <= j < ids_of(out).len() && ids_of(out)[j] == d;
                assert(out2[j] == out[j]);
                assert(out2[j].id == d);
            }
        }

        // The resolved identifiers remain exactly the emitted ones.
        assert forall|x: Seq<char>| id_in(resolved2, x) <==> id_in(ids_of(out2), x) by {
            lemma_id_in_concat(resolved, ids_of(p.0), x);
            lemma_ids_of_concat(out, srt);
            lemma_id_in_concat(ids_of(out), ids_of(srt), x);
            assert(id_in(ids_of(p.0), x) <==> id_in(ids_of(srt), x)) by {
                if id_in(ids_of(p.0), x) {
                    let i = choose|i: int| 0 <= i < p.0.len() && ids_of(p.0)[i] == x;
                    assert(p.0.contains(p.0[i]));
                    assert(srt.contains(p.0[i]));
                    let j = choose|j: int| 0 <= j < srt.len() && srt[j] == p.0[i];
                    assert(ids_of(srt)[j] == x);
                }
                if id_in(ids_of(srt), x) {
                    let i = choose|i: int| 0 <= i < srt.len() && ids_of(srt)[i] == x;
                    assert(srt.contains(srt[i]));
                    assert(p.0.contains(srt[i]));
                    let j = choose|j: int| 0 <= j < p.0.len() && p.0[j] == srt[i];
                    assert(ids_of(p.0)[j] == x);
                }
            }
        }

        lemma_order_rounds_props(p.1, resolved2, known, out2, o);
        lemma_multiset_commutative(out, srt);
        assert(o.to_multiset() =~= out.to_multiset().add(remaining.to_multiset()));
    }
}

/// On success, `order` returns a permutation of its input in which every
/// transaction stands after all of its dependencies that belong to the
/// input.
pub proof fn lemma_order_topological(txs: Seq<TxView>, o: Seq<TxView>)
    requires
        order_spec(txs) == Ok::<Seq<TxView>, Seq<char>>(o),
    ensures
        topo_sorted(o, ids_of(txs)),
        o.to_multiset() == txs.to_multiset(),
        o.len() == txs.len(),
{
    broadcast use vstd::seq_lib::group_to_multiset_ensures;

    assert(forall|x: Seq<char>|
        !id_in(Seq::<Seq<char>>::empty(), x) && !id_in(ids_of(Seq::<TxView>::empty()), x));
    lemma_order_rounds_props(
        txs,
        Seq::<Seq<char>>::empty(),
        ids_of(txs),
        Seq::<TxView>::empty(),
        o,
    );
    assert(o.to_multiset() =~= txs.to_multiset());
}

proof fn lemma_two_indexes_count(s: Seq<TxView>, i: int, j: int)
    requires
        0 <= i < j < s.len(),
        s[i] == s[j],
    ensures
        s.to_multiset().count(s[i]) >= 2,
{
    broadcast use vstd::seq_lib::group_to_multiset_ensures;

    let s1 = s.subrange(0, j);
    let s2 = s.subrange(j, s.len() as int);
    assert(s =~= s1 + s2);
    lemma_multiset_commutative(s1, s2);
    assert(s1[i] == s[i]);
    assert(s1.contains(s[i]));
    assert(s2[0] == s[j]);
    assert(s2.contains(s[j]));
}

proof fn lemma_count_two_indexes(s: Seq<TxView>, v: TxView)
    requires
        s.to_multiset().count(v) >= 2,
    ensures
        exists|i: int, j: int| 0 <= i < j < s.len() && s[i] == v && s[j] == v,
{
    broadcast use vstd::seq_lib::group_to_multiset_ensures;

    assert(s.contains(v));
    let i = choose|i: int| 0 <= i < s.len() && s[i] == v;
    let s3 = s.remove(i);
    assert(s3.to_multiset() == s.to_multiset().remove(v));
    assert(s3.to_multiset().count(v) >= 1);
    assert(s3.contains(v));
    let j0 = choose|j0: int| 0 <= j0 < s3.len() && s3[j0] == v;
    s.remove_ensures(i);
    if j0 < i {
        assert(s[j0] == v && s[i] == v);
    } else {
        assert(s[j0 + 1] == v && s[i] == v);
    }
}

/// A rearrangement of a set of transactions with unique identifiers
/// keeps the identifiers unique.
pub proof fn lemma_distinct_ids_permutation(txs: Seq<TxView>, o: Seq<TxView>)
    requires
        o.to_multiset() == txs.to_multiset(),
        ids_of(txs).no_duplicates(),
    ensures
        ids_of(o).no_duplicates(),
{
    broadcast use vstd::seq_lib::group_to_multiset_ensures;

    assert forall|i: int, j: int|
        0 <= i < ids_of(o).len() && 0 <= j < ids_of(o).len() && i != j implies ids_of(o)[i]
        != ids_of(o)[j] by {
        if ids_of(o)[i] == ids_of(o)[j] {
            let a = o[i];
            let b = o[j];
            assert(a.id == b.id);
            if a == b {
                if i < j {
                    lemma_two_indexes_count(o, i, j);
                } else {
                    lemma_two_indexes_count(o, j, i);
                }
                lemma_count_two_indexes(txs, a);
                let (ti, tj) = choose|ti: int, tj: int|
                    0 <= ti < tj < txs.len() && txs[ti] == a && txs[tj] == a;
                assert(ids_of(txs)[ti] == ids_of(txs)[tj]);
                assert(false);
            } else {
                assert(o.contains(a));
                assert(o.to_multiset().count(a) > 0);
                assert(txs.to_multiset().count(a) > 0);
                assert(txs.contains(a));
                assert(o.contains(b));
                assert(o.to_multiset().count(b) > 0);
                assert(txs.to_multiset().count(b) > 0);
                assert(txs.contains(b));
                let ti = choose|ti: int| 0 <= ti < txs.len() && txs[ti] == a;
                let tj = choose|tj: int| 0 <= tj < txs.len() && txs[tj] == b;
                assert(ti != tj);
                assert(ids_of(txs)[ti] == ids_of(txs)[tj]);
                assert(false);
            }
        }
    }
}

/// A dependency cycle: a non-empty ring of input positions, each
/// depending on the identifier of the next.
pub open spec fn is_cycle(txs: Seq<TxView>, c: Seq<int>) -> bool {
    c.len() > 0 && forall|k: int|
        0 <= k < c.len() ==> 0 <= #[trigger] c[k] < txs.len() && txs[c[k]].dependencies.contains(
            txs[c[(k + 1) % (c.len() as int)]].id,
        )
}

#[verifier::rlimit(50)]
proof fn lemma_cycle_blocked(
    remaining: Seq<TxView>,
    resolved: Seq<Seq<char>>,
    known: Seq<Seq<char>>,
    out: Seq<TxView>,
    txs: Seq<TxView>,
    c: Seq<int>,
)
    requires
        is_cycle(txs, c),
        ids_of(txs).no_duplicates(),
        forall|t: TxView| #[trigger] remaining.contains(t) ==> txs.contains(t),
        forall|k: int| 0 <= k < c.len() ==> remaining.contains(txs[#[trigger] c[k]]),
        forall|k: int| 0 <= k < c.len() ==> !id_in(resolved, txs[#[trigger] c[k]].id),
        forall|k: int| 0 <= k < c.len() ==> id_in(known, txs[#[trigger] c[k]].id),
    ensures
        order_rounds(remaining, resolved, known, out) is Err,
    decreases remaining.len(),
{
    assert(remaining.contains(txs[c[0]]));
    assert(remaining.len() > 0);
    let p = split_ready(remaining, resolved, known);
    lemma_split_ready(remaining, resolved, known);

    // No member of the cycle is ready: each one's dependency on the next
    // member is known and unresolved.
    assert forall|k: int| 0 <= k < c.len() implies !deps_met(
        txs[#[trigger] c[k]],
        resolved,
        known,
    ) by {
        let nk = (k + 1) % (c.len() as int);
        let d = txs[c[nk]].id;
        let di = choose|di: int|
            0 <= di < txs[c[k]].dependencies.len() && txs[c[k]].dependencies[di] == d;
        assert(id_in(known, txs[c[k]].dependencies[di]));
        assert(!id_in(resolved, txs[c[k]].dependencies[di]));
    }

    if p.0.len() == 0 {
        // The round extracts nothing: the extraction fails here.
    } else {
        // Cycle members all fall in the unready remainder.
        assert forall|k: int| 0 <= k < c.len() implies p.1.contains(txs[#[trigger] c[k]]) by {
            assert(remaining.contains(txs[c[k]]));
            assert(!deps_met(txs[c[k]], resolved, known));
        }
        // Nothing extracted this round carries a cycle member's identifier:
        // identifiers are unique, so it would be the member itself, which
        // is not ready.
        let resolved2 = resolved + ids_of(p.0);
        assert forall|k: int| 0 <= k < c.len() implies !id_in(
            resolved2,
            txs[#[trigger] c[k]].id,
        ) by {
            lemma_id_in_concat(resolved, ids_of(p.0), txs[c[k]].id);
            if id_in(ids_of(p.0), txs[c[k]].id) {
                let i = choose|i: int| 0 <= i < p.0.len() && ids_of(p.0)[i] == txs[c[k]].id;
                assert(p.0.contains(p.0[i]));
                assert(remaining.contains(p.0[i]));
                assert(txs.contains(p.0[i]));
                let j = choose|j: int| 0 <= j < txs.len() && txs[j] == p.0[i];
                assert(ids_of(txs)[j] == txs[c[k]].id);
                assert(ids_of(txs)[c[k]] == txs[c[k]].id);
                assert(j == c[k]);
                assert(deps_met(p.0[i], resolved, known));
                assert(false);
            }
        }
        lemma_cycle_blocked(p.1, resolved2, known, out + sort_by_key(p.0), txs, c);
    }
}

/// A submission set that contains a dependency cycle is rejected: the
/// extraction fails with `CyclicDependency` (identifiers assumed unique,
/// as the transaction invariant demands).
pub proof fn lemma_cycle_detected(txs: Seq<TxView>, c: Seq<int>)
    requires
        is_cycle(txs, c),
        ids_of(txs).no_duplicates(),
    ensures
        order_spec(txs) is Err,
{
    assert forall|k: int| 0 <= k < c.len() implies txs.contains(txs[#[trigger] c[k]]) by {
        assert(txs[c[k]] == txs[c[k]]);
    }
    assert forall|k: int| 0 <= k < c.len() implies id_in(ids_of(txs), txs[#[trigger] c[k]].id) by {
        assert(ids_of(txs)[c[k]] == txs[c[k]].id);
    }
    lemma_cycle_blocked(txs, Seq::<Seq<char>>::empty(), ids_of(txs), Seq::<TxView>::empty(), txs, c);
}

/// A self-blocking set: non-empty, and every member depends on some
/// member's identifier. Such a set can never make progress.
pub open spec fn self_blocked(r: Seq<TxView>) -> bool {
    r.len() > 0 && forall|i: int|
        #![trigger r[i]]
        0 <= i < r.len() ==> exists|k: int|
            0 <= k < r[i].dependencies.len() && id_in(ids_of(r), r[i].dependencies[k])
}

/// A round that extracts nothing leaves a self-blocking remainder.
#[verifier::rlimit(50)]
proof fn lemma_stuck_self_blocked(rem: Seq<TxView>, resolved: Seq<Seq<char>>, known: Seq<Seq<char>>)
    requires
        rem.len() > 0,
        split_ready(rem, resolved, known).0.len() == 0,
        forall|x: Seq<char>| #[trigger]
            id_in(known, x) ==> id_in(resolved, x) || id_in(ids_of(rem), x),
    ensures
        self_blocked(rem),
{
    lemma_split_ready(rem, resolved, known);
    lemma_split_ready_stuck(rem, resolved, known);
    assert forall|i: int| #![trigger rem[i]] 0 <= i < rem.len() implies exists|k: int|
        0 <= k < rem[i].dependencies.len() && id_in(ids_of(rem), rem[i].dependencies[k]) by {
        assert(split_ready(rem, resolved, known).1[i] == rem[i]);
        assert(!deps_met(rem[i], resolved, known));
        assert(exists|k: int|
            0 <= k < rem[i].dependencies.len() && !id_in(resolved, rem[i].dependencies[k])
                && id_in(known, rem[i].dependencies[k])) by {
            if forall|k: int|
                0 <= k < rem[i].dependencies.len() ==> id_in(
                    resolved,
                    #[trigger] rem[i].dependencies[k],
                ) || !id_in(known, rem[i].dependencies[k]) {
                assert(deps_met(rem[i], resolved, known));
            }
        }
        let k = choose|k: int|
            0 <= k < rem[i].dependencies.len() && !id_in(resolved, rem[i].dependencies[k])
                && id_in(known, rem[i].dependencies[k]);
        assert(id_in(ids_of(rem), rem[i].dependencies[k]));
    }
}

/// A round keeps every known identifier covered: it is resolved already,
/// extracted this round, or still in the remainder.
#[verifier::rlimit(50)]
proof fn lemma_round_coverage(rem: Seq<TxView>, resolved: Seq<Seq<char>>, known: Seq<Seq<char>>)
    requires
        forall|x: Seq<char>| #[trigger]
            id_in(known, x) ==> id_in(resolved, x) || id_in(ids_of(rem), x),
    ensures
        forall|x: Seq<char>| #[trigger]
            id_in(known, x) ==> id_in(
                resolved + ids_of(split_ready(rem, resolved, known).0),
                x,
            ) || id_in(ids_of(split_ready(rem, resolved, known).1), x),
{
    let p = split_ready(rem, resolved, known);
    lemma_split_ready(rem, resolved, known);
    assert forall|x: Seq<char>| #[trigger] id_in(known, x) implies id_in(
        resolved + ids_of(p.0),
        x,
    ) || id_in(ids_of(p.1), x) by {
        lemma_id_in_concat(resolved, ids_of(p.0), x);
        if !id_in(resolved, x) {
            assert(id_in(ids_of(rem), x));
            let i = choose|i: int| 0 <= i < ids_of(rem).len() && ids_of(rem)[i] == x;
            assert(rem[i].id == x);
            assert(rem.contains(rem[i]));
            if p.0.contains(rem[i]) {
                let j = choose|j: int| 0 <= j < p.0.len() && p.0[j] == rem[i];
                assert(ids_of(p.0)[j] == x);
                assert(id_in(ids_of(p.0), x));
            } else {
                assert(p.1.contains(rem[i]));
                let j = choose|j: int| 0 <= j < p.1.len() && p.1[j] == rem[i];
                assert(ids_of(p.1)[j] == x);
                assert(id_in(ids_of(p.1), x));
            }
        }
    }
}

proof fn lemma_err_blocked(
    rem: Seq<TxView>,
    resolved: Seq<Seq<char>>,
    known: Seq<Seq<char>>,
    out: Seq<TxView>,
    txs: Seq<TxView>,
)
    requires
        order_rounds(rem, resolved, known, out) is Err,
        forall|t: TxView| #[trigger] rem.contains(t) ==> txs.contains(t),
        forall|x: Seq<char>| #[trigger]
            id_in(known, x) ==> id_in(resolved, x) || id_in(ids_of(rem), x),
    ensures
        exists|r: Seq<TxView>| #[trigger]
            self_blocked(r) && (forall|t: TxView| r.contains(t) ==> txs.contains(t)),
    decreases rem.len(),
{
    assert(rem.len() > 0);
    let p = split_ready(rem, resolved, known);
    lemma_split_ready(rem, resolved, known);
    if p.0.len() == 0 {
        lemma_stuck_self_blocked(rem, resolved, known);
        assert(self_blocked(rem) && (forall|t: TxView| rem.contains(t) ==> txs.contains(t)));
    } else {
        lemma_round_coverage(rem, resolved, known);
        assert(forall|t: TxView| #[trigger] p.1.contains(t) ==> txs.contains(t));
        lemma_err_blocked(p.1, resolved + ids_of(p.0), known, out + sort_by_key(p.0), txs);
    }
}

/// The dependency of `r[i]` that points back into the blocked set.
spec fn blocked_dep_index(r: Seq<TxView>, i: int) -> int {
    choose|k: int| 0 <= k < r[i].dependencies.len() && id_in(ids_of(r), r[i].dependencies[k])
}

/// A member of the blocked set that `r[i]` depends on.
spec fn blocked_next(r: Seq<TxView>, i: int) -> int {
    choose|j: int| 0 <= j < r.len() && r[j].id == r[i].dependencies[blocked_dep_index(r, i)]
}

/// Follow the blocking dependencies for `m` steps, starting anywhere.
spec fn walk(r: Seq<TxView>, m: nat) -> int
    decreases m,
{
    if m == 0 {
        0
    } else {
        blocked_next(r, walk(r, (m - 1) as nat))
    }
}

proof fn lemma_blocked_next(r: Seq<TxView>, i: int)
    requires
        self_blocked(r),
        0 <= i < r.len(),
    ensures
        0 <= blocked_next(r, i) < r.len(),
        id_in(r[i].dependencies, r[blocked_next(r, i)].id),
{
    assert(exists|k: int|
        0 <= k < r[i].dependencies.len() && id_in(ids_of(r), r[i].dependencies[k]));
    let k = blocked_dep_index(r, i);
    assert(0 <= k < r[i].dependencies.len() && id_in(ids_of(r), r[i].dependencies[k]));
    let jj = choose|jj: int| 0 <= jj < ids_of(r).len() && ids_of(r)[jj] == r[i].dependencies[k];
    assert(r[jj].id == r[i].dependencies[k]);
    assert(exists|j: int| 0 <= j < r.len() && r[j].id == r[i].dependencies[k]);
    let j = blocked_next(r, i);
    assert(0 <= j < r.len() && r[j].id == r[i].dependencies[k]);
    assert(r[i].dependencies[k] == r[j].id);
}

proof fn lemma_walk_in_range(r: Seq<TxView>, m: nat)
    requires
        self_blocked(r),
    ensures
        0 <= walk(r, m) < r.len(),
    decreases m,
{
    if m > 0 {
        lemma_walk_in_range(r, (m - 1) as nat);
        lemma_blocked_next(r, walk(r, (m - 1) as nat));
    }
}

proof fn lemma_walk_repeats(r: Seq<TxView>)
    requires
        self_blocked(r),
    ensures
        exists|m1: int, m2: int|
            #![trigger walk(r, m1 as nat), walk(r, m2 as nat)]
            0 <= m1 < m2 <= r.len() && walk(r, m1 as nat) == walk(r, m2 as nat),
{
    let n = r.len() as int;
    let w = Seq::new((n + 1) as nat, |m: int| walk(r, m as nat));
    assert forall|m: int| 0 <= m <= n implies 0 <= #[trigger] w[m] < n by {
        lemma_walk_in_range(r, m as nat);
    }
    if forall|m1: int, m2: int|
        #![trigger w[m1], w[m2]]
        0 <= m1 < m2 <= n ==> w[m1] != w[m2] {
        assert(w.no_duplicates()) by {
            assert forall|a: int, b: int|
                0 <= a < w.len() && 0 <= b < w.len() && a != b implies w[a] != w[b] by {
                if a < b {
                    assert(w[a] != w[b]);
                } else {
                    assert(w[b] != w[a]);
                }
            }
        }
        w.unique_seq_to_set();
        assert(w.to_set().subset_of(vstd::set_lib::set_int_range(0, n))) by {
            assert forall|x: int| #[trigger]
                w.to_set().contains(x) implies vstd::set_lib::set_int_range(0, n).contains(x) by {
                assert(w.contains(x));
                let m = choose|m: int| 0 <= m < w.len() && w[m] == x;
                assert(0 <= w[m] < n);
            }
        }
        vstd::set_lib::lemma_int_range(0, n);
        vstd::set_lib::lemma_len_subset(w.to_set(), vstd::set_lib::set_int_range(0, n));
        assert(false);
    }
    let (m1, m2) = choose|m1: int, m2: int|
        #![trigger w[m1], w[m2]]
        0 <= m1 < m2 <= n && w[m1] == w[m2];
    assert(walk(r, m1 as nat) == w[m1]);
    assert(walk(r, m2 as nat) == w[m2]);
    assert(0 <= m1 < m2 <= r.len() && walk(r, m1 as nat) == walk(r, m2 as nat));
}

/// The position of a transaction in the input.
spec fn tx_index_of(txs: Seq<TxView>, v: TxView) -> int {
    choose|j: int| 0 <= j < txs.len() && txs[j] == v
}

/// Completeness of the cycle check: whenever the extraction fails, the
/// input really contains a dependency cycle. Together with
/// `lemma_cycle_detected`, failure and the presence of a cycle coincide;
/// in particular every acyclic submission set is ordered successfully.
#[verifier::rlimit(100)]
pub proof fn lemma_err_implies_cycle(txs: Seq<TxView>)
    requires
        order_spec(txs) is Err,
    ensures
        exists|c: Seq<int>| is_cycle(txs, c),
{
    assert forall|x: Seq<char>| #[trigger] id_in(ids_of(txs), x) implies id_in(
        Seq::<Seq<char>>::empty(),
        x,
    ) || id_in(ids_of(txs), x) by {}
    lemma_err_blocked(txs, Seq::<Seq<char>>::empty(), ids_of(txs), Seq::<TxView>::empty(), txs);
    let r = choose|r: Seq<TxView>|
        self_blocked(r) && (forall|t: TxView| r.contains(t) ==> txs.contains(t));
    lemma_walk_repeats(r);
    let (m1, m2) = choose|m1: int, m2: int|
        #![trigger walk(r, m1 as nat), walk(r, m2 as nat)]
        0 <= m1 < m2 <= r.len() && walk(r, m1 as nat) == walk(r, m2 as nat);
    let len = m2 - m1;
    let c = Seq::new(len as nat, |t: int| tx_index_of(txs, r[walk(r, (m1 + t) as nat)]));
    assert forall|t: int| #![trigger c[t]] 0 <= t < c.len() implies 0 <= c[t] < txs.len()
        && txs[c[t]].dependencies.contains(txs[c[(t + 1) % (c.len() as int)]].id) by {
        let it = walk(r, (m1 + t) as nat);
        lemma_walk_in_range(r, (m1 + t) as nat);
        assert(r.contains(r[it]));
        assert(txs.contains(r[it]));
        assert(exists|j: int| 0 <= j < txs.len() && txs[j] == r[it]);
        let jt = tx_index_of(txs, r[it]);
        assert(0 <= jt < txs.len() && txs[jt] == r[it]);
        assert(c[t] == jt);

        let tn = (t + 1) % (c.len() as int);
        let succ = if t < len - 1 {
            (m1 + t + 1) as nat
        } else {
            m1 as nat
        };
        let inx = walk(r, succ);
        assert(inx == walk(r, (m1 + t + 1) as nat)) by {
            if t == len - 1 {
                assert(walk(r, m2 as nat) == walk(r, m1 as nat));
            }
        }
        lemma_walk_in_range(r, succ);
        assert(r.contains(r[inx]));
        assert(txs.contains(r[inx]));
        assert(exists|j: int| 0 <= j < txs.len() && txs[j] == r[inx]);
        let jn = tx_index_of(txs, r[inx]);
        assert(0 <= jn < txs.len() && txs[jn] == r[inx]);
        assert(c[tn] == jn) by {
            if t < len - 1 {
                vstd::arithmetic::div_mod::lemma_small_mod((t + 1) as nat, c.len());
                assert(tn == t + 1);
            } else {
                vstd::arithmetic::div_mod::lemma_mod_self_0(c.len() as int);
                assert(tn == 0);
            }
        }
        // The walk step links the two members by a dependency.
        lemma_blocked_next(r, it);
        assert(blocked_next(r, it) == walk(r, (m1 + t + 1) as nat));
        assert(id_in(r[it].dependencies, r[inx].id));
        let k = choose|k: int|
            0 <= k < r[it].dependencies.len() && r[it].dependencies[k] == r[inx].id;
        assert(txs[jt].dependencies[k] == txs[jn].id);
        assert(txs[c[t]].dependencies.contains(txs[c[tn]].id));
    }
    assert(is_cycle(txs, c));
}

proof fn lemma_err_id_member(
    rem: Seq<TxView>,
    resolved: Seq<Seq<char>>,
    known: Seq<Seq<char>>,
    out: Seq<TxView>,
    txs: Seq<TxView>,
)
    requires
        order_rounds(rem, resolved, known, out) is Err,
        forall|t: TxView| #[trigger] rem.contains(t) ==> txs.contains(t),
    ensures
        id_in(ids_of(txs), order_rounds(rem, resolved, known, out)->Err_0),
    decreases rem.len(),
{
    assert(rem.len() > 0);
    let p = split_ready(rem, resolved, known);
    lemma_split_ready(rem, resolved, known);
    if p.0.len() == 0 {
        assert(rem.contains(rem[0]));
        assert(txs.contains(rem[0]));
        let j = choose|j: int| 0 <= j < txs.len() && txs[j] == rem[0];
        assert(ids_of(txs)[j] == rem[0].id);
        assert(id_in(ids_of(txs), rem[0].id));
    } else {
        lemma_err_id_member(p.1, resolved + ids_of(p.0), known, out + sort_by_key(p.0), txs);
    }
}

/// A cyclic-dependency failure names a transaction of the submission
/// set (one of the unresolved remainder).
pub proof fn lemma_cyclic_error_names_member(txs: Seq<TxView>)
    requires
        order_spec(txs) is Err,
    ensures
        id_in(ids_of(txs), order_spec(txs)->Err_0),
{
    lemma_err_id_member(txs, Seq::<Seq<char>>::empty(), ids_of(txs), Seq::<TxView>::empty(), txs);
}

/// Every acyclic submission set is ordered successfully; with
/// `lemma_order_topological`, it is returned in full, in an order that
/// respects every dependency.
pub proof fn lemma_acyclic_succeeds(txs: Seq<TxView>)
    requires
        forall|c: Seq<int>| !#[trigger] is_cycle(txs, c),
    ensures
        order_spec(txs) is Ok,
{
    if order_spec(txs) is Err {
        lemma_err_implies_cycle(txs);
        let c = choose|c: Seq<int>| is_cycle(txs, c);
        assert(false);
    }
}

/// Appending a transaction appends its view.
pub proof fn lemma_views_push(s: Seq<DAGTransaction>, t: DAGTransaction)
    ensures
        views_of(s.push(t)) =~= views_of(s).push(t@),
{
}

/// Removing a transaction removes its view.
pub proof fn lemma_views_remove(s: Seq<DAGTransaction>, i: int)
    requires
        0 <= i < s.len(),
    ensures
        views_of(s.remove(i)) =~= views_of(s).remove(i),
{
    s.remove_ensures(i);
    views_of(s).remove_ensures(i);
}

/// Whether every dependency of `t` that names a known transaction is
/// already resolved.
fn deps_ok(t: &DAGTransaction, resolved: &Vec<String>, known: &Vec<String>) -> (r: bool)
    ensures
        r == deps_met(t@, views_of_ids(resolved@), views_of_ids(known@)),
{
    let mut k: usize = 0;
    while k < t.dependencies.len()
        invariant
            k <= t.dependencies@.len(),
            forall|m: int|
                0 <= m < k ==> id_in(views_of_ids(resolved@), #[trigger] t@.dependencies[m])
                    || !id_in(views_of_ids(known@), t@.dependencies[m]),
        decreases t.dependencies@.len() - k,
    {
        let dep = &t.dependencies[k];
        let is_known = contains_str(known, dep);
        let is_resolved = contains_str(resolved, dep);
        proof {
            assert(t@.dependencies[k as int] == dep@);
        }
        if is_known && !is_resolved {
            return false;
        }
        k = k + 1;
    }
    true
}

/// The identifiers of a list of transactions, as owned strings.
pub fn collect_ids(txs: &Vec<DAGTransaction>) -> (r: Vec<String>)
    ensures
        views_of_ids(r@) == ids_of(views_of(txs@)),
{
    let mut r: Vec<String> = Vec::new();
    let mut i: usize = 0;
    while i < txs.len()
        invariant
            i <= txs@.len(),
            r@.len() == i,
            forall|j: int| 0 <= j < i ==> #[trigger] r@[j]@ == txs@[j]@.id,
        decreases txs@.len() - i,
    {
        r.push(txs[i].id.clone());
        i = i + 1;
    }
    proof {
        assert(views_of_ids(r@) =~= ids_of(views_of(txs@)));
    }
    r
}

/// Split a worklist into the transactions that are ready to run and the
/// rest, both in input order.
fn partition_ready(remaining: Vec<DAGTransaction>, resolved: &Vec<String>, known: &Vec<String>) -> (p:
    (Vec<DAGTransaction>, Vec<DAGTransaction>))
    ensures
        views_of(p.0@) == split_ready(
            views_of(remaining@),
            views_of_ids(resolved@),
            views_of_ids(known@),
        ).0,
        views_of(p.1@) == split_ready(
            views_of(remaining@),
            views_of_ids(resolved@),
            views_of_ids(known@),
        ).1,
{
    let ghost s0 = views_of(remaining@);
    let ghost rv = views_of_ids(resolved@);
    let ghost kv = views_of_ids(known@);
    let mut rem = remaining;
    let mut ready: Vec<DAGTransaction> = Vec::new();
    let mut rest: Vec<DAGTransaction> = Vec::new();
    proof {
        assert(views_of(rem@) =~= s0.skip(0));
        assert(s0.take(0) =~= Seq::<TxView>::empty());
    }
    while rem.len() > 0
        invariant
            rem@.len() <= s0.len(),
            views_of(rem@) == s0.skip(s0.len() - rem@.len()),
            views_of(ready@) == split_ready(s0.take(s0.len() - rem@.len()), rv, kv).0,
            views_of(rest@) == split_ready(s0.take(s0.len() - rem@.len()), rv, kv).1,
            rv == views_of_ids(resolved@),
            kv == views_of_ids(known@),
        decreases rem@.len(),
    {
        let ghost pr = s0.len() - rem@.len();
        let ghost rem0 = rem@;
        let t = rem.remove(0);
        proof {
            assert(rem@ == rem0.remove(0));
            assert(t@ == views_of(rem0)[0]);
            assert(t@ == s0.skip(pr as int)[0]);
            assert(t@ == s0[pr as int]);
            assert(views_of(rem@) =~= s0.skip(pr + 1)) by {
                assert forall|j: int| 0 <= j < rem@.len() implies views_of(rem@)[j] == s0.skip(
                    pr + 1,
                )[j] by {
                    assert(rem@[j] == rem0[j + 1]);
                    assert(views_of(rem@)[j] == views_of(rem0)[j + 1]);
                    assert(views_of(rem0)[j + 1] == s0.skip(pr as int)[j + 1]);
                }
            }
            assert(s0.take(pr + 1).drop_last() =~= s0.take(pr as int));
            assert(s0.take(pr + 1).last() == s0[pr as int]);
        }
        let ok = deps_ok(&t, resolved, known);
        if ok {
            let ghost ready0 = ready@;
            ready.push(t);
            proof {
                assert(ready@ == ready0.push(t));
                lemma_views_push(ready0, t);
                assert(views_of(ready@) == split_ready(s0.take(pr + 1), rv, kv).0);
                assert(views_of(rest@) == split_ready(s0.take(pr + 1), rv, kv).1);
            }
        } else {
            let ghost rest0 = rest@;
            rest.push(t);
            proof {
                assert(rest@ == rest0.push(t));
                lemma_views_push(rest0, t);
                assert(views_of(ready@) == split_ready(s0.take(pr + 1), rv, kv).0);
                assert(views_of(rest@) == split_ready(s0.take(pr + 1), rv, kv).1);
            }
        }
    }
    proof {
        assert(s0.take(s0.len() as int) =~= s0);
    }
    (ready, rest)
}

/// Index of the highest-priority transaction (ties broken by
/// identifier) in a non-empty list.
fn best_of(ready: &Vec<DAGTransaction>) -> (bi: usize)
    requires
        ready@.len() > 0,
    ensures
        bi < ready@.len(),
        bi as int == best_upto(views_of(ready@), ready@.len() as int),
{
    let mut bi: usize = 0;
    let mut j: usize = 1;
    while j < ready.len()
        invariant
            1 <= j <= ready@.len(),
            bi < j,
            bi as int == best_upto(views_of(ready@), j as int),
        decreases ready@.len() - j,
    {
        let better = ready[j].priority > ready[bi].priority || (ready[j].priority
            == ready[bi].priority && str_lt(&ready[j].id, &ready[bi].id));
        proof {
            assert(better == key_better(
                views_of(ready@)[j as int],
                views_of(ready@)[bi as int],
            ));
        }
        if better {
            bi = j;
        }
        j = j + 1;
    }
    bi
}

/// Move every transaction of `ready` to the end of `out`, best first.
fn drain_sorted(ready: Vec<DAGTransaction>, out: &mut Vec<DAGTransaction>)
    ensures
        views_of(final(out)@) == views_of(old(out)@) + sort_by_key(views_of(ready@)),
{
    let ghost r0 = views_of(ready@);
    let ghost base = views_of(out@);
    let ghost mut done: Seq<TxView> = Seq::empty();
    let mut rdy = ready;
    proof {
        assert(base + done =~= base);
        assert(done + sort_by_key(r0) =~= sort_by_key(r0));
    }
    while rdy.len() > 0
        invariant
            views_of(out@) == base + done,
            sort_by_key(r0) == done + sort_by_key(views_of(rdy@)),
        decreases rdy@.len(),
    {
        let ghost rdy0 = rdy@;
        let ghost rv = views_of(rdy@);
        let ghost out0 = out@;
        let bi = best_of(&rdy);
        let t = rdy.remove(bi);
        out.push(t);
        proof {
            lemma_best_upto(rv, rv.len() as int);
            assert(t@ == rv[bi as int]);
            assert(rdy@ == rdy0.remove(bi as int));
            lemma_views_remove(rdy0, bi as int);
            assert(views_of(rdy@) == rv.remove(bi as int));
            assert(sort_by_key(rv) == seq![rv[bi as int]] + sort_by_key(rv.remove(bi as int)));
            assert(out@ == out0.push(t));
            lemma_views_push(out0, t);
            done = done.push(rv[bi as int]);
            assert(views_of(out@) =~= base + done);
            assert(sort_by_key(r0) =~= done + sort_by_key(views_of(rdy@)));
        }
    }
    proof {
        assert(sort_by_key(views_of(rdy@)) =~= Seq::<TxView>::empty());
        assert(views_of(out@) =~= base + sort_by_key(r0));
    }
}

/// Append the identifiers of `ready` to the resolved list, in order.
fn append_ids(resolved: &mut Vec<String>, ready: &Vec<DAGTransaction>)
    ensures
        views_of_ids(final(resolved)@) == views_of_ids(old(resolved)@) + ids_of(views_of(ready@)),
{
    let ghost base = views_of_ids(resolved@);
    let mut k: usize = 0;
    while k < ready.len()
        invariant
            k <= ready@.len(),
            resolved@.len() == base.len() + k,
            forall|j: int| 0 <= j < base.len() ==> #[trigger] resolved@[j]@ == base[j],
            forall|j: int|
                base.len() <= j < resolved@.len() ==> #[trigger] resolved@[j]@ == views_of(
                    ready@,
                )[j - base.len()].id,
        decreases ready@.len() - k,
    {
        resolved.push(ready[k].id.clone());
        k = k + 1;
    }
    proof {
        assert(views_of_ids(resolved@) =~= base + ids_of(views_of(ready@)));
    }
}

/// Extract a deterministic topological order from `txs`, or fail with
/// `CyclicDependency` naming a transaction of the remainder that blocks
/// on itself. The result is exactly `order_spec` of the input's views:
/// the same input always yields the same output.
pub fn order(txs: Vec<DAGTransaction>) -> (r: Result<Vec<DAGTransaction>, SchedulerError>)
    ensures
        match r {
            Ok(out) => order_spec(views_of(txs@)) == Ok::<Seq<TxView>, Seq<char>>(views_of(out@)),
            Err(e) => e matches SchedulerError::CyclicDependency { id } && order_spec(
                views_of(txs@),
            ) == Err::<Seq<TxView>, Seq<char>>(id@),
        },
{
    let ghost t0 = views_of(txs@);
    let ghost kv = ids_of(t0);
    let known = collect_ids(&txs);
    let mut remaining = txs;
    let mut resolved: Vec<String> = Vec::new();
    let mut out: Vec<DAGTransaction> = Vec::new();
    proof {
        assert(views_of_ids(resolved@) =~= Seq::<Seq<char>>::empty());
        assert(views_of(out@) =~= Seq::<TxView>::empty());
        assert(views_of(remaining@) == t0);
    }
    while remaining.len() > 0
        invariant
            t0 == views_of(txs@),
            kv == ids_of(t0),
            views_of_ids(known@) == kv,
            order_rounds(views_of(remaining@), views_of_ids(resolved@), kv, views_of(out@))
                == order_rounds(t0, Seq::<Seq<char>>::empty(), kv, Seq::<TxView>::empty()),
        decreases remaining@.len(),
    {
        let ghost rem_v = views_of(remaining@);
        let ghost res_v = views_of_ids(resolved@);
        let ghost out_v = views_of(out@);
        let first_id = remaining[0].id.clone();
        proof {
            assert(first_id@ == rem_v[0].id);
        }
        let pair = partition_ready(remaining, &resolved, &known);
        let ready = pair.0;
        let rest = pair.1;
        proof {
            lemma_split_ready(rem_v, res_v, kv);
        }
        if ready.len() == 0 {
            proof {
                assert(split_ready(rem_v, res_v, kv).0.len() == 0);
                assert(order_rounds(rem_v, res_v, kv, out_v) == Err::<Seq<TxView>, Seq<char>>(
                    rem_v[0].id,
                ));
                assert(order_spec(t0) == order_rounds(
                    t0,
                    Seq::<Seq<char>>::empty(),
                    ids_of(t0),
                    Seq::<TxView>::empty(),
                ));
            }
            return Err(SchedulerError::CyclicDependency { id: first_id });
        }
        append_ids(&mut resolved, &ready);
        drain_sorted(ready, &mut out);
        remaining = rest;
        proof {
            assert(split_ready(rem_v, res_v, kv).0.len() > 0);
            assert(views_of(remaining@) == split_ready(rem_v, res_v, kv).1);
            assert(views_of_ids(resolved@) == res_v + ids_of(split_ready(rem_v, res_v, kv).0));
            assert(views_of(out@) == out_v + sort_by_key(split_ready(rem_v, res_v, kv).0));
            assert(order_rounds(rem_v, res_v, kv, out_v) == order_rounds(
                views_of(remaining@),
                views_of_ids(resolved@),
                kv,
                views_of(out@),
            ));
        }
    }
    proof {
        assert(views_of(remaining@).len() == 0);
        assert(order_rounds(views_of(remaining@), views_of_ids(resolved@), kv, views_of(out@))
            == Ok::<Seq<TxView>, Seq<char>>(views_of(out@)));
        assert(order_spec(t0) == order_rounds(
            t0,
            Seq::<Seq<char>>::empty(),
            ids_of(t0),
            Seq::<TxView>::empty(),
        ));
    }
    Ok(out)
}

} // verus!
