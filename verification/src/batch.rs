//! Priority batcher: pack a topologically ordered sequence into batches
//! that are safe to dispatch concurrently.
//!
//! The packing is greedy and single-pass: each transaction joins the open
//! batch unless it depends on a member of that batch, in which case the
//! batch is sealed and a new one opens with it; a batch is also sealed on
//! reaching `max_parallel` members. A single linear pass may under-pack
//! compared to an optimal schedule; in exchange it never violates the
//! no-intra-batch-dependency invariant and never reorders the sequence.

use vstd::prelude::*;

use crate::graph::views_of;
use crate::ids::{contains_str, id_in};
use crate::txn::{DAGTransaction, TxView};

verus! {

/// Whether `t` depends on some member of `batch`.
pub open spec fn depends_on_any(t: TxView, batch: Seq<TxView>) -> bool {
    exists|i: int| 0 <= i < batch.len() && id_in(t.dependencies, #[trigger] batch[i].id)
}

/// One pass of the greedy packing: `rest` still to place, `cur` the open
/// batch, `out` the sealed batches.
pub open spec fn batch_rec(
    rest: Seq<TxView>,
    cur: Seq<TxView>,
    max: int,
    out: Seq<Seq<TxView>>,
) -> Seq<Seq<TxView>>
    decreases rest.len(),
{
    if rest.len() == 0 {
        if cur.len() == 0 {
            out
        } else {
            out.push(cur)
        }
    } else {
        let t = rest[0];
        if depends_on_any(t, cur) {
            batch_rec(rest.drop_first(), seq![t], max, out.push(cur))
        } else {
            let cur2 = cur.push(t);
            if cur2.len() >= max {
                batch_rec(rest.drop_first(), Seq::empty(), max, out.push(cur2))
            } else {
                batch_rec(rest.drop_first(), cur2, max, out)
            }
        }
    }
}

/// The batches of a topologically ordered sequence, bounded by
/// `max_parallel`. `batch` returns precisely this.
pub open spec fn batch_spec(s: Seq<TxView>, max: int) -> Seq<Seq<TxView>> {
    batch_rec(s, Seq::empty(), max, Seq::empty())
}

/// A concurrency-safe batch: bounded, and no member depends on another
/// member.
pub open spec fn batch_ok(b: Seq<TxView>, max: int) -> bool {
    b.len() <= max && forall|i: int, j: int|
        #![trigger b[i], b[j]]
        0 <= i < b.len() && 0 <= j < b.len() && i != j ==> !id_in(b[i].dependencies, b[j].id)
}

/// No transaction depends on one that comes later in the sequence; a
/// topological order of a duplicate-free set has this shape.
pub open spec fn no_forward_deps(s: Seq<TxView>) -> bool {
    forall|i: int, j: int|
        #![trigger s[i], s[j]]
        0 <= i < j < s.len() ==> !id_in(s[i].dependencies, s[j].id)
}

/// The views of a list of batches.
pub open spec fn batch_views(s: Seq<Vec<DAGTransaction>>) -> Seq<Seq<TxView>> {
    Seq::new(s.len(), |i: int| views_of(s[i]@))
}

proof fn lemma_batch_rec_safe(rest: Seq<TxView>, cur: Seq<TxView>, max: int, out: Seq<Seq<TxView>>)
    requires
        max >= 1,
        cur.len() < max,
        no_forward_deps(cur + rest),
        forall|i: int, j: int|
            #![trigger cur[i], cur[j]]
            0 <= i < j < cur.len() ==> !id_in(cur[j].dependencies, cur[i].id),
        forall|bi: int| 0 <= bi < out.len() ==> batch_ok(#[trigger] out[bi], max),
    ensures
        forall|bi: int|
            0 <= bi < batch_rec(rest, cur, max, out).len() ==> batch_ok(
                #[trigger] batch_rec(rest, cur, max, out)[bi],
                max,
            ),
    decreases rest.len(),
{
    // The open batch is already safe: each member was checked against the
    // members before it, and no member depends on a later one.
    assert(batch_ok(cur, max)) by {
        assert forall|i: int, j: int|
            #![trigger cur[i], cur[j]]
            0 <= i < cur.len() && 0 <= j < cur.len() && i != j implies !id_in(
            cur[i].dependencies,
            cur[j].id,
        ) by {
            if i < j {
                assert((cur + rest)[i] == cur[i]);
                assert((cur + rest)[j] == cur[j]);
            }
        }
    }
    // The part still to place is forward-dependency-free on its own.
    assert(no_forward_deps(rest)) by {
        assert forall|i: int, j: int|
            #![trigger rest[i], rest[j]]
            0 <= i < j < rest.len() implies !id_in(
            rest[i].dependencies,
            rest[j].id,
        ) by {
            assert((cur + rest)[cur.len() + i] == rest[i]);
            assert((cur + rest)[cur.len() + j] == rest[j]);
        }
    }
    if rest.len() == 0 {
        if cur.len() > 0 {
            assert(forall|bi: int|
                0 <= bi < out.push(cur).len() ==> batch_ok(#[trigger] out.push(cur)[bi], max));
        }
    } else {
        let t = rest[0];
        assert(t == (cur + rest)[cur.len() as int]);
        if depends_on_any(t, cur) {
            assert(cur.len() > 0) by {
                let wi = choose|i: int| 0 <= i < cur.len() && id_in(t.dependencies, cur[i].id);
            }
            assert(no_forward_deps(seq![t] + rest.drop_first())) by {
                assert(seq![t] + rest.drop_first() =~= rest);
            }
            assert(forall|bi: int|
                0 <= bi < out.push(cur).len() ==> batch_ok(#[trigger] out.push(cur)[bi], max));
            lemma_batch_rec_safe(rest.drop_first(), seq![t], max, out.push(cur));
            assert(batch_rec(rest, cur, max, out) == batch_rec(
                rest.drop_first(),
                seq![t],
                max,
                out.push(cur),
            ));

        } else {
            let cur2 = cur.push(t);
            assert(cur2 + rest.drop_first() =~= cur + rest);
            assert forall|i: int, j: int|
                #![trigger cur2[i], cur2[j]]
                0 <= i < j < cur2.len() implies !id_in(
                cur2[j].dependencies,
                cur2[i].id,
            ) by {
                if j == cur.len() {
                    assert(cur2[j] == t);
                    assert(cur2[i] == cur[i]);
                } else {
                    assert(cur2[i] == cur[i]);
                    assert(cur2[j] == cur[j]);
                }
            }
            if cur2.len() >= max {
                assert(batch_ok(cur2, max)) by {
                    assert forall|i: int, j: int|
                        #![trigger cur2[i], cur2[j]]
                        0 <= i < cur2.len() && 0 <= j < cur2.len() && i != j implies !id_in(
                        cur2[i].dependencies,
                        cur2[j].id,
                    ) by {
                        if i < j {
                            assert((cur2 + rest.drop_first())[i] == cur2[i]);
                            assert((cur2 + rest.drop_first())[j] == cur2[j]);
                        }
                    }
                }
                assert(no_forward_deps(Seq::<TxView>::empty() + rest.drop_first())) by {
                    assert(Seq::<TxView>::empty() + rest.drop_first() =~= rest.drop_first());
                    assert forall|i: int, j: int|
                        #![trigger rest.drop_first()[i], rest.drop_first()[j]]
                        0 <= i < j < rest.drop_first().len() implies !id_in(
                        rest.drop_first()[i].dependencies,
                        rest.drop_first()[j].id,
                    ) by {
                        assert(rest.drop_first()[i] == rest[i + 1]);
                        assert(rest.drop_first()[j] == rest[j + 1]);
                    }
                }
                assert(forall|bi: int|
                    0 <= bi < out.push(cur2).len() ==> batch_ok(
                        #[trigger] out.push(cur2)[bi],
                        max,
                    ));
                lemma_batch_rec_safe(rest.drop_first(), Seq::empty(), max, out.push(cur2));
                assert(batch_rec(rest, cur, max, out) == batch_rec(
                    rest.drop_first(),
                    Seq::empty(),
                    max,
                    out.push(cur2),
                ));

            } else {
                lemma_batch_rec_safe(rest.drop_first(), cur2, max, out);
                assert(batch_rec(rest, cur, max, out) == batch_rec(
                    rest.drop_first(),
                    cur2,
                    max,
                    out,
                ));

            }
        }
    }
}

/// Every batch of a forward-dependency-free sequence is concurrency-safe
/// and within the parallelism bound.
pub proof fn lemma_batches_safe(s: Seq<TxView>, max: int)
    requires
        max >= 1,
        no_forward_deps(s),
    ensures
        forall|bi: int|
            0 <= bi < batch_spec(s, max).len() ==> batch_ok(#[trigger] batch_spec(s, max)[bi], max),
{
    assert(no_forward_deps(Seq::<TxView>::empty() + s)) by {
        assert(Seq::<TxView>::empty() + s =~= s);
    }
    lemma_batch_rec_safe(s, Seq::empty(), max, Seq::empty());
}

proof fn lemma_flatten_singleton(b: Seq<TxView>)
    ensures
        seq![b].flatten() == b,
{
    let s = seq![b];
    assert(s.first() == b);
    assert(s.drop_first() =~= Seq::<Seq<TxView>>::empty());
    assert(s.drop_first().flatten() =~= Seq::<TxView>::empty());
    assert(s.flatten() == s.first() + s.drop_first().flatten());
    assert(s.flatten() =~= b);
}

proof fn lemma_batch_rec_flatten(
    rest: Seq<TxView>,
    cur: Seq<TxView>,
    max: int,
    out: Seq<Seq<TxView>>,
)
    ensures
        batch_rec(rest, cur, max, out).flatten() == out.flatten() + cur + rest,
    decreases rest.len(),
{
    if rest.len() == 0 {
        if cur.len() == 0 {
            assert(out.flatten() + cur + rest =~= out.flatten());
        } else {
            assert(out.push(cur) =~= out + seq![cur]);
            vstd::seq_lib::lemma_flatten_concat(out, seq![cur]);
            lemma_flatten_singleton(cur);
            assert(out.push(cur).flatten() =~= out.flatten() + cur + rest);
        }
    } else {
        let t = rest[0];
        if depends_on_any(t, cur) {
            lemma_batch_rec_flatten(rest.drop_first(), seq![t], max, out.push(cur));
            assert(out.push(cur) =~= out + seq![cur]);
            vstd::seq_lib::lemma_flatten_concat(out, seq![cur]);
            lemma_flatten_singleton(cur);
            assert(out.push(cur).flatten() + seq![t] + rest.drop_first() =~= out.flatten() + cur
                + rest);
        } else {
            let cur2 = cur.push(t);
            if cur2.len() >= max {
                lemma_batch_rec_flatten(rest.drop_first(), Seq::empty(), max, out.push(cur2));
                assert(out.push(cur2) =~= out + seq![cur2]);
                vstd::seq_lib::lemma_flatten_concat(out, seq![cur2]);
                lemma_flatten_singleton(cur2);
                assert(out.push(cur2).flatten() + Seq::<TxView>::empty() + rest.drop_first()
                    =~= out.flatten() + cur + rest);
            } else {
                lemma_batch_rec_flatten(rest.drop_first(), cur2, max, out);
                assert(out.flatten() + cur2 + rest.drop_first() =~= out.flatten() + cur + rest);
            }
        }
    }
}

/// Concatenating the batches gives back the input sequence: nothing is
/// reordered, dropped, or duplicated.
pub proof fn lemma_batches_flatten(s: Seq<TxView>, max: int)
    ensures
        batch_spec(s, max).flatten() == s,
{
    lemma_batch_rec_flatten(s, Seq::empty(), max, Seq::empty());
    assert(Seq::<Seq<TxView>>::empty().flatten() =~= Seq::<TxView>::empty());
    assert(Seq::<Seq<TxView>>::empty().flatten() + Seq::<TxView>::empty() + s =~= s);
}

/// A topological order of a duplicate-free transaction set never has a
/// transaction depending on a later one: the depended-on identifier
/// already appears earlier, and identifiers are unique.
pub proof fn lemma_topo_no_forward(o: Seq<TxView>, txs: Seq<TxView>)
    requires
        crate::graph::topo_sorted(o, crate::graph::ids_of(txs)),
        o.to_multiset() == txs.to_multiset(),
        crate::graph::ids_of(txs).no_duplicates(),
    ensures
        no_forward_deps(o),
{
    broadcast use vstd::seq_lib::group_to_multiset_ensures;

    crate::graph::lemma_distinct_ids_permutation(txs, o);
    assert forall|i: int, j: int|
        #![trigger o[i], o[j]]
        0 <= i < j < o.len() implies !id_in(o[i].dependencies, o[j].id) by {
        if id_in(o[i].dependencies, o[j].id) {
            let k = choose|k: int|
                0 <= k < o[i].dependencies.len() && o[i].dependencies[k] == o[j].id;
            assert(o.contains(o[j]));
            assert(o.to_multiset().count(o[j]) > 0);
            assert(txs.to_multiset().count(o[j]) > 0);
            assert(txs.contains(o[j]));
            let tj = choose|tj: int| 0 <= tj < txs.len() && txs[tj] == o[j];
            assert(crate::graph::ids_of(txs)[tj] == o[j].id);
            assert(id_in(crate::graph::ids_of(txs), o[i].dependencies[k]));
            let j2 = choose|j2: int| 0 <= j2 < i && o[j2].id == o[i].dependencies[k];
            assert(crate::graph::ids_of(o)[j2] == crate::graph::ids_of(o)[j]);
            assert(false);
        }
    }
}

/// Whether `tx` may join `current_batch`: it must not depend on any
/// member already placed there.
pub fn can_process_parallel(tx: &DAGTransaction, current_batch: &Vec<DAGTransaction>) -> (r: bool)
    ensures
        r == !depends_on_any(tx@, views_of(current_batch@)),
{
    let mut i: usize = 0;
    while i < current_batch.len()
        invariant
            i <= current_batch@.len(),
            forall|j: int|
                0 <= j < i ==> !id_in(tx@.dependencies, #[trigger] views_of(current_batch@)[j].id),
        decreases current_batch@.len() - i,
    {
        let hit = contains_str(&tx.dependencies, &current_batch[i].id);
        proof {
            assert(views_of(current_batch@)[i as int].id == current_batch@[i as int]@.id);
        }
        if hit {
            return false;
        }
        i = i + 1;
    }
    true
}

/// Pack an ordered sequence into batches bounded by `max_parallel`,
/// sealing the open batch whenever the next transaction depends on a
/// member or the bound is reached. Returns exactly `batch_spec` of the
/// input.
pub fn batch(ordered: &Vec<DAGTransaction>, max_parallel: usize) -> (r: Vec<Vec<DAGTransaction>>)
    requires
        max_parallel >= 1,
    ensures
        batch_views(r@) == batch_spec(views_of(ordered@), max_parallel as int),
{
    let ghost s0 = views_of(ordered@);
    let ghost maxi = max_parallel as int;
    let mut out: Vec<Vec<DAGTransaction>> = Vec::new();
    let mut cur: Vec<DAGTransaction> = Vec::new();
    let mut i: usize = 0;
    proof {
        assert(views_of(cur@) =~= Seq::<TxView>::empty());
        assert(batch_views(out@) =~= Seq::<Seq<TxView>>::empty());
        assert(s0.skip(0) =~= s0);
    }
    while i < ordered.len()
        invariant
            i <= ordered@.len(),
            s0 == views_of(ordered@),
            max_parallel >= 1,
            maxi == max_parallel as int,
            batch_rec(s0.skip(i as int), views_of(cur@), maxi, batch_views(out@)) == batch_spec(
                s0,
                maxi,
            ),
        decreases ordered@.len() - i,
    {
        let ghost rest_v = s0.skip(i as int);
        let ghost cur_v = views_of(cur@);
        let ghost out_v = batch_views(out@);
        let t = ordered[i].duplicate();
        proof {
            assert(t@ == s0[i as int]);
            assert(rest_v[0] == s0[i as int]);
            assert(rest_v.drop_first() =~= s0.skip(i + 1));
        }
        let fits = can_process_parallel(&t, &cur);
        if !fits {
            let ghost sealed_v = cur@;
            out.push(cur);
            cur = Vec::new();
            cur.push(t);
            proof {
                assert(views_of(cur@) =~= seq![rest_v[0]]);
                assert(batch_views(out@) =~= out_v.push(cur_v));
            }
        } else {
            let ghost cur_seq0 = cur@;
            cur.push(t);
            proof {
                assert(cur@ == cur_seq0.push(t));
                assert(views_of(cur@) =~= cur_v.push(rest_v[0]));
            }
            if cur.len() >= max_parallel {
                let ghost cur2_v = views_of(cur@);
                out.push(cur);
                cur = Vec::new();
                proof {
                    assert(views_of(cur@) =~= Seq::<TxView>::empty());
                    assert(batch_views(out@) =~= out_v.push(cur2_v));
                }
            }
        }
        i = i + 1;
    }
    if cur.len() > 0 {
        let ghost out_v = batch_views(out@);
        let ghost cur_v = views_of(cur@);
        out.push(cur);
        proof {
            assert(s0.skip(ordered@.len() as int) =~= Seq::<TxView>::empty());
            assert(batch_views(out@) =~= out_v.push(cur_v));
        }
    } else {
        proof {
            assert(s0.skip(ordered@.len() as int) =~= Seq::<TxView>::empty());
        }
    }
    out
}

} // verus!
