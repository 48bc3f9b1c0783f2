//! The mathematical model of a cluster partition: how often each node
//! offset occurs across all clusters, the total position count, what being
//! a true partition of `0 .. n` means, and how one merge step transforms a
//! partition.
use vstd::prelude::*;

use vstd::multiset::Multiset;
use vstd::seq_lib::lemma_multiset_commutative;

verus! {

/// The initial partition: every node offset in its own cluster, in order.
pub open spec fn singletons(n: int) -> Seq<Seq<int>> {
    Seq::new(n as nat, |c: int| seq![c])
}

/// How many positions over all clusters hold the offset `v`.
pub open spec fn flat_count(cl: Seq<Seq<int>>, v: int) -> nat
    decreases cl.len(),
{
    if cl.len() == 0 {
        0
    } else {
        flat_count(cl.drop_last(), v) + cl.last().to_multiset().count(v)
    }
}

/// The total number of positions over all clusters.
pub open spec fn sum_lens(cl: Seq<Seq<int>>) -> nat
    decreases cl.len(),
{
    if cl.len() == 0 {
        0
    } else {
        sum_lens(cl.drop_last()) + cl.last().len()
    }
}

/// A true partition of the node offsets `0 .. n`: clusters are non-empty,
/// hold only offsets below `n`, and every such offset occurs in exactly one
/// cluster position — none missing, none duplicated.
pub open spec fn is_partition(cl: Seq<Seq<int>>, n: int) -> bool {
    &&& forall|c: int| 0 <= c < cl.len() ==> (#[trigger] cl[c]).len() >= 1
    &&& forall|c: int, k: int|
        0 <= c < cl.len() && 0 <= k < cl[c].len() ==> 0 <= #[trigger] cl[c][k] < n
    &&& sum_lens(cl) == n
    &&& forall|v: int| #[trigger] flat_count(cl, v) == if 0 <= v < n {
        1nat
    } else {
        0nat
    }
}

/// One merge: the clusters at `i` and `j` are unioned into slot `i` (the
/// nodes of `j` appended after those of `i`) and slot `j` is removed.
pub open spec fn merge_step(cl: Seq<Seq<int>>, i: int, j: int) -> Seq<Seq<int>> {
    cl.update(i, cl[i] + cl[j]).remove(j)
}

proof fn lemma_singleton_count(x: int, v: int)
    ensures
        seq![x].to_multiset().count(v) == if v == x {
            1nat
        } else {
            0nat
        },
{
    broadcast use vstd::multiset::group_multiset_axioms;
    broadcast use vstd::seq_lib::group_to_multiset_ensures;

    let e = Seq::<int>::empty();
    assert(e.push(x) =~= seq![x]);
    assert(forall|u: int| !e.contains(u));
    assert(forall|u: int| e.to_multiset().count(u) == 0nat);
    assert(e.push(x).to_multiset() =~= e.to_multiset().insert(x));
}

proof fn lemma_concat_count(a: Seq<int>, b: Seq<int>, v: int)
    ensures
        (a + b).to_multiset().count(v) == a.to_multiset().count(v) + b.to_multiset().count(v),
{
    broadcast use vstd::multiset::group_multiset_axioms;

    lemma_multiset_commutative(a, b);
}

proof fn lemma_flat_count_push(cl: Seq<Seq<int>>, c: Seq<int>, v: int)
    ensures
        flat_count(cl.push(c), v) == flat_count(cl, v) + c.to_multiset().count(v),
{
    assert(cl.push(c).drop_last() =~= cl);
    assert(cl.push(c).last() == c);
}

proof fn lemma_sum_lens_push(cl: Seq<Seq<int>>, c: Seq<int>)
    ensures
        sum_lens(cl.push(c)) == sum_lens(cl) + c.len(),
{
    assert(cl.push(c).drop_last() =~= cl);
    assert(cl.push(c).last() == c);
}

proof fn lemma_flat_count_remove(cl: Seq<Seq<int>>, t: int, v: int)
    requires
        0 <= t < cl.len(),
    ensures
        flat_count(cl, v) == flat_count(cl.remove(t), v) + cl[t].to_multiset().count(v),
    decreases cl.len(),
{
    let d = cl.drop_last();
    if t == cl.len() - 1 {
        assert(cl.remove(t) =~= d);
    } else {
        assert(cl.remove(t).drop_last() =~= d.remove(t));
        assert(cl.remove(t).last() == cl.last());
        lemma_flat_count_remove(d, t, v);
        assert(d[t] == cl[t]);
    }
}

proof fn lemma_sum_lens_remove(cl: Seq<Seq<int>>, t: int)
    requires
        0 <= t < cl.len(),
    ensures
        sum_lens(cl) == sum_lens(cl.remove(t)) + cl[t].len(),
    decreases cl.len(),
{
    let d = cl.drop_last();
    if t == cl.len() - 1 {
        assert(cl.remove(t) =~= d);
    } else {
        assert(cl.remove(t).drop_last() =~= d.remove(t));
        assert(cl.remove(t).last() == cl.last());
        lemma_sum_lens_remove(d, t);
        assert(d[t] == cl[t]);
    }
}

proof fn lemma_flat_count_update(cl: Seq<Seq<int>>, t: int, x: Seq<int>, v: int)
    requires
        0 <= t < cl.len(),
    ensures
        flat_count(cl.update(t, x), v) + cl[t].to_multiset().count(v) == flat_count(cl, v)
            + x.to_multiset().count(v),
    decreases cl.len(),
{
    let d = cl.drop_last();
    if t == cl.len() - 1 {
        assert(cl.update(t, x).drop_last() =~= d);
        assert(cl.update(t, x).last() == x);
    } else {
        assert(cl.update(t, x).drop_last() =~= d.update(t, x));
        assert(cl.update(t, x).last() == cl.last());
        lemma_flat_count_update(d, t, x, v);
        assert(d[t] == cl[t]);
    }
}

proof fn lemma_sum_lens_update(cl: Seq<Seq<int>>, t: int, x: Seq<int>)
    requires
        0 <= t < cl.len(),
    ensures
        sum_lens(cl.update(t, x)) + cl[t].len() == sum_lens(cl) + x.len(),
    decreases cl.len(),
{
    let d = cl.drop_last();
    if t == cl.len() - 1 {
        assert(cl.update(t, x).drop_last() =~= d);
        assert(cl.update(t, x).last() == x);
    } else {
        assert(cl.update(t, x).drop_last() =~= d.update(t, x));
        assert(cl.update(t, x).last() == cl.last());
        lemma_sum_lens_update(d, t, x);
        assert(d[t] == cl[t]);
    }
}

/// No single cluster can hold more positions than the whole partition.
pub proof fn lemma_len_le_sum_lens(cl: Seq<Seq<int>>, t: int)
    requires
        0 <= t < cl.len(),
    ensures
        cl[t].len() <= sum_lens(cl),
    decreases cl.len(),
{
    if t == cl.len() - 1 {
    } else {
        lemma_len_le_sum_lens(cl.drop_last(), t);
        assert(cl.drop_last()[t] == cl[t]);
    }
}

/// Extending a partition of `0 .. n` by the singleton cluster `{n}` yields
/// a partition of `0 .. n + 1`; how the initial singleton state is built.
pub proof fn lemma_partition_push_singleton(cl: Seq<Seq<int>>, n: int)
    requires
        is_partition(cl, n),
        n >= 0,
    ensures
        is_partition(cl.push(seq![n]), n + 1),
{
    let res = cl.push(seq![n]);
    assert forall|c: int| 0 <= c < res.len() implies (#[trigger] res[c]).len() >= 1 by {
        if c < cl.len() {
            assert(res[c] == cl[c]);
        }
    }
    assert forall|c: int, k: int|
        0 <= c < res.len() && 0 <= k < res[c].len() implies 0 <= #[trigger] res[c][k] < n + 1 by {
        if c < cl.len() {
            assert(res[c] == cl[c]);
        }
    }
    lemma_sum_lens_push(cl, seq![n]);
    assert forall|v: int| #[trigger] flat_count(res, v) == if 0 <= v < n + 1 {
        1nat
    } else {
        0nat
    } by {
        lemma_flat_count_push(cl, seq![n], v);
        lemma_singleton_count(n, v);
        assert(flat_count(cl, v) == if 0 <= v < n {
            1nat
        } else {
            0nat
        });
    }
}

/// The heart of the partition invariant: merging two clusters of a
/// partition of `0 .. n` yields a partition of `0 .. n` with one cluster
/// fewer — no node offset is lost or duplicated by a merge.
pub proof fn lemma_merge_step_partition(cl: Seq<Seq<int>>, n: int, i: int, j: int)
    requires
        is_partition(cl, n),
        0 <= j < i < cl.len(),
    ensures
        is_partition(merge_step(cl, i, j), n),
        merge_step(cl, i, j).len() == cl.len() - 1,
{
    let merged = cl[i] + cl[j];
    let up = cl.update(i, merged);
    let res = up.remove(j);
    assert(up[j] == cl[j]);
    assert forall|c: int| 0 <= c < res.len() implies (#[trigger] res[c]).len() >= 1 by {
        if c < j {
            assert(res[c] == up[c]);
        } else {
            assert(res[c] == up[c + 1]);
        }
        assert(cl[i].len() >= 1);
    }
    assert forall|c: int, k: int|
        0 <= c < res.len() && 0 <= k < res[c].len() implies 0 <= #[trigger] res[c][k] < n by {
        let u = if c < j {
            c
        } else {
            c + 1
        };
        assert(res[c] == up[u]);
        if u == i {
            assert(up[u] == merged);
            if k < cl[i].len() {
                assert(merged[k] == cl[i][k]);
            } else {
                assert(merged[k] == cl[j][k - cl[i].len()]);
            }
        } else {
            assert(up[u] == cl[u]);
        }
    }
    lemma_sum_lens_update(cl, i, merged);
    lemma_sum_lens_remove(up, j);
    assert(sum_lens(res) == n);
    assert forall|v: int| #[trigger] flat_count(res, v) == if 0 <= v < n {
        1nat
    } else {
        0nat
    } by {
        lemma_concat_count(cl[i], cl[j], v);
        lemma_flat_count_update(cl, i, merged, v);
        lemma_flat_count_remove(up, j, v);
        assert(flat_count(cl, v) == if 0 <= v < n {
            1nat
        } else {
            0nat
        });
    }
}

} // verus!
