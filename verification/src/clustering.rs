//! The agglomerative clustering core: cluster-pair correlation scoring,
//! deterministic best-pair selection, the merge step, and the engine that
//! shrinks a partition of the graph's nodes to a target cluster count.
//!
//! A pair score is the arithmetic mean of all cross-pair weights; it is kept
//! as the exact rational `sum / count`, and scores are compared by
//! cross-multiplication, so no rounding can perturb a selection.
use vstd::prelude::*;

use crate::partition::{
    flat_count, is_partition, lemma_len_le_sum_lens, lemma_merge_step_partition,
    lemma_partition_push_singleton, merge_step, singletons,
};
use crate::preprocessing::{fMRI_graph, Node};
use crate::{ClusterError, NODE_LIMIT, WEIGHT_LIMIT};

verus! {

/// The matrix offsets of a cluster's nodes, in cluster order.
pub open spec fn cluster_indices(c: Seq<Node>) -> Seq<int> {
    c.map_values(|nd: Node| nd.node_idx as int)
}

/// The mathematical model of a cluster collection: a sequence of sequences
/// of node offsets.
pub open spec fn partition_view(cl: Seq<Vec<Node>>) -> Seq<Seq<int>> {
    cl.map_values(|v: Vec<Node>| cluster_indices(v@))
}

/// Every offset of the sequence lies in `0 .. n`.
pub open spec fn idxs_in_range(a: Seq<int>, n: int) -> bool {
    forall|k: int| 0 <= k < a.len() ==> 0 <= #[trigger] a[k] < n
}

/// The weight matrix is square with side `n` and every entry lies within
/// the fixed-point weight range.
pub open spec fn weights_in_range(w: Seq<Seq<int>>, n: int) -> bool {
    &&& w.len() == n
    &&& forall|i: int| 0 <= i < n ==> (#[trigger] w[i]).len() == n
    &&& forall|i: int, j: int|
        0 <= i < n && 0 <= j < n ==> -(WEIGHT_LIMIT as int) <= #[trigger] w[i][j] <= (
        WEIGHT_LIMIT as int)
}

/// The weight matrix is symmetric on `0 .. n`.
pub open spec fn symmetric_weights(w: Seq<Seq<int>>, n: int) -> bool {
    forall|i: int, j: int| 0 <= i < n && 0 <= j < n ==> #[trigger] w[i][j] == w[j][i]
}

/// The sum of `w[x][y]` over every offset `y` of `b`.
pub open spec fn row_sum(x: int, b: Seq<int>, w: Seq<Seq<int>>) -> int
    decreases b.len(),
{
    if b.len() == 0 {
        0
    } else {
        row_sum(x, b.drop_last(), w) + w[x][b.last()]
    }
}

/// The sum of `w[x][y]` over every cross pair `x` of `a`, `y` of `b`: the
/// numerator of the average cluster-pair correlation.
pub open spec fn pair_sum(a: Seq<int>, b: Seq<int>, w: Seq<Seq<int>>) -> int
    decreases a.len(),
{
    if a.len() == 0 {
        0
    } else {
        pair_sum(a.drop_last(), b, w) + row_sum(a.last(), b, w)
    }
}

/// The exact average correlation between two clusters: the rational number
/// `sum / count`, where `count` is the number of cross pairs.
#[derive(Debug, Clone, Copy, PartialEq, Eq, Structural)]
pub struct Score {
    /// Sum of all cross-pair weights, in micro-units.
    pub sum: i64,
    /// Number of cross pairs; positive for non-empty clusters.
    pub count: usize,
}

/// `sum1 / count1 < sum2 / count2` as rationals with positive denominators,
/// stated by cross-multiplication.
pub open spec fn score_lt(s1: int, c1: int, s2: int, c2: int) -> bool {
    s1 * c2 < s2 * c1
}

/// `sum1 / count1 <= sum2 / count2` as rationals with positive denominators.
pub open spec fn score_le(s1: int, c1: int, s2: int, c2: int) -> bool {
    s1 * c2 <= s2 * c1
}

proof fn lemma_i64_usize_product_in_i128(s: int, c: int)
    by (nonlinear_arith)
    requires
        i64::MIN <= s <= i64::MAX,
        0 <= c <= u64::MAX,
    ensures
        i128::MIN <= s * c <= i128::MAX,
{
}

impl Score {
    /// Whether this score is strictly below the other, as exact rationals.
    pub fn lt(&self, other: &Score) -> (r: bool)
        ensures
            r == score_lt(
                self.sum as int,
                self.count as int,
                other.sum as int,
                other.count as int,
            ),
    {
        proof {
            lemma_i64_usize_product_in_i128(self.sum as int, other.count as int);
            lemma_i64_usize_product_in_i128(other.sum as int, self.count as int);
        }
        (self.sum as i128) * (other.count as i128) < (other.sum as i128) * (self.count as i128)
    }
}

proof fn lemma_row_sum_bound(x: int, b: Seq<int>, w: Seq<Seq<int>>, n: int)
    requires
        weights_in_range(w, n),
        0 <= x < n,
        idxs_in_range(b, n),
    ensures
        row_sum(x, b, w) <= (b.len() as int) * (WEIGHT_LIMIT as int),
        -row_sum(x, b, w) <= (b.len() as int) * (WEIGHT_LIMIT as int),
    decreases b.len(),
{
    if b.len() > 0 {
        assert(idxs_in_range(b.drop_last(), n)) by {
            assert(forall|k: int|
                0 <= k < b.drop_last().len() ==> #[trigger] b.drop_last()[k] == b[k]);
        }
        lemma_row_sum_bound(x, b.drop_last(), w, n);
        assert(0 <= b.last() < n);
    }
}

proof fn lemma_pair_sum_bound(a: Seq<int>, b: Seq<int>, w: Seq<Seq<int>>, n: int)
    requires
        weights_in_range(w, n),
        idxs_in_range(a, n),
        idxs_in_range(b, n),
    ensures
        pair_sum(a, b, w) <= (a.len() as int) * (b.len() as int) * (WEIGHT_LIMIT as int),
        -pair_sum(a, b, w) <= (a.len() as int) * (b.len() as int) * (WEIGHT_LIMIT as int),
    decreases a.len(),
{
    let al = a.len() as int;
    let bl = b.len() as int;
    let wl = WEIGHT_LIMIT as int;
    if a.len() == 0 {
        assert(al * bl * wl == 0) by (nonlinear_arith)
            requires
                al == 0,
        ;
    } else {
        assert(idxs_in_range(a.drop_last(), n)) by {
            assert(forall|k: int|
                0 <= k < a.drop_last().len() ==> #[trigger] a.drop_last()[k] == a[k]);
        }
        lemma_pair_sum_bound(a.drop_last(), b, w, n);
        assert(0 <= a.last() < n);
        lemma_row_sum_bound(a.last(), b, w, n);
        assert((al - 1) * bl * wl + bl * wl == al * bl * wl) by (nonlinear_arith);
    }
}

/// Relates the graph's exec weight matrix to its mathematical model.
pub proof fn lemma_graph_mat_ok(g: &fMRI_graph)
    requires
        g.wf(),
    ensures
        weights_in_range(g.mat(), g.size()),
        symmetric_weights(g.mat(), g.size()),
        g.mat().len() == g.size(),
        forall|i: int, j: int|
            0 <= i < g.size() && 0 <= j < g.size() ==> #[trigger] g.mat()[i][j]
                == g.adjacency_matrix@[i]@[j] as int,
{
    assert forall|i: int| 0 <= i < g.size() implies (#[trigger] g.mat()[i]).len()
        == g.size() by {
        assert(g.mat()[i] == g.adjacency_matrix@[i]@.map_values(|x: i64| x as int));
    }
    assert forall|i: int, j: int| 0 <= i < g.size() && 0 <= j < g.size() implies #[trigger] g.mat(
    )[i][j] == g.adjacency_matrix@[i]@[j] as int by {
        assert(g.mat()[i] == g.adjacency_matrix@[i]@.map_values(|x: i64| x as int));
    }
}

/// Computes the average correlation between two clusters: the sum of the
/// weights over all cross pairs of nodes, kept with the cross-pair count as
/// an exact rational. The matrix diagonal is never read for disjoint
/// clusters, since only true cross pairs contribute.
pub fn cluster_correlation(cluster_1: &Vec<Node>, cluster_2: &Vec<Node>, graph: &fMRI_graph) -> (r:
    Score)
    requires
        graph.wf(),
        idxs_in_range(cluster_indices(cluster_1@), graph.size()),
        idxs_in_range(cluster_indices(cluster_2@), graph.size()),
        1 <= cluster_1@.len() <= NODE_LIMIT,
        1 <= cluster_2@.len() <= NODE_LIMIT,
    ensures
        r.sum as int == pair_sum(
            cluster_indices(cluster_1@),
            cluster_indices(cluster_2@),
            graph.mat(),
        ),
        r.count as int == cluster_1@.len() * cluster_2@.len(),
        r.count > 0,
{
    proof {
        lemma_graph_mat_ok(graph);
    }
    let l1 = cluster_1.len();
    let l2 = cluster_2.len();
    let ghost av = cluster_indices(cluster_1@);
    let ghost bv = cluster_indices(cluster_2@);
    let ghost w = graph.mat();
    let mut total: i64 = 0;
    let mut ai: usize = 0;
    while ai < l1
        invariant
            graph.wf(),
            av == cluster_indices(cluster_1@),
            bv == cluster_indices(cluster_2@),
            w == graph.mat(),
            idxs_in_range(av, graph.size()),
            idxs_in_range(bv, graph.size()),
            l1 == cluster_1@.len(),
            l2 == cluster_2@.len(),
            1 <= l1 <= NODE_LIMIT,
            1 <= l2 <= NODE_LIMIT,
            ai <= l1,
            total as int == pair_sum(av.take(ai as int), bv, w),
        decreases l1 - ai,
    {
        proof {
            lemma_graph_mat_ok(graph);
            assert(idxs_in_range(av.take(ai as int), graph.size())) by {
                assert(forall|k: int|
                    0 <= k < ai ==> #[trigger] av.take(ai as int)[k] == av[k]);
            }
            lemma_pair_sum_bound(av.take(ai as int), bv, w, graph.size());
        }
        let a_idx = cluster_1[ai].node_idx;
        assert(a_idx as int == av[ai as int]);
        let mut rsum: i64 = 0;
        let mut bi: usize = 0;
        while bi < l2
            invariant
                graph.wf(),
                av == cluster_indices(cluster_1@),
                bv == cluster_indices(cluster_2@),
                w == graph.mat(),
                idxs_in_range(bv, graph.size()),
                l2 == cluster_2@.len(),
                1 <= l2 <= NODE_LIMIT,
                bi <= l2,
                0 <= a_idx < graph.size(),
                rsum as int == row_sum(a_idx as int, bv.take(bi as int), w),
                rsum as int <= (bi as int) * (WEIGHT_LIMIT as int),
                -(rsum as int) <= (bi as int) * (WEIGHT_LIMIT as int),
            decreases l2 - bi,
        {
            proof {
                lemma_graph_mat_ok(graph);
            }
            let b_idx = cluster_2[bi].node_idx;
            assert(b_idx as int == bv[bi as int]);
            assert(0 <= b_idx < graph.size());
            let entry = graph.adjacency_matrix[a_idx][b_idx];
            proof {
                assert(entry as int == w[a_idx as int][b_idx as int]);
                assert(-(WEIGHT_LIMIT as int) <= entry as int <= WEIGHT_LIMIT as int);
                let bt = bv.take(bi as int + 1);
                assert(bt.drop_last() =~= bv.take(bi as int));
                assert(bt.last() == bv[bi as int]);
                assert(row_sum(a_idx as int, bt, w) == row_sum(a_idx as int, bv.take(bi as int), w)
                    + w[a_idx as int][bv[bi as int]]);
            }
            rsum = rsum + entry;
            bi += 1;
        }
        proof {
            assert(bv.take(l2 as int) =~= bv);
            let at = av.take(ai as int + 1);
            assert(at.drop_last() =~= av.take(ai as int));
            assert(at.last() == av[ai as int]);
            assert(pair_sum(at, bv, w) == pair_sum(av.take(ai as int), bv, w) + row_sum(
                a_idx as int,
                bv,
                w,
            ));
            let al = ai as int;
            let bl = l2 as int;
            let wl = WEIGHT_LIMIT as int;
            assert(av.take(al).len() == al);
            lemma_pair_sum_bound(av.take(al), bv, w, graph.size());
            assert(al * bl * wl + bl * wl == (al + 1) * bl * wl) by (nonlinear_arith);
            assert((al + 1) * bl * wl <= 46340 * 46340 * 1000000) by (nonlinear_arith)
                requires
                    0 <= al,
                    al + 1 <= 46340,
                    0 <= bl <= 46340,
                    wl == 1000000,
            ;
            assert(total as int + rsum as int <= (al + 1) * bl * wl);
            assert(-(total as int + rsum as int) <= (al + 1) * bl * wl);
        }
        total = total + rsum;
        ai += 1;
    }
    proof {
        assert(av.take(l1 as int) =~= av);
        assert((l1 as int) * (l2 as int) <= 46340 * 46340) by (nonlinear_arith)
            requires
                0 <= l1 <= 46340,
                0 <= l2 <= 46340,
        ;
        assert((l1 as int) * (l2 as int) >= 1) by (nonlinear_arith)
            requires
                1 <= l1,
                1 <= l2,
        ;
    }
    Score { sum: total, count: l1 * l2 }
}

/// The numerator of the average correlation of the cluster pair `(i, j)`.
pub open spec fn pair_s(cl: Seq<Seq<int>>, w: Seq<Seq<int>>, i: int, j: int) -> int {
    pair_sum(cl[i], cl[j], w)
}

/// The denominator of the average correlation of the cluster pair `(i, j)`:
/// the number of cross pairs.
pub open spec fn pair_c(cl: Seq<Seq<int>>, i: int, j: int) -> int {
    (cl[i].len() as int) * (cl[j].len() as int)
}

/// Whether pair `(i1, j1)` comes before pair `(i2, j2)` in the fixed scan
/// order of the selector: ascending outer index, then ascending inner index.
pub open spec fn scan_before(i1: int, j1: int, i2: int, j2: int) -> bool {
    i1 < i2 || (i1 == i2 && j1 < j2)
}

/// Every cluster is non-empty, within the supported size, and holds only
/// offsets below `n`; what scoring a cluster pair requires.
pub open spec fn clusters_scorable(cl: Seq<Seq<int>>, n: int) -> bool {
    forall|c: int|
        0 <= c < cl.len() ==> 1 <= (#[trigger] cl[c]).len() <= NODE_LIMIT && idxs_in_range(
            cl[c],
            n,
        )
}

/// The selection contract: `(bi, bj)` is a valid unordered pair, no pair
/// scores strictly higher, and every pair earlier in the scan order scores
/// strictly lower — so `(bi, bj)` is the first pair attaining the maximum,
/// and is uniquely determined.
pub open spec fn is_best_pair(cl: Seq<Seq<int>>, w: Seq<Seq<int>>, bi: int, bj: int) -> bool {
    &&& 0 <= bj < bi < cl.len()
    &&& forall|a: int, b: int|
        0 <= b < a < cl.len() ==> score_le(
            #[trigger] pair_s(cl, w, a, b),
            pair_c(cl, a, b),
            pair_s(cl, w, bi, bj),
            pair_c(cl, bi, bj),
        )
    &&& forall|a: int, b: int|
        0 <= b < a < cl.len() && scan_before(a, b, bi, bj) ==> score_lt(
            #[trigger] pair_s(cl, w, a, b),
            pair_c(cl, a, b),
            pair_s(cl, w, bi, bj),
            pair_c(cl, bi, bj),
        )
}

/// The selector's loop invariant: `(bi, bj)` is the first maximal pair among
/// those scanned so far, i.e. those before position `(i, j)`.
spec fn selector_inv(
    cl: Seq<Seq<int>>,
    w: Seq<Seq<int>>,
    bi: int,
    bj: int,
    i: int,
    j: int,
) -> bool {
    &&& 0 <= bj < bi < cl.len()
    &&& scan_before(bi, bj, i, j)
    &&& forall|a: int, b: int|
        0 <= b < a < cl.len() && scan_before(a, b, i, j) ==> score_le(
            #[trigger] pair_s(cl, w, a, b),
            pair_c(cl, a, b),
            pair_s(cl, w, bi, bj),
            pair_c(cl, bi, bj),
        )
    &&& forall|a: int, b: int|
        0 <= b < a < cl.len() && scan_before(a, b, bi, bj) ==> score_lt(
            #[trigger] pair_s(cl, w, a, b),
            pair_c(cl, a, b),
            pair_s(cl, w, bi, bj),
            pair_c(cl, bi, bj),
        )
}

proof fn lemma_pair_c_pos(cl: Seq<Seq<int>>, a: int, b: int)
    requires
        0 <= a < cl.len(),
        0 <= b < cl.len(),
        cl[a].len() >= 1,
        cl[b].len() >= 1,
    ensures
        pair_c(cl, a, b) >= 1,
{
    assert((cl[a].len() as int) * (cl[b].len() as int) >= 1) by (nonlinear_arith)
        requires
            cl[a].len() >= 1,
            cl[b].len() >= 1,
    ;
}

proof fn lemma_score_le_lt_trans(s1: int, c1: int, s2: int, c2: int, s3: int, c3: int)
    by (nonlinear_arith)
    requires
        c1 > 0,
        c2 > 0,
        c3 > 0,
        score_le(s1, c1, s2, c2),
        score_lt(s2, c2, s3, c3),
    ensures
        score_lt(s1, c1, s3, c3),
{
}

/// The selection contract pins the pair down: two pairs that both satisfy it
/// are the same pair. With the scorer being a function of the partition and
/// the graph alone, selection is deterministic.
pub proof fn lemma_best_pair_unique(
    cl: Seq<Seq<int>>,
    w: Seq<Seq<int>>,
    i1: int,
    j1: int,
    i2: int,
    j2: int,
)
    requires
        is_best_pair(cl, w, i1, j1),
        is_best_pair(cl, w, i2, j2),
    ensures
        i1 == i2 && j1 == j2,
{
    if i1 != i2 || j1 != j2 {
        if scan_before(i1, j1, i2, j2) {
            assert(score_lt(
                pair_s(cl, w, i1, j1),
                pair_c(cl, i1, j1),
                pair_s(cl, w, i2, j2),
                pair_c(cl, i2, j2),
            ));
            assert(score_le(
                pair_s(cl, w, i2, j2),
                pair_c(cl, i2, j2),
                pair_s(cl, w, i1, j1),
                pair_c(cl, i1, j1),
            ));
        } else {
            assert(scan_before(i2, j2, i1, j1));
            assert(score_lt(
                pair_s(cl, w, i2, j2),
                pair_c(cl, i2, j2),
                pair_s(cl, w, i1, j1),
                pair_c(cl, i1, j1),
            ));
            assert(score_le(
                pair_s(cl, w, i1, j1),
                pair_c(cl, i1, j1),
                pair_s(cl, w, i2, j2),
                pair_c(cl, i2, j2),
            ));
        }
    }
}

/// Finds the pair of clusters with the greatest average correlation,
/// scanning all unordered pairs in a fixed order; on a tie the pair
/// encountered first wins. Returns the indices of the two clusters to merge
/// next, the larger index first, or fails when fewer than two clusters
/// remain.
pub fn cluster_neighbor(clusters: &Vec<Vec<Node>>, graph: &fMRI_graph) -> (r: Result<
    (usize, usize),
    ClusterError,
>)
    requires
        graph.wf(),
        clusters_scorable(partition_view(clusters@), graph.size()),
    ensures
        r.is_ok() <==> clusters@.len() >= 2,
        r matches Ok(p) ==> is_best_pair(
            partition_view(clusters@),
            graph.mat(),
            p.0 as int,
            p.1 as int,
        ),
        r matches Err(e) ==> e == ClusterError::InsufficientClusters,
{
    let n_cl = clusters.len();
    let ghost cl = partition_view(clusters@);
    let ghost w = graph.mat();
    if n_cl < 2 {
        return Err(ClusterError::InsufficientClusters);
    }
    proof {
        assert(cl[1] == cluster_indices(clusters@[1]@));
        assert(cl[0] == cluster_indices(clusters@[0]@));
    }
    let mut best_i: usize = 1;
    let mut best_j: usize = 0;
    let mut best: Score = cluster_correlation(&clusters[1], &clusters[0], graph);
    proof {
        assert(selector_inv(cl, w, 1, 0, 2, 0)) by {
            assert forall|a: int, b: int|
                0 <= b < a < cl.len() && scan_before(a, b, 2, 0) implies score_le(
                #[trigger] pair_s(cl, w, a, b),
                pair_c(cl, a, b),
                pair_s(cl, w, 1, 0),
                pair_c(cl, 1, 0),
            ) by {
                assert(a == 1 && b == 0);
            }
        }
    }
    let mut i: usize = 2;
    while i < n_cl
        invariant
            graph.wf(),
            cl == partition_view(clusters@),
            w == graph.mat(),
            clusters_scorable(cl, graph.size()),
            n_cl == clusters@.len(),
            2 <= n_cl,
            2 <= i <= n_cl,
            best_j < best_i < n_cl,
            best.sum as int == pair_s(cl, w, best_i as int, best_j as int),
            best.count as int == pair_c(cl, best_i as int, best_j as int),
            selector_inv(cl, w, best_i as int, best_j as int, i as int, 0),
        decreases n_cl - i,
    {
        let mut j: usize = 0;
        while j < i
            invariant
                graph.wf(),
                cl == partition_view(clusters@),
                w == graph.mat(),
                clusters_scorable(cl, graph.size()),
                n_cl == clusters@.len(),
                2 <= i < n_cl,
                j <= i,
                best_j < best_i < n_cl,
                best.sum as int == pair_s(cl, w, best_i as int, best_j as int),
                best.count as int == pair_c(cl, best_i as int, best_j as int),
                selector_inv(cl, w, best_i as int, best_j as int, i as int, j as int),
            decreases i - j,
        {
            proof {
                assert(cl[i as int] == cluster_indices(clusters@[i as int]@));
                assert(cl[j as int] == cluster_indices(clusters@[j as int]@));
            }
            let s = cluster_correlation(&clusters[i], &clusters[j], graph);
            let ghost obi = best_i as int;
            let ghost obj = best_j as int;
            let ghost ii = i as int;
            let ghost jj = j as int;
            if best.lt(&s) {
                best = s;
                best_i = i;
                best_j = j;
                proof {
                    assert(score_lt(
                        pair_s(cl, w, obi, obj),
                        pair_c(cl, obi, obj),
                        pair_s(cl, w, ii, jj),
                        pair_c(cl, ii, jj),
                    ));
                    assert forall|a: int, b: int|
                        0 <= b < a < cl.len() && scan_before(a, b, ii, jj + 1) implies score_le(
                        #[trigger] pair_s(cl, w, a, b),
                        pair_c(cl, a, b),
                        pair_s(cl, w, ii, jj),
                        pair_c(cl, ii, jj),
                    ) by {
                        if a == ii && b == jj {
                        } else {
                            assert(scan_before(a, b, ii, jj));
                            lemma_pair_c_pos(cl, a, b);
                            lemma_pair_c_pos(cl, obi, obj);
                            lemma_pair_c_pos(cl, ii, jj);
                            lemma_score_le_lt_trans(
                                pair_s(cl, w, a, b),
                                pair_c(cl, a, b),
                                pair_s(cl, w, obi, obj),
                                pair_c(cl, obi, obj),
                                pair_s(cl, w, ii, jj),
                                pair_c(cl, ii, jj),
                            );
                        }
                    }
                    assert forall|a: int, b: int|
                        0 <= b < a < cl.len() && scan_before(a, b, ii, jj) implies score_lt(
                        #[trigger] pair_s(cl, w, a, b),
                        pair_c(cl, a, b),
                        pair_s(cl, w, ii, jj),
                        pair_c(cl, ii, jj),
                    ) by {
                        assert(scan_before(a, b, ii, 0) || (a == ii && b < jj));
                        lemma_pair_c_pos(cl, a, b);
                        lemma_pair_c_pos(cl, obi, obj);
                        lemma_pair_c_pos(cl, ii, jj);
                        lemma_score_le_lt_trans(
                            pair_s(cl, w, a, b),
                            pair_c(cl, a, b),
                            pair_s(cl, w, obi, obj),
                            pair_c(cl, obi, obj),
                            pair_s(cl, w, ii, jj),
                            pair_c(cl, ii, jj),
                        );
                    }
                    assert(selector_inv(cl, w, ii, jj, ii, jj + 1));
                }
            } else {
                proof {
                    assert(score_le(
                        pair_s(cl, w, ii, jj),
                        pair_c(cl, ii, jj),
                        pair_s(cl, w, obi, obj),
                        pair_c(cl, obi, obj),
                    ));
                    assert forall|a: int, b: int|
                        0 <= b < a < cl.len() && scan_before(a, b, ii, jj + 1) implies score_le(
                        #[trigger] pair_s(cl, w, a, b),
                        pair_c(cl, a, b),
                        pair_s(cl, w, obi, obj),
                        pair_c(cl, obi, obj),
                    ) by {
                        if a == ii && b == jj {
                        } else {
                            assert(scan_before(a, b, ii, jj));
                        }
                    }
                    assert(selector_inv(cl, w, obi, obj, ii, jj + 1));
                }
            }
            j += 1;
        }
        proof {
            assert(selector_inv(cl, w, best_i as int, best_j as int, i as int + 1, 0)) by {
                assert forall|a: int, b: int|
                    0 <= b < a < cl.len() && scan_before(a, b, i as int + 1, 0) implies score_le(
                    #[trigger] pair_s(cl, w, a, b),
                    pair_c(cl, a, b),
                    pair_s(cl, w, best_i as int, best_j as int),
                    pair_c(cl, best_i as int, best_j as int),
                ) by {
                    assert(scan_before(a, b, i as int, i as int));
                }
            }
        }
        i += 1;
    }
    proof {
        assert(is_best_pair(cl, w, best_i as int, best_j as int)) by {
            assert forall|a: int, b: int| 0 <= b < a < cl.len() implies score_le(
                #[trigger] pair_s(cl, w, a, b),
                pair_c(cl, a, b),
                pair_s(cl, w, best_i as int, best_j as int),
                pair_c(cl, best_i as int, best_j as int),
            ) by {
                assert(scan_before(a, b, n_cl as int, 0));
            }
        }
    }
    Ok((best_i, best_j))
}

/// Every node value held by a cluster is the graph's own node record for
/// its offset; what makes the reported names trustworthy.
pub open spec fn nodes_consistent(cl: Seq<Vec<Node>>, nodes: Seq<Node>) -> bool {
    forall|c: int, k: int|
        0 <= c < cl.len() && 0 <= k < cl[c]@.len() ==> (#[trigger] cl[c]@[k]).node_idx
            < nodes.len() && cl[c]@[k] == nodes[cl[c]@[k].node_idx as int]
}

/// A partition of `0 .. n` with `n` within bounds meets every requirement
/// of pair scoring.
pub proof fn lemma_partition_scorable(cl: Seq<Seq<int>>, n: int)
    requires
        is_partition(cl, n),
        n <= NODE_LIMIT,
    ensures
        clusters_scorable(cl, n),
{
    assert forall|c: int|
        0 <= c < cl.len() implies 1 <= (#[trigger] cl[c]).len() <= NODE_LIMIT && idxs_in_range(
        cl[c],
        n,
    ) by {
        lemma_len_le_sum_lens(cl, c);
    }
}

proof fn lemma_cluster_indices_concat(a: Seq<Node>, b: Seq<Node>)
    ensures
        cluster_indices(a + b) =~= cluster_indices(a) + cluster_indices(b),
{
}

/// Merges the two clusters with the greatest average correlation: the
/// best pair `(i, j)` with `j < i` is selected, the nodes of cluster `j`
/// are appended to cluster `i`, and slot `j` is removed. Fails, leaving the
/// clusters untouched, when fewer than two clusters remain.
pub fn merge(clusters: &mut Vec<Vec<Node>>, graph: &fMRI_graph) -> (r: Result<(), ClusterError>)
    requires
        graph.wf(),
        is_partition(partition_view(old(clusters)@), graph.size()),
    ensures
        r.is_ok() <==> old(clusters)@.len() >= 2,
        r matches Err(e) ==> e == ClusterError::InsufficientClusters && final(clusters)@ == old(
            clusters,
        )@,
        r.is_ok() ==> exists|i: int, j: int|
            is_best_pair(partition_view(old(clusters)@), graph.mat(), i, j) && partition_view(
                final(clusters)@,
            ) == merge_step(partition_view(old(clusters)@), i, j),
        r.is_ok() ==> final(clusters)@.len() == old(clusters)@.len() - 1 && is_partition(
            partition_view(final(clusters)@),
            graph.size(),
        ),
        r.is_ok() && nodes_consistent(old(clusters)@, graph.nodes@) ==> nodes_consistent(
            final(clusters)@,
            graph.nodes@,
        ),
{
    let ghost s0 = clusters@;
    let ghost ocl = partition_view(s0);
    proof {
        lemma_partition_scorable(ocl, graph.size());
    }
    match cluster_neighbor(clusters, graph) {
        Err(e) => Err(e),
        Ok((ci, cj)) => {
            let ghost ii = ci as int;
            let ghost jj = cj as int;
            let mut moved = clusters.remove(cj);
            let ghost s1 = clusters@;
            proof {
                s0.remove_ensures(jj);
                assert(s1[ii - 1] == s0[ii]);
            }
            let mut host = clusters.remove(ci - 1);
            let ghost s2 = clusters@;
            host.append(&mut moved);
            proof {
                assert(host@ == s0[ii]@ + s0[jj]@);
            }
            clusters.insert(ci - 1, host);
            proof {
                let fin = clusters@;
                let merged = ocl[ii] + ocl[jj];
                let up = ocl.update(ii, merged);
                let res = up.remove(jj);
                s1.remove_ensures(ii - 1);
                s2.insert_ensures(ii - 1, host);
                up.remove_ensures(jj);
                assert(fin.len() == s0.len() - 1);
                assert(res.len() == s0.len() - 1);
                assert(partition_view(fin) =~= res) by {
                    assert forall|t: int| 0 <= t < fin.len() implies partition_view(fin)[t]
                        == res[t] by {
                        assert(partition_view(fin)[t] == cluster_indices(fin[t]@));
                        if t < jj {
                            assert(fin[t] == s2[t]);
                            assert(s2[t] == s1[t]);
                            assert(s1[t] == s0[t]);
                            assert(res[t] == up[t]);
                            assert(up[t] == ocl[t]);
                            assert(ocl[t] == cluster_indices(s0[t]@));
                        } else if t < ii - 1 {
                            assert(fin[t] == s2[t]);
                            assert(s2[t] == s1[t]);
                            assert(s1[t] == s0[t + 1]);
                            assert(res[t] == up[t + 1]);
                            assert(up[t + 1] == ocl[t + 1]);
                            assert(ocl[t + 1] == cluster_indices(s0[t + 1]@));
                        } else if t == ii - 1 {
                            assert(fin[t] == host);
                            lemma_cluster_indices_concat(s0[ii]@, s0[jj]@);
                            assert(ocl[ii] == cluster_indices(s0[ii]@));
                            assert(ocl[jj] == cluster_indices(s0[jj]@));
                            assert(res[t] == up[ii]);
                            assert(up[ii] == merged);
                        } else {
                            assert(fin[t] == s2[t - 1]);
                            assert(s2[t - 1] == s1[t]);
                            assert(s1[t] == s0[t + 1]);
                            assert(res[t] == up[t + 1]);
                            assert(up[t + 1] == ocl[t + 1]);
                            assert(ocl[t + 1] == cluster_indices(s0[t + 1]@));
                        }
                    }
                }
                lemma_merge_step_partition(ocl, graph.size(), ii, jj);
                assert(is_best_pair(ocl, graph.mat(), ii, jj) && partition_view(fin) == merge_step(
                    ocl,
                    ii,
                    jj,
                ));
                if nodes_consistent(s0, graph.nodes@) {
                    assert forall|c: int, k: int|
                        0 <= c < fin.len() && 0 <= k < fin[c]@.len() implies (
                        #[trigger] fin[c]@[k]).node_idx < graph.nodes@.len() && fin[c]@[k]
                        == graph.nodes@[fin[c]@[k].node_idx as int] by {
                        if c < jj {
                            assert(fin[c] == s0[c]);
                        } else if c < ii - 1 {
                            assert(fin[c] == s0[c + 1]);
                        } else if c == ii - 1 {
                            assert(fin[c] == host);
                            if k < s0[ii]@.len() {
                                assert(fin[c]@[k] == s0[ii]@[k]);
                            } else {
                                assert(fin[c]@[k] == s0[jj]@[k - s0[ii]@.len()]);
                            }
                        } else {
                            assert(fin[c] == s0[c + 1]);
                        }
                    }
                }
            }
            Ok(())
        }
    }
}

/// The reachability relation of the engine: `cl` is the partition obtained
/// from `cl0` by exactly `steps` merges, each merging the best pair of its
/// moment.
pub open spec fn run_rel(cl0: Seq<Seq<int>>, cl: Seq<Seq<int>>, w: Seq<Seq<int>>, steps: nat) -> bool
    decreases steps,
{
    if steps == 0 {
        cl == cl0
    } else {
        exists|prev: Seq<Seq<int>>, i: int, j: int|
            run_rel(cl0, prev, w, (steps - 1) as nat) && #[trigger] is_best_pair(prev, w, i, j)
                && cl == merge_step(prev, i, j)
    }
}

/// The engine is deterministic: from one starting partition over one
/// weight matrix, two runs of the same number of merges end in the same
/// partition — there is no randomness and no iteration-order leakage.
pub proof fn lemma_run_deterministic(
    cl0: Seq<Seq<int>>,
    w: Seq<Seq<int>>,
    r1: Seq<Seq<int>>,
    r2: Seq<Seq<int>>,
    steps: nat,
)
    requires
        run_rel(cl0, r1, w, steps),
        run_rel(cl0, r2, w, steps),
    ensures
        r1 == r2,
    decreases steps,
{
    if steps > 0 {
        let (p1, i1, j1) = choose|p: Seq<Seq<int>>, i: int, j: int|
            run_rel(cl0, p, w, (steps - 1) as nat) && #[trigger] is_best_pair(p, w, i, j) && r1
                == merge_step(p, i, j);
        let (p2, i2, j2) = choose|p: Seq<Seq<int>>, i: int, j: int|
            run_rel(cl0, p, w, (steps - 1) as nat) && #[trigger] is_best_pair(p, w, i, j) && r2
                == merge_step(p, i, j);
        lemma_run_deterministic(cl0, w, p1, p2, (steps - 1) as nat);
        lemma_best_pair_unique(p1, w, i1, j1, i2, j2);
    }
}

/// Runs the full agglomerative engine: every node starts in its own
/// cluster and the best pair is merged until `target` clusters remain,
/// after exactly `N - target` merges. Rejects a target below 1 or above
/// the node count before performing any merge.
pub fn agglomerate(graph: &fMRI_graph, target: usize) -> (r: Result<Vec<Vec<Node>>, ClusterError>)
    requires
        graph.wf(),
    ensures
        r.is_ok() <==> 1 <= target <= graph.nodes@.len(),
        r matches Err(e) ==> e == ClusterError::InvalidTarget,
        r matches Ok(p) ==> p@.len() == target && is_partition(
            partition_view(p@),
            graph.size(),
        ) && run_rel(
            singletons(graph.size()),
            partition_view(p@),
            graph.mat(),
            (graph.nodes@.len() - target) as nat,
        ) && nodes_consistent(p@, graph.nodes@),
{
    let n = graph.nodes.len();
    if target < 1 || target > n {
        return Err(ClusterError::InvalidTarget);
    }
    let mut clusters: Vec<Vec<Node>> = Vec::new();
    proof {
        assert(partition_view(clusters@) =~= singletons(0));
        assert(forall|v: int| flat_count(partition_view(clusters@), v) == 0nat);
    }
    let mut v: usize = 0;
    while v < n
        invariant
            graph.wf(),
            n == graph.nodes@.len(),
            v <= n,
            clusters@.len() == v,
            partition_view(clusters@) == singletons(v as int),
            is_partition(partition_view(clusters@), v as int),
            nodes_consistent(clusters@, graph.nodes@),
        decreases n - v,
    {
        let ghost pv = partition_view(clusters@);
        let ghost olds = clusters@;
        let nd = &graph.nodes[v];
        let copy = Node { node_idx: nd.node_idx, name: nd.name.clone() };
        proof {
            assert(copy == graph.nodes@[v as int]);
        }
        let mut single: Vec<Node> = Vec::new();
        single.push(copy);
        clusters.push(single);
        proof {
            assert(single@ =~= seq![graph.nodes@[v as int]]);
            assert(cluster_indices(single@) =~= seq![v as int]);
            assert(partition_view(clusters@) =~= pv.push(seq![v as int])) by {
                assert(forall|t: int|
                    0 <= t < clusters@.len() ==> #[trigger] partition_view(clusters@)[t]
                        == cluster_indices(clusters@[t]@));
            }
            lemma_partition_push_singleton(pv, v as int);
            assert(partition_view(clusters@) =~= singletons(v as int + 1));
            assert forall|c: int, k: int|
                0 <= c < clusters@.len() && 0 <= k < clusters@[c]@.len() implies (
            #[trigger] clusters@[c]@[k]).node_idx < graph.nodes@.len() && clusters@[c]@[k]
                == graph.nodes@[clusters@[c]@[k].node_idx as int] by {
                if c < olds.len() {
                    assert(clusters@[c] == olds[c]);
                } else {
                    assert(clusters@[c] == single);
                }
            }
        }
        v += 1;
    }
    let ghost w = graph.mat();
    let ghost base = singletons(n as int);
    while clusters.len() > target
        invariant
            graph.wf(),
            n == graph.nodes@.len(),
            w == graph.mat(),
            base == singletons(n as int),
            1 <= target,
            target <= clusters@.len() <= n,
            is_partition(partition_view(clusters@), graph.size()),
            nodes_consistent(clusters@, graph.nodes@),
            run_rel(base, partition_view(clusters@), w, (n - clusters@.len()) as nat),
        decreases clusters@.len(),
    {
        let ghost prev = partition_view(clusters@);
        let ghost psteps = (n - clusters@.len()) as nat;
        let step = merge(&mut clusters, graph);
        proof {
            let cur = partition_view(clusters@);
            let (i, j) = choose|i: int, j: int|
                #[trigger] is_best_pair(prev, w, i, j) && cur == merge_step(prev, i, j);
            assert(run_rel(base, cur, w, psteps + 1)) by {
                assert(run_rel(base, prev, w, psteps) && is_best_pair(prev, w, i, j) && cur
                    == merge_step(prev, i, j));
            }
            assert((n - clusters@.len()) as nat == psteps + 1);
        }
        if let Err(e) = step {
            return Err(e);
        }
    }
    Ok(clusters)
}

/// The sum of `w[x][y]` over the offsets `x` of `a`, for a fixed column
/// `y`: the column counterpart of `row_sum`.
pub open spec fn col_sum(a: Seq<int>, y: int, w: Seq<Seq<int>>) -> int
    decreases a.len(),
{
    if a.len() == 0 {
        0
    } else {
        col_sum(a.drop_last(), y, w) + w[a.last()][y]
    }
}

proof fn lemma_pair_sum_empty_right(a: Seq<int>, w: Seq<Seq<int>>)
    ensures
        pair_sum(a, Seq::<int>::empty(), w) == 0,
    decreases a.len(),
{
    if a.len() > 0 {
        lemma_pair_sum_empty_right(a.drop_last(), w);
    }
}

proof fn lemma_pair_sum_drop_last_right(a: Seq<int>, b: Seq<int>, w: Seq<Seq<int>>)
    requires
        b.len() > 0,
    ensures
        pair_sum(a, b, w) == pair_sum(a, b.drop_last(), w) + col_sum(a, b.last(), w),
    decreases a.len(),
{
    if a.len() > 0 {
        lemma_pair_sum_drop_last_right(a.drop_last(), b, w);
    }
}

proof fn lemma_col_sum_row_sum(a: Seq<int>, y: int, w: Seq<Seq<int>>, n: int)
    requires
        symmetric_weights(w, n),
        idxs_in_range(a, n),
        0 <= y < n,
    ensures
        col_sum(a, y, w) == row_sum(y, a, w),
    decreases a.len(),
{
    if a.len() > 0 {
        assert(idxs_in_range(a.drop_last(), n)) by {
            assert(forall|k: int|
                0 <= k < a.drop_last().len() ==> #[trigger] a.drop_last()[k] == a[k]);
        }
        lemma_col_sum_row_sum(a.drop_last(), y, w, n);
        assert(0 <= a.last() < n);
    }
}

/// Scorer symmetry: over a symmetric weight matrix the average correlation
/// of clusters `A, B` equals that of `B, A` — the exact cross-pair sums
/// coincide, and the cross-pair counts trivially do.
pub proof fn lemma_score_symmetric(a: Seq<int>, b: Seq<int>, w: Seq<Seq<int>>, n: int)
    requires
        symmetric_weights(w, n),
        idxs_in_range(a, n),
        idxs_in_range(b, n),
    ensures
        pair_sum(a, b, w) == pair_sum(b, a, w),
        a.len() * b.len() == b.len() * a.len(),
    decreases b.len(),
{
    if b.len() == 0 {
        assert(b =~= Seq::<int>::empty());
        lemma_pair_sum_empty_right(a, w);
    } else {
        assert(idxs_in_range(b.drop_last(), n)) by {
            assert(forall|k: int|
                0 <= k < b.drop_last().len() ==> #[trigger] b.drop_last()[k] == b[k]);
        }
        lemma_score_symmetric(a, b.drop_last(), w, n);
        lemma_pair_sum_drop_last_right(a, b, w);
        assert(0 <= b.last() < n);
        lemma_col_sum_row_sum(a, b.last(), w, n);
    }
}

} // verus!
