//! The data model of the clustering core: nodes, the correlation graph with
//! its square symmetric weight matrix, and the node-to-cluster lookup.
use vstd::prelude::*;

use crate::{ClusterError, NODE_LIMIT, WEIGHT_LIMIT};

verus! {

/// One brain region: its row/column offset into the weight matrix and its
/// human-readable name. The offset is assigned once, from input order, and
/// never changes.
#[derive(Debug, Clone, PartialEq)]
pub struct Node {
    pub node_idx: usize,
    pub name: String,
}

/// A functional-connectivity graph: an ordered node sequence and a square,
/// symmetric matrix of correlation weights in micro-units. Built once and
/// read-only for the lifetime of a clustering run.
#[allow(non_camel_case_types)]
#[derive(Debug)]
pub struct fMRI_graph {
    pub nodes: Vec<Node>,
    pub adjacency_matrix: Vec<Vec<i64>>,
}

/// What a well-formed graph value satisfies: node count within bounds, a
/// square matrix of the same side, every weight within the fixed-point
/// range, symmetry, and node offsets matching input order.
pub open spec fn graph_form_ok(nodes: Seq<Node>, m: Seq<Vec<i64>>) -> bool {
    let n = nodes.len() as int;
    &&& n <= NODE_LIMIT
    &&& m.len() == n
    &&& forall|i: int| 0 <= i < n ==> (#[trigger] m[i])@.len() == n
    &&& forall|i: int, j: int|
        0 <= i < n && 0 <= j < n ==> -WEIGHT_LIMIT <= #[trigger] m[i]@[j] <= WEIGHT_LIMIT
    &&& forall|i: int, j: int| 0 <= i < n && 0 <= j < n ==> #[trigger] m[i]@[j] == m[j]@[i]
    &&& forall|i: int| 0 <= i < n ==> (#[trigger] nodes[i]).node_idx == i
}

impl fMRI_graph {
    /// The number of nodes (and the side of the weight matrix).
    pub open spec fn size(&self) -> int {
        self.nodes@.len() as int
    }

    /// The graph invariant every clustering operation relies on.
    pub open spec fn wf(&self) -> bool {
        graph_form_ok(self.nodes@, self.adjacency_matrix@)
    }

    /// The weight matrix as a mathematical sequence of rows of integers.
    pub open spec fn mat(&self) -> Seq<Seq<int>> {
        self.adjacency_matrix@.map_values(|row: Vec<i64>| row@.map_values(|x: i64| x as int))
    }

    /// Builds a graph after validating the invariant, rejecting a node
    /// sequence or weight matrix that is inconsistent, asymmetric, or out of
    /// the supported range.
    pub fn new(nodes: Vec<Node>, adjacency_matrix: Vec<Vec<i64>>) -> (r: Result<
        fMRI_graph,
        ClusterError,
    >)
        ensures
            r.is_ok() <==> graph_form_ok(nodes@, adjacency_matrix@),
            r matches Ok(g) ==> g.nodes@ == nodes@ && g.adjacency_matrix@ == adjacency_matrix@
                && g.wf(),
            r matches Err(e) ==> e == ClusterError::MalformedGraph,
    {
        let n = nodes.len();
        if n > NODE_LIMIT {
            return Err(ClusterError::MalformedGraph);
        }
        if adjacency_matrix.len() != n {
            return Err(ClusterError::MalformedGraph);
        }
        let mut i: usize = 0;
        while i < n
            invariant
                n == nodes@.len(),
                i <= n,
                forall|k: int| 0 <= k < i ==> (#[trigger] nodes@[k]).node_idx == k,
            decreases n - i,
        {
            if nodes[i].node_idx != i {
                return Err(ClusterError::MalformedGraph);
            }
            i += 1;
        }
        let mut r: usize = 0;
        while r < n
            invariant
                n == nodes@.len(),
                n == adjacency_matrix@.len(),
                r <= n,
                forall|k: int| 0 <= k < r ==> (#[trigger] adjacency_matrix@[k])@.len() == n,
            decreases n - r,
        {
            if adjacency_matrix[r].len() != n {
                return Err(ClusterError::MalformedGraph);
            }
            r += 1;
        }
        let mut i: usize = 0;
        while i < n
            invariant
                n == nodes@.len(),
                n == adjacency_matrix@.len(),
                i <= n,
                forall|k: int| 0 <= k < n ==> (#[trigger] adjacency_matrix@[k])@.len() == n,
                forall|a: int, b: int|
                    0 <= a < i && 0 <= b < n ==> -WEIGHT_LIMIT <= #[trigger] adjacency_matrix@[a]@[b]
                        <= WEIGHT_LIMIT,
                forall|a: int, b: int|
                    0 <= a < i && 0 <= b < n ==> #[trigger] adjacency_matrix@[a]@[b]
                        == adjacency_matrix@[b]@[a],
            decreases n - i,
        {
            let mut j: usize = 0;
            while j < n
                invariant
                    n == nodes@.len(),
                    n == adjacency_matrix@.len(),
                    i < n,
                    j <= n,
                    forall|k: int| 0 <= k < n ==> (#[trigger] adjacency_matrix@[k])@.len() == n,
                    forall|b: int|
                        0 <= b < j ==> -WEIGHT_LIMIT <= #[trigger] adjacency_matrix@[i as int]@[b]
                            <= WEIGHT_LIMIT,
                    forall|b: int|
                        0 <= b < j ==> #[trigger] adjacency_matrix@[i as int]@[b]
                            == adjacency_matrix@[b]@[i as int],
                decreases n - j,
            {
                let w = adjacency_matrix[i][j];
                if w < -WEIGHT_LIMIT || w > WEIGHT_LIMIT {
                    return Err(ClusterError::MalformedGraph);
                }
                if w != adjacency_matrix[j][i] {
                    return Err(ClusterError::MalformedGraph);
                }
                j += 1;
            }
            i += 1;
        }
        Ok(fMRI_graph { nodes, adjacency_matrix })
    }

    /// The validated weight matrix, for downstream consumers.
    pub fn get_adjacency_matrix(&self) -> (r: &Vec<Vec<i64>>)
        ensures
            r@ == self.adjacency_matrix@,
    {
        &self.adjacency_matrix
    }
}

/// Whether some position of the cluster holds a node with the given offset.
pub open spec fn cluster_has_idx(c: Seq<Node>, v: int) -> bool {
    exists|k: int| 0 <= k < c.len() && (#[trigger] c[k]).node_idx == v
}

impl Node {
    /// Identifies the first cluster to which this node's offset belongs, or
    /// `None` when no cluster holds it — which, under the partition
    /// invariant, signals a broken partition rather than a normal outcome.
    pub fn find_parent_cluster(&self, clusters: &Vec<Vec<Node>>) -> (r: Option<usize>)
        ensures
            match r {
                Some(c) => (c as int) < clusters@.len() && cluster_has_idx(
                    clusters@[c as int]@,
                    self.node_idx as int,
                ) && forall|c2: int|
                    0 <= c2 < c ==> !cluster_has_idx(
                        (#[trigger] clusters@[c2])@,
                        self.node_idx as int,
                    ),
                None => forall|c2: int|
                    0 <= c2 < clusters@.len() ==> !cluster_has_idx(
                        (#[trigger] clusters@[c2])@,
                        self.node_idx as int,
                    ),
            },
    {
        let mut c: usize = 0;
        while c < clusters.len()
            invariant
                c <= clusters@.len(),
                forall|c2: int|
                    0 <= c2 < c ==> !cluster_has_idx(
                        (#[trigger] clusters@[c2])@,
                        self.node_idx as int,
                    ),
            decreases clusters@.len() - c,
        {
            let mut k: usize = 0;
            let len = clusters[c].len();
            while k < len
                invariant
                    c < clusters@.len(),
                    forall|c2: int|
                        0 <= c2 < c ==> !cluster_has_idx(
                            (#[trigger] clusters@[c2])@,
                            self.node_idx as int,
                        ),
                    len == clusters@[c as int]@.len(),
                    k <= len,
                    forall|k2: int|
                        0 <= k2 < k ==> (#[trigger] clusters@[c as int]@[k2]).node_idx
                            != self.node_idx,
                decreases len - k,
            {
                if clusters[c][k].node_idx == self.node_idx {
                    proof {
                        assert(cluster_has_idx(clusters@[c as int]@, self.node_idx as int)) by {
                            assert((clusters@[c as int]@[k as int]).node_idx == self.node_idx);
                        }
                    }
                    return Some(c);
                }
                k += 1;
            }
            c += 1;
        }
        None
    }
}

} // verus!
