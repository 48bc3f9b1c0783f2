use fmri_clustering::clustering::{agglomerate, cluster_correlation, cluster_neighbor, merge, Score};
use fmri_clustering::preprocessing::{fMRI_graph, Node};
use fmri_clustering::ClusterError;
use std::collections::HashSet;

fn mk_node(idx: usize, name: &str) -> Node {
    Node { node_idx: idx, name: String::from(name) }
}

/// A 4-node graph with correlations (in micro-units):
/// w[0][1] = w[0][2] = w[1][2] = 1.0 and w[2][3] = 0.5, all others 0.
fn mk_four_node_graph() -> fMRI_graph {
    let nodes = vec![
        mk_node(0, "Node 1"),
        mk_node(1, "Node 2"),
        mk_node(2, "Node 3"),
        mk_node(3, "Node 4"),
    ];
    let matrix = vec![
        vec![0, 1000000, 1000000, 0],
        vec![1000000, 0, 1000000, 0],
        vec![1000000, 1000000, 0, 500000],
        vec![0, 0, 500000, 0],
    ];
    fMRI_graph::new(nodes, matrix).unwrap()
}

fn cluster_names(cluster: &Vec<Node>) -> HashSet<String> {
    cluster.iter().map(|node| node.name.clone()).collect()
}

#[test]
fn test_find_parent_cluster() {
    let node1 = mk_node(0, "Node 1");
    let node2 = mk_node(1, "Node 2");
    let node3 = mk_node(2, "Node 3");
    let node4 = mk_node(3, "Node 4");
    let clusters = vec![
        vec![node1.clone(), node2.clone()],
        vec![node3.clone(), node4.clone()],
    ];

    // Test that the function correctly identifies the parent cluster for a node
    assert_eq!(node1.find_parent_cluster(&clusters), Some(0));
    assert_eq!(node2.find_parent_cluster(&clusters), Some(0));
    assert_eq!(node3.find_parent_cluster(&clusters), Some(1));
}

#[test]
fn test_merge() {
    let node1 = mk_node(0, "Node 1");
    let node2 = mk_node(1, "Node 2");
    let node3 = mk_node(2, "Node 3");
    let node4 = mk_node(3, "Node 4");
    let mut clusters = vec![
        vec![node1.clone(), node2.clone()],
        vec![node3.clone()],
        vec![node4.clone()],
    ];
    let graph = mk_four_node_graph();

    // Test that the function correctly merges two clusters
    merge(&mut clusters, &graph).unwrap();

    // Create a HashSet of node names
    let expected_node_names = vec!["Node 1", "Node 2", "Node 3"]
        .into_iter()
        .collect::<HashSet<&str>>();

    // Get the node names from the graph
    let node_names = clusters[0]
        .iter()
        .map(|node| node.name.as_str())
        .collect::<HashSet<&str>>();

    // Assert that the node names are correct
    assert_eq!(node_names, expected_node_names);
}

#[test]
fn test_find_parent_cluster_absent_node() {
    let clusters = vec![vec![mk_node(0, "Node 1")], vec![mk_node(1, "Node 2")]];
    let stray = mk_node(7, "Elsewhere");
    assert_eq!(stray.find_parent_cluster(&clusters), None);
}

#[test]
fn test_graph_new_valid() {
    let graph = mk_four_node_graph();
    assert_eq!(graph.nodes.len(), 4);
    assert_eq!(graph.get_adjacency_matrix().len(), 4);
    assert_eq!(graph.get_adjacency_matrix()[2][3], 500000);
}

#[test]
fn test_graph_new_rejects_non_square() {
    let nodes = vec![mk_node(0, "a"), mk_node(1, "b")];
    let matrix = vec![vec![0, 1], vec![1, 0, 2]];
    assert!(matches!(fMRI_graph::new(nodes, matrix), Err(ClusterError::MalformedGraph)));
}

#[test]
fn test_graph_new_rejects_size_mismatch() {
    let nodes = vec![mk_node(0, "a"), mk_node(1, "b")];
    let matrix = vec![vec![0]];
    assert!(matches!(fMRI_graph::new(nodes, matrix), Err(ClusterError::MalformedGraph)));
}

#[test]
fn test_graph_new_rejects_asymmetric() {
    let nodes = vec![mk_node(0, "a"), mk_node(1, "b")];
    let matrix = vec![vec![0, 3], vec![4, 0]];
    assert!(matches!(fMRI_graph::new(nodes, matrix), Err(ClusterError::MalformedGraph)));
}

#[test]
fn test_graph_new_rejects_out_of_range_weight() {
    let nodes = vec![mk_node(0, "a"), mk_node(1, "b")];
    let matrix = vec![vec![0, 2000000], vec![2000000, 0]];
    assert!(matches!(fMRI_graph::new(nodes, matrix), Err(ClusterError::MalformedGraph)));
}

#[test]
fn test_graph_new_rejects_misnumbered_nodes() {
    let nodes = vec![mk_node(1, "a"), mk_node(0, "b")];
    let matrix = vec![vec![0, 5], vec![5, 0]];
    assert!(matches!(fMRI_graph::new(nodes, matrix), Err(ClusterError::MalformedGraph)));
}

#[test]
fn test_cluster_correlation_literal() {
    // Clusters A = {0, 1}, B = {2} with w[0][2] = 0.4 and w[1][2] = 0.8:
    // the average correlation must be exactly 0.6.
    let nodes = vec![mk_node(0, "a"), mk_node(1, "b"), mk_node(2, "c")];
    let matrix = vec![
        vec![0, 0, 400000],
        vec![0, 0, 800000],
        vec![400000, 800000, 0],
    ];
    let graph = fMRI_graph::new(nodes, matrix).unwrap();
    let a = vec![mk_node(0, "a"), mk_node(1, "b")];
    let b = vec![mk_node(2, "c")];
    let score = cluster_correlation(&a, &b, &graph);
    assert_eq!(score.sum, 1200000);
    assert_eq!(score.count, 2);
    // 1.2 / 2 = 0.6, i.e. 600000 micro-units, exactly
    assert_eq!(score.sum / (score.count as i64), 600000);
}

#[test]
fn test_cluster_correlation_symmetric() {
    let graph = mk_four_node_graph();
    let a = vec![mk_node(0, "Node 1"), mk_node(1, "Node 2")];
    let b = vec![mk_node(2, "Node 3"), mk_node(3, "Node 4")];
    let ab = cluster_correlation(&a, &b, &graph);
    let ba = cluster_correlation(&b, &a, &graph);
    assert_eq!(ab.sum, ba.sum);
    assert_eq!(ab.count, ba.count);
}

#[test]
fn test_score_lt_exact() {
    // 1/2 < 2/3, and neither 1/2 < 1/2 nor 2/4 < 1/2
    let half = Score { sum: 1, count: 2 };
    let two_thirds = Score { sum: 2, count: 3 };
    let two_quarters = Score { sum: 2, count: 4 };
    assert!(half.lt(&two_thirds));
    assert!(!two_thirds.lt(&half));
    assert!(!half.lt(&two_quarters));
    assert!(!two_quarters.lt(&half));
    // negative averages compare correctly too: -1/1 < -1/3
    let minus_one = Score { sum: -1, count: 1 };
    let minus_third = Score { sum: -1, count: 3 };
    assert!(minus_one.lt(&minus_third));
    assert!(!minus_third.lt(&minus_one));
}

#[test]
fn test_cluster_neighbor_insufficient_clusters() {
    let graph = mk_four_node_graph();
    let one = vec![vec![
        mk_node(0, "Node 1"),
        mk_node(1, "Node 2"),
        mk_node(2, "Node 3"),
        mk_node(3, "Node 4"),
    ]];
    assert_eq!(cluster_neighbor(&one, &graph), Err(ClusterError::InsufficientClusters));
    let none: Vec<Vec<Node>> = vec![];
    assert_eq!(cluster_neighbor(&none, &graph), Err(ClusterError::InsufficientClusters));
}

#[test]
fn test_cluster_neighbor_tie_break() {
    // Two pairs with the same maximal average correlation: the pair that
    // comes first in the fixed scan order must win, on every run.
    let nodes = vec![mk_node(0, "a"), mk_node(1, "b"), mk_node(2, "c"), mk_node(3, "d")];
    let matrix = vec![
        vec![0, 700000, 0, 0],
        vec![700000, 0, 0, 0],
        vec![0, 0, 0, 700000],
        vec![0, 0, 700000, 0],
    ];
    let graph = fMRI_graph::new(nodes, matrix).unwrap();
    let clusters = vec![
        vec![mk_node(0, "a")],
        vec![mk_node(1, "b")],
        vec![mk_node(2, "c")],
        vec![mk_node(3, "d")],
    ];
    // pairs (1,0) and (3,2) both score 0.7; (1,0) is scanned first
    assert_eq!(cluster_neighbor(&clusters, &graph), Ok((1, 0)));
    assert_eq!(cluster_neighbor(&clusters, &graph), Ok((1, 0)));
}

#[test]
fn test_merge_scenario() {
    // Nodes 1-4 with w[1][2] = w[1][3] = w[2][3] = 1.0, w[3][4] = 0.5 and
    // initial clusters {{1,2},{3},{4}}: the best pair is {1,2} with {3}
    // (average 1.0 over {3}/{4}'s 0.5); one merge yields {{1,2,3},{4}}.
    let graph = mk_four_node_graph();
    let mut clusters = vec![
        vec![mk_node(0, "Node 1"), mk_node(1, "Node 2")],
        vec![mk_node(2, "Node 3")],
        vec![mk_node(3, "Node 4")],
    ];
    assert_eq!(cluster_neighbor(&clusters, &graph), Ok((1, 0)));
    merge(&mut clusters, &graph).unwrap();
    assert_eq!(clusters.len(), 2);
    let first: std::collections::HashSet<String> = cluster_names(&clusters[0]);
    let second: std::collections::HashSet<String> = cluster_names(&clusters[1]);
    let expected_first: std::collections::HashSet<String> =
        ["Node 1", "Node 2", "Node 3"].iter().map(|s| String::from(*s)).collect();
    let expected_second: std::collections::HashSet<String> =
        ["Node 4"].iter().map(|s| String::from(*s)).collect();
    assert_eq!(first, expected_first);
    assert_eq!(second, expected_second);
}

#[test]
fn test_merge_insufficient_clusters() {
    let graph = mk_four_node_graph();
    let mut one = vec![vec![
        mk_node(0, "Node 1"),
        mk_node(1, "Node 2"),
        mk_node(2, "Node 3"),
        mk_node(3, "Node 4"),
    ]];
    assert_eq!(merge(&mut one, &graph), Err(ClusterError::InsufficientClusters));
    assert_eq!(one.len(), 1);
}

#[test]
fn test_agglomerate_invalid_targets() {
    // A target of 0 and a target of N + 1 are both rejected outright.
    let graph = mk_four_node_graph();
    assert_eq!(agglomerate(&graph, 0), Err(ClusterError::InvalidTarget));
    assert_eq!(agglomerate(&graph, 5), Err(ClusterError::InvalidTarget));
}

#[test]
fn test_agglomerate_to_two_clusters() {
    let graph = mk_four_node_graph();
    let clusters = agglomerate(&graph, 2).unwrap();
    assert_eq!(clusters.len(), 2);
    let mut all: Vec<usize> = clusters.iter().flatten().map(|node| node.node_idx).collect();
    all.sort();
    assert_eq!(all, vec![0, 1, 2, 3]);
    // nodes 0, 1, 2 are fully correlated, node 3 only weakly attached
    let first = cluster_names(&clusters[0]);
    let expected: std::collections::HashSet<String> =
        ["Node 1", "Node 2", "Node 3"].iter().map(|s| String::from(*s)).collect();
    assert_eq!(first, expected);
    assert_eq!(clusters[1].len(), 1);
    assert_eq!(clusters[1][0].name, "Node 4");
}

#[test]
fn test_agglomerate_target_equals_node_count() {
    // target == N means zero merges: every node stays in its own cluster
    let graph = mk_four_node_graph();
    let clusters = agglomerate(&graph, 4).unwrap();
    assert_eq!(clusters.len(), 4);
    for (i, cluster) in clusters.iter().enumerate() {
        assert_eq!(cluster.len(), 1);
        assert_eq!(cluster[0].node_idx, i);
    }
}

#[test]
fn test_agglomerate_deterministic() {
    // Identical graph and target: identical final partitions, run to run.
    let graph_a = mk_four_node_graph();
    let graph_b = mk_four_node_graph();
    let first = agglomerate(&graph_a, 2).unwrap();
    let second = agglomerate(&graph_b, 2).unwrap();
    assert_eq!(first, second);
    let third = agglomerate(&graph_a, 2).unwrap();
    assert_eq!(first, third);
}

#[test]
fn test_agglomerate_partition_preserved_each_size() {
    // At every reachable cluster count the result is a true partition of
    // the node set: no offset missing, none duplicated.
    let graph = mk_four_node_graph();
    for target in 1..=4usize {
        let clusters = agglomerate(&graph, target).unwrap();
        assert_eq!(clusters.len(), target);
        let mut all: Vec<usize> =
            clusters.iter().flatten().map(|node| node.node_idx).collect();
        all.sort();
        assert_eq!(all, vec![0, 1, 2, 3]);
        for cluster in &clusters {
            assert!(!cluster.is_empty());
        }
    }
}
