use affinity_clustering::coarsen::Affinity;
use affinity_clustering::common_neighbors::find_common_neighbors;
use affinity_clustering::error::ClusterError;
use affinity_clustering::graph::{closest_edges, edges_of_every_vertexs, vertices_of, Edge, Node};
use affinity_clustering::pipeline::combination;

fn undirected(list: &[(usize, usize, usize)]) -> Vec<Edge> {
    let mut edges = Vec::new();
    for &(a, b, w) in list {
        edges.push(Edge { start: a, end: b, weight: w });
        edges.push(Edge { start: b, end: a, weight: w });
    }
    edges
}

#[test]
fn edges_grouped_by_start() {
    let edges = vec![
        Edge { start: 0, end: 1, weight: 3 },
        Edge { start: 2, end: 0, weight: 1 },
        Edge { start: 0, end: 2, weight: 2 },
    ];
    let groups = edges_of_every_vertexs(&edges, 3);
    assert_eq!(groups.len(), 3);
    assert_eq!(groups[0], vec![edges[0], edges[2]]);
    assert_eq!(groups[1], vec![]);
    assert_eq!(groups[2], vec![edges[1]]);
}

#[test]
fn closest_edge_lowest_or_highest_first_on_ties() {
    let edges = vec![
        Edge { start: 0, end: 1, weight: 3 },
        Edge { start: 0, end: 2, weight: 1 },
        Edge { start: 0, end: 3, weight: 1 },
        Edge { start: 0, end: 4, weight: 5 },
        Edge { start: 1, end: 0, weight: 2 },
    ];
    let lowest = closest_edges(&edges, 5, false);
    assert_eq!(lowest, vec![Some(1), Some(4), None, None, None]);
    let highest = closest_edges(&edges, 5, true);
    assert_eq!(highest, vec![Some(3), Some(4), None, None, None]);
}

#[test]
fn vertices_ascending_once() {
    let edges = vec![Edge { start: 5, end: 1, weight: 1 }, Edge { start: 1, end: 3, weight: 1 }];
    assert_eq!(vertices_of(&edges, 6), vec![1, 3, 5]);
}

#[test]
fn mutual_pair_merges_in_one_round() {
    let edges = undirected(&[(0, 1, 1), (1, 2, 5), (2, 3, 1)]);
    let mut af = Affinity::new_and_init(&edges, 2);
    let out = af.clustering(false, false, 5).unwrap();
    assert!(out.converged);
    assert_eq!(out.rounds, 1);
    let uf = af.union_find();
    assert_eq!(uf.get_items().len(), 2);
    assert_eq!(uf.find(0).unwrap(), uf.find(1).unwrap());
    assert_eq!(uf.find(2).unwrap(), uf.find(3).unwrap());
    assert_ne!(uf.find(0).unwrap(), uf.find(2).unwrap());
    // only the edge between the two clusters is left, once in each direction
    assert_eq!(af.edges().len(), 2);
    assert!(af.edges().iter().all(|e| e.weight == 5));
}

#[test]
fn chain_collapses_into_one_cluster() {
    // 0 -> 1 -> 2 -> 3 (closest), 3 <-> 2 mutual
    let edges = vec![
        Edge { start: 0, end: 1, weight: 1 },
        Edge { start: 1, end: 2, weight: 1 },
        Edge { start: 2, end: 3, weight: 1 },
        Edge { start: 3, end: 2, weight: 1 },
    ];
    let mut af = Affinity::new_and_init(&edges, 1);
    let out = af.clustering(false, false, 3).unwrap();
    assert!(out.converged);
    assert_eq!(af.union_find().get_items().len(), 1);
}

#[test]
fn three_cycle_terminates_and_merges() {
    let edges = vec![
        Edge { start: 0, end: 1, weight: 1 },
        Edge { start: 1, end: 2, weight: 1 },
        Edge { start: 2, end: 0, weight: 1 },
    ];
    let mut af = Affinity::new_and_init(&edges, 1);
    let out = af.clustering(false, false, 4).unwrap();
    assert!(out.converged);
    assert_eq!(af.union_find().get_items().len(), 1);
    let mut line = af.linear_embed();
    line.sort();
    assert_eq!(line, vec![0, 1, 2]);
}

#[test]
fn round_cap_reports_non_convergence() {
    // two disconnected pairs can never become one cluster
    let edges = undirected(&[(0, 1, 1), (2, 3, 1)]);
    let mut af = Affinity::new_and_init(&edges, 1);
    let out = af.clustering(false, false, 3).unwrap();
    assert!(!out.converged);
    assert_eq!(out.rounds, 3);
    assert_eq!(af.union_find().get_items().len(), 2);
}

#[test]
fn zero_round_cap_runs_nothing() {
    let edges = undirected(&[(0, 1, 1)]);
    let mut af = Affinity::new_and_init(&edges, 1);
    let out = af.clustering(false, false, 0).unwrap();
    assert!(!out.converged);
    assert_eq!(out.rounds, 0);
    assert_eq!(af.union_find().get_items(), vec![0, 1]);
}

#[test]
fn embedding_lists_every_vertex_once() {
    let edges = undirected(&[(0, 1, 2), (1, 2, 1), (2, 3, 4), (3, 4, 1), (4, 5, 3), (5, 0, 2), (6, 7, 1)]);
    let mut af = Affinity::new_and_init(&edges, 2);
    af.clustering(true, false, 5).unwrap();
    let line = af.linear_embed();
    let mut sorted = line.clone();
    sorted.sort();
    assert_eq!(sorted, vec![0, 1, 2, 3, 4, 5, 6, 7]);
    assert_eq!(af.vertices(), &vec![0, 1, 2, 3, 4, 5, 6, 7]);
}

#[test]
fn embedding_orders_clusters_by_root() {
    let edges = undirected(&[(0, 1, 1), (2, 3, 1)]);
    let mut af = Affinity::new_and_init(&edges, 2);
    af.clustering(false, false, 1).unwrap();
    // roots 1 and 3 (ties keep the second root), members in merge order
    assert_eq!(af.linear_embed(), vec![1, 0, 3, 2]);
}

#[test]
fn fragments_attach_to_neighbours() {
    // a star: centre 0, leaves 1..4; round one makes one pair, the rest are fragments
    let edges = undirected(&[(0, 1, 1), (0, 2, 2), (0, 3, 3), (0, 4, 4)]);
    let mut af = Affinity::new_and_init(&edges, 1);
    let out = af.clustering(true, false, 5).unwrap();
    assert!(out.converged);
    assert_eq!(af.union_find().get_items().len(), 1);
}

#[test]
fn common_neighbour_graph_counts_shared_in_neighbours() {
    let edges = vec![
        Edge { start: 0, end: 2, weight: 7 },
        Edge { start: 1, end: 2, weight: 7 },
        Edge { start: 0, end: 3, weight: 7 },
        Edge { start: 1, end: 3, weight: 7 },
        Edge { start: 0, end: 3, weight: 7 },
    ];
    let out = find_common_neighbors(&edges);
    assert_eq!(
        out,
        vec![Edge { start: 2, end: 3, weight: 2 }, Edge { start: 3, end: 2, weight: 2 }]
    );
}

#[test]
fn common_neighbour_graph_of_empty_graph_is_empty() {
    assert_eq!(find_common_neighbors(&vec![]), vec![]);
}

#[test]
fn common_neighbour_coarsening_groups_dense_regions() {
    let edges = undirected(&[(0, 1, 1), (0, 2, 1), (1, 2, 1), (3, 4, 1), (3, 5, 1), (4, 5, 1), (2, 3, 1)]);
    let cn = find_common_neighbors(&edges);
    let mut af = Affinity::new_and_init(&cn, 2);
    let out = af.clustering(false, true, 5).unwrap();
    assert!(out.converged);
    let mut line = af.linear_embed();
    line.sort();
    assert_eq!(line, vec![0, 1, 2, 3, 4, 5]);
}

#[test]
fn round_joins_each_vertex_with_its_closest_neighbour() {
    let edges = undirected(&[(0, 1, 1), (1, 2, 2), (2, 3, 3), (3, 4, 1), (4, 5, 9)]);
    let mut af = Affinity::new_and_init(&edges, 1);
    af.coarsening_round(false, false, 1);
    let uf = af.union_find();
    // closest: 0->1, 1->0, 2->1, 3->4, 4->3, 5->4
    assert_eq!(uf.find(0).unwrap(), uf.find(1).unwrap());
    assert_eq!(uf.find(2).unwrap(), uf.find(1).unwrap());
    assert_eq!(uf.find(3).unwrap(), uf.find(4).unwrap());
    assert_eq!(uf.find(5).unwrap(), uf.find(4).unwrap());
    assert_eq!(uf.get_items().len(), 2);
}

#[test]
fn combination_lays_out_weighted_line() {
    let edges = undirected(&[(0, 1, 1), (2, 3, 1)]);
    let mut af = Affinity::new_and_init(&edges, 2);
    af.clustering(false, false, 1).unwrap();
    let weights = vec![10, 11, 12, 13];
    let line = combination(&af, &weights, 2, 1, false, &vec![0], 5).unwrap();
    assert_eq!(line, vec![Node::new(1, 11), Node::new(0, 10), Node::new(3, 13), Node::new(2, 12)]);
    let balanced = combination(&af, &weights, 2, 1, true, &vec![0], 5).unwrap();
    let mut names: Vec<usize> = balanced.iter().map(|n| n.name).collect();
    names.sort();
    assert_eq!(names, vec![0, 1, 2, 3]);
    assert!(balanced.iter().all(|n| n.weight == weights[n.name]));
}

#[test]
fn combination_without_weight_is_not_found() {
    let edges = undirected(&[(0, 5, 1)]);
    let af = Affinity::new_and_init(&edges, 1);
    let r = combination(&af, &vec![1, 1], 1, 1, false, &vec![0], 5);
    assert_eq!(r, Err(ClusterError::NotFound));
}

#[test]
fn combination_refuses_bad_balancing_requests() {
    let empty = Affinity::new_and_init(&vec![], 1);
    assert_eq!(combination(&empty, &vec![], 2, 1, true, &vec![0], 5), Err(ClusterError::EmptyInput));
    let edges = undirected(&[(0, 1, 1), (2, 3, 1)]);
    let af = Affinity::new_and_init(&edges, 2);
    let weights = vec![1, 1, 1, 1];
    assert_eq!(combination(&af, &weights, 3, 1, true, &vec![0], 5), Err(ClusterError::InvalidPartitionCount));
    assert_eq!(combination(&af, &weights, 6, 1, true, &vec![0], 5), Err(ClusterError::InvalidPartitionCount));
    assert_eq!(combination(&af, &weights, 2, 2, true, &vec![1, 1], 5), Err(ClusterError::InvalidLayout));
    assert_eq!(combination(&af, &weights, 2, 0, true, &vec![], 5), Err(ClusterError::InvalidLayout));
    let heavy = vec![usize::MAX, 1, 1, 1];
    assert_eq!(combination(&af, &heavy, 2, 1, true, &vec![0], 5), Err(ClusterError::WeightOverflow));
}

#[test]
fn fragment_attaches_along_lightest_exit() {
    let edges = vec![
        Edge { start: 2, end: 0, weight: 4 },
        Edge { start: 2, end: 1, weight: 3 },
        Edge { start: 2, end: 3, weight: 3 },
        Edge { start: 0, end: 1, weight: 1 },
    ];
    let mut af = Affinity::new_and_init(&edges, 1);
    af.attach_fragment(2, 1);
    let uf = af.union_find();
    assert_eq!(uf.find(2).unwrap(), uf.find(1).unwrap());
    assert_ne!(uf.find(2).unwrap(), uf.find(3).unwrap());
    assert_eq!(uf.get_items().len(), 3);
    // a cluster at the size bound is left alone
    let mut af = Affinity::new_and_init(&edges, 1);
    af.attach_fragment(2, 0);
    assert_eq!(af.union_find().get_items().len(), 4);
}

#[test]
fn clustering_refuses_empty_graph_and_zero_target() {
    let mut empty = Affinity::new_and_init(&vec![], 1);
    assert_eq!(empty.clustering(false, false, 5), Err(ClusterError::EmptyInput));
    let edges = undirected(&[(0, 1, 1)]);
    let mut af = Affinity::new_and_init(&edges, 0);
    assert_eq!(af.clustering(false, false, 5), Err(ClusterError::InvalidPartitionCount));
    assert_eq!(af.union_find().get_items(), vec![0, 1]);
}

#[test]
fn no_round_when_already_at_target() {
    let edges = undirected(&[(0, 1, 1), (1, 2, 1)]);
    let mut af = Affinity::new_and_init(&edges, 3);
    let out = af.clustering(false, false, 5).unwrap();
    assert!(out.converged);
    assert_eq!(out.rounds, 0);
    assert_eq!(af.union_find().get_items(), vec![0, 1, 2]);
    assert_eq!(af.edges(), &edges);
}

#[test]
fn vertex_joins_neighbour_without_out_edges() {
    let edges = vec![Edge { start: 0, end: 1, weight: 1 }];
    let mut af = Affinity::new_and_init(&edges, 1);
    let out = af.clustering(false, false, 3).unwrap();
    assert!(out.converged);
    assert_eq!(out.rounds, 1);
    assert_eq!(af.union_find().get_items().len(), 1);
}
