use affinity_clustering::error::ClusterError;
use affinity_clustering::graph::{Edge, Node};
use affinity_clustering::interval_dp::{dynamic_program, q_list};

fn line(weights: &[usize]) -> Vec<Node> {
    weights.iter().enumerate().map(|(i, &w)| Node::new(i, w)).collect()
}

#[test]
fn four_node_line_two_parts_cut_after_index_two() {
    let out = dynamic_program(&line(&[1, 2, 3, 4]), 2, &vec![]).unwrap();
    assert_eq!(out.best, 6);
    assert_eq!(out.cuts, vec![2]);
    assert_eq!(out.part_costs, vec![6, 4]);
    assert_eq!(out.max_cost, 6);
}

#[test]
fn one_part_costs_the_whole_line() {
    let out = dynamic_program(&line(&[3, 1, 4]), 1, &vec![]).unwrap();
    assert_eq!(out.best, 8);
    assert!(out.cuts.is_empty());
    assert_eq!(out.part_costs, vec![8]);
}

#[test]
fn as_many_parts_as_vertices() {
    let out = dynamic_program(&line(&[5, 1, 2]), 3, &vec![]).unwrap();
    assert_eq!(out.cuts, vec![0, 1]);
    assert_eq!(out.part_costs, vec![5, 1, 2]);
    assert_eq!(out.best, 5);
}

#[test]
fn edges_add_inside_and_cut_weight() {
    // positions 0..4, names 10..13
    let l = vec![Node::new(10, 1), Node::new(11, 1), Node::new(12, 1), Node::new(13, 1)];
    let edges = vec![
        Edge { start: 10, end: 11, weight: 5 },
        Edge { start: 11, end: 12, weight: 1 },
        Edge { start: 12, end: 13, weight: 5 },
    ];
    let out = dynamic_program(&l, 2, &edges).unwrap();
    // split after position 1: each part holds a heavy edge and pays for the cut edge
    assert_eq!(out.cuts, vec![1]);
    assert_eq!(out.part_costs, vec![2 + 5 + 1, 2 + 5 + 1]);
    assert_eq!(out.best, 8);
}

#[test]
fn backward_edges_are_not_counted() {
    let l = line(&[1, 1]);
    let edges = vec![Edge { start: 1, end: 0, weight: 9 }];
    let out = dynamic_program(&l, 1, &edges).unwrap();
    assert_eq!(out.best, 2);
}

#[test]
fn dp_matches_brute_force_on_small_lines() {
    let weights = [3, 1, 4, 1, 5, 9, 2, 6];
    for n in 1..=8usize {
        let l = line(&weights[..n]);
        for k in 1..=3usize.min(n) {
            let out = dynamic_program(&l, k, &vec![]).unwrap();
            // brute force over all cut sets
            let mut best = usize::MAX;
            for a in 0..n {
                for b in a..n {
                    let cuts: Vec<usize> = match k {
                        1 => vec![],
                        2 => vec![a],
                        _ => vec![a, b],
                    };
                    if cuts.iter().any(|&c| c + 1 >= n) {
                        continue;
                    }
                    if k == 3 && a == b {
                        continue;
                    }
                    let mut start = 0;
                    let mut worst = 0;
                    for end in cuts.iter().copied().chain(std::iter::once(n - 1)) {
                        let w: usize = weights[start..=end].iter().sum();
                        worst = worst.max(w);
                        start = end + 1;
                    }
                    best = best.min(worst);
                }
            }
            assert_eq!(out.best, best, "n = {}, k = {}", n, k);
            assert_eq!(out.max_cost, best);
        }
    }
}

#[test]
fn empty_line_is_refused() {
    assert!(matches!(dynamic_program(&vec![], 1, &vec![]), Err(ClusterError::EmptyInput)));
}

#[test]
fn bad_partition_counts_are_refused() {
    let l = line(&[1, 2]);
    assert!(matches!(dynamic_program(&l, 0, &vec![]), Err(ClusterError::InvalidPartitionCount)));
    assert!(matches!(dynamic_program(&l, 3, &vec![]), Err(ClusterError::InvalidPartitionCount)));
}

#[test]
fn edge_off_the_line_is_not_found() {
    let l = line(&[1, 2]);
    let edges = vec![Edge { start: 0, end: 7, weight: 1 }];
    assert!(matches!(dynamic_program(&l, 1, &edges), Err(ClusterError::NotFound)));
}

#[test]
fn q_list_halves_recursively() {
    assert_eq!(q_list(1), vec![1]);
    assert_eq!(q_list(2), vec![1, 2]);
    assert_eq!(q_list(5), vec![1, 2, 3, 5]);
    assert_eq!(q_list(6), vec![1, 2, 3, 6]);
    assert_eq!(q_list(7), vec![1, 2, 3, 4, 7]);
    assert_eq!(q_list(33), vec![1, 2, 3, 4, 5, 8, 9, 16, 17, 33]);
}
