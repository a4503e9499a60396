use affinity_clustering::error::ClusterError;
use affinity_clustering::graph::Node;
use affinity_clustering::rank_swap::{partition_offsets, random_pairing, rank_partitions, rank_swap};

fn line(weights: &[usize]) -> Vec<Node> {
    weights.iter().enumerate().map(|(i, &w)| Node::new(i, w)).collect()
}

#[test]
fn swap_balances_two_partitions() {
    let out = rank_swap(&line(&[4, 4, 1, 1]), 2, 1, &vec![0, 2, 4], &vec![0], 10).unwrap();
    assert_eq!(out.initial_cut_size, vec![8, 2]);
    assert_eq!(out.cut_size, vec![5, 5]);
    let weights: Vec<usize> = out.line.iter().map(|n| n.weight).collect();
    assert_eq!(weights, vec![1, 4, 4, 1]);
    assert!(out.converged);
    assert_eq!(out.passes, 2);
    assert_eq!(out.pairs, vec![(0, 1)]);
}

#[test]
fn max_cut_never_grows() {
    let w = [9, 1, 1, 1, 7, 7, 2, 2, 3, 8, 1, 1];
    let out = rank_swap(&line(&w), 4, 3, &partition_offsets(12, 4), &vec![2, 0, 1], 50).unwrap();
    let before = *out.initial_cut_size.iter().max().unwrap();
    let after = *out.cut_size.iter().max().unwrap();
    assert!(after <= before);
    let mut names: Vec<usize> = out.line.iter().map(|n| n.name).collect();
    names.sort();
    assert_eq!(names, (0..12).collect::<Vec<_>>());
    assert!(out.converged);
}

#[test]
fn pass_cap_reports_non_convergence() {
    let out = rank_swap(&line(&[4, 4, 1, 1]), 2, 1, &vec![0, 2, 4], &vec![0], 1).unwrap();
    assert!(!out.converged);
    assert_eq!(out.passes, 1);
    assert_eq!(out.cut_size, vec![5, 5]);
}

#[test]
fn odd_partition_count_is_refused() {
    let r = rank_swap(&line(&[1, 2, 3]), 3, 1, &vec![0, 1, 2, 3], &vec![0], 5);
    assert!(matches!(r, Err(ClusterError::InvalidPartitionCount)));
}

#[test]
fn empty_line_is_refused_by_rank_swap() {
    let r = rank_swap(&vec![], 2, 1, &vec![0, 0, 0], &vec![0], 5);
    assert!(matches!(r, Err(ClusterError::EmptyInput)));
}

#[test]
fn bad_layout_is_refused() {
    let l = line(&[1, 2, 3, 4]);
    assert!(matches!(rank_swap(&l, 2, 1, &vec![0, 3, 2], &vec![0], 5), Err(ClusterError::InvalidLayout)));
    assert!(matches!(rank_swap(&l, 2, 1, &vec![0, 2, 4], &vec![1], 5), Err(ClusterError::InvalidLayout)));
    assert!(matches!(rank_swap(&l, 2, 2, &vec![0, 2, 4], &vec![0, 0], 5), Err(ClusterError::InvalidLayout)));
    assert!(matches!(rank_swap(&l, 2, 0, &vec![0, 2, 4], &vec![], 5), Err(ClusterError::InvalidLayout)));
}

#[test]
fn offsets_round_to_nearest() {
    assert_eq!(partition_offsets(10, 4), vec![0, 3, 5, 8, 10]);
    assert_eq!(partition_offsets(7, 2), vec![0, 4, 7]);
    assert_eq!(partition_offsets(0, 1), vec![0, 0]);
}

#[test]
fn ranking_heaviest_first_lower_index_on_ties() {
    assert_eq!(rank_partitions(&vec![3, 7, 3, 9]), vec![3, 1, 0, 2]);
    assert_eq!(rank_partitions(&vec![0, 0]), vec![0, 1]);
}

#[test]
fn random_pairing_is_a_permutation() {
    for r in 0..20usize {
        let mut p = random_pairing(r);
        p.sort();
        assert_eq!(p, (0..r).collect::<Vec<_>>());
    }
}

#[test]
fn swap_result_fixed_for_small_line() {
    let out = rank_swap(&line(&[1, 1, 5, 3]), 2, 1, &vec![0, 2, 4], &vec![0], 7).unwrap();
    let sorted: Vec<usize> = out.sorted_line.iter().map(|n| n.weight).collect();
    assert_eq!(sorted, vec![1, 1, 5, 3]);
    assert_eq!(out.rank, vec![1, 0]);
    assert_eq!(out.pairs, vec![(1, 0)]);
    let weights: Vec<usize> = out.line.iter().map(|n| n.weight).collect();
    assert_eq!(weights, vec![5, 1, 1, 3]);
    assert_eq!(out.cut_size, vec![6, 4]);
    assert_eq!(out.cut_size[0] + out.cut_size[1], out.initial_cut_size[0] + out.initial_cut_size[1]);
    assert!(out.converged);
    assert_eq!(out.passes, 2);
}

#[test]
fn intervals_sorted_before_exchange() {
    let out = rank_swap(&line(&[1, 3, 2, 9, 4, 4, 8, 1]), 2, 2, &vec![0, 4, 8], &vec![1, 0], 0).unwrap();
    let sorted: Vec<usize> = out.sorted_line.iter().map(|n| n.weight).collect();
    assert_eq!(sorted, vec![3, 1, 9, 2, 4, 4, 8, 1]);
    assert!(!out.converged);
    assert_eq!(out.passes, 0);
}
