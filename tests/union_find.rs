use affinity_clustering::error::ClusterError;
use affinity_clustering::union_find::ArrayUnion;

#[test]
fn disjoint_set_two_roots_after_three_unions() {
    // a, b, c, d, e are 0..5
    let mut uf = ArrayUnion::new_and_init(vec![0, 1, 2, 3, 4]);
    uf.union(0, 1);
    uf.union(2, 3);
    let ab = uf.find(0).unwrap();
    let cd = uf.find(2).unwrap();
    uf.union(ab, cd);
    let roots = uf.get_items();
    assert_eq!(roots.len(), 2);
    let big = uf.find(0).unwrap();
    assert_eq!(uf.cluster_size(big), 4);
    assert_eq!(uf.find(1).unwrap(), big);
    assert_eq!(uf.find(2).unwrap(), big);
    assert_eq!(uf.find(3).unwrap(), big);
    assert_eq!(uf.find(4).unwrap(), 4);
    assert_eq!(uf.cluster_size(4), 1);
    let mut members = uf.cluster_members(big);
    members.sort();
    assert_eq!(members, vec![0, 1, 2, 3]);
}

#[test]
fn union_keeps_larger_root_and_b_on_ties() {
    let mut uf = ArrayUnion::new_and_init(vec![0, 1, 2]);
    uf.union(0, 1);
    assert_eq!(uf.find(0).unwrap(), 1);
    assert_eq!(uf.cluster_members(1), vec![1, 0]);
    uf.union(1, 2);
    assert_eq!(uf.find(2).unwrap(), 1);
    assert_eq!(uf.cluster_members(1), vec![1, 0, 2]);
    assert_eq!(uf.cluster_size(1), 3);
    assert_eq!(uf.get_items(), vec![1]);
}

#[test]
fn union_on_non_roots_is_ignored() {
    let mut uf = ArrayUnion::new_and_init(vec![0, 1, 2]);
    uf.union(0, 1);
    uf.union(0, 2);
    assert_eq!(uf.get_items(), vec![1, 2]);
    uf.union(1, 1);
    assert_eq!(uf.get_items(), vec![1, 2]);
    uf.union(1, 7);
    assert_eq!(uf.get_items(), vec![1, 2]);
}

#[test]
fn find_unknown_vertex_is_not_found() {
    let uf = ArrayUnion::new_and_init(vec![1, 3]);
    assert_eq!(uf.find(2), Err(ClusterError::NotFound));
    assert_eq!(uf.find(9), Err(ClusterError::NotFound));
    assert_eq!(uf.find(3), Ok(3));
    assert!(uf.has_vertex(1));
    assert!(!uf.has_vertex(0));
}

#[test]
fn sizes_match_member_lists_after_unions() {
    let mut uf = ArrayUnion::new_and_init(vec![0, 1, 2, 3, 4, 5, 6]);
    let pairs = [(0, 1), (2, 3), (1, 3), (4, 5), (3, 5), (6, 6)];
    for (a, b) in pairs.iter() {
        let ra = uf.find(*a).unwrap();
        let rb = uf.find(*b).unwrap();
        uf.union(ra, rb);
        let mut seen = Vec::new();
        for r in uf.get_items() {
            let members = uf.cluster_members(r);
            assert_eq!(uf.cluster_size(r), members.len());
            for m in members {
                assert_eq!(uf.find(m).unwrap(), r);
                seen.push(m);
            }
        }
        seen.sort();
        assert_eq!(seen, vec![0, 1, 2, 3, 4, 5, 6]);
    }
}

#[test]
fn partitions_list_members_by_root() {
    let mut uf = ArrayUnion::new_and_init(vec![0, 1, 2, 3]);
    uf.union(0, 1);
    uf.union(3, 2);
    assert_eq!(uf.get_partitions(), vec![vec![1, 0], vec![2, 3]]);
}
