use crate::coarsen::{concat_members, Affinity};
use crate::error::ClusterError;
use crate::graph::Node;
use crate::rank_swap::{
    is_permutation, line_weight_fits, pairing_valid, partition_offsets, range_weight, rank_swap,
};
use vstd::prelude::*;

verus! {

/// The line of `af`'s clusters: members in merge order, clusters by
/// ascending root.
pub open spec fn embedding(af: &Affinity) -> Seq<usize> {
    concat_members(af.clusters(), af.clusters().roots_upto(af.clusters().universe()))
}

/// Every vertex of `line` paired with its weight.
pub open spec fn weighted(line: Seq<usize>, weights: Seq<usize>) -> Seq<Node> {
    Seq::new(line.len(), |i: int| Node { name: line[i], weight: weights[line[i] as int] })
}

/// Pairs every vertex of `line` with its weight, `weights[v]`, or reports
/// `NotFound` for the first vertex without one.
pub fn attach_weights(line: &Vec<usize>, weights: &Vec<usize>) -> (r: Result<Vec<Node>, ClusterError>)
    ensures
        (forall|i: int| 0 <= i < line.len() ==> line[i] < weights.len()) ==> r is Ok,
        !(forall|i: int| 0 <= i < line.len() ==> line[i] < weights.len()) ==> r == Err::<
            Vec<Node>,
            ClusterError,
        >(ClusterError::NotFound),
        r is Ok ==> r->Ok_0.len() == line.len() && forall|i: int|
            0 <= i < line.len() ==> #[trigger] r->Ok_0[i] == (Node {
                name: line[i],
                weight: weights[line[i] as int],
            }),
{
    let mut out: Vec<Node> = Vec::new();
    let mut i: usize = 0;
    while i < line.len()
        invariant
            i <= line.len(),
            out@.len() == i,
            forall|j: int| 0 <= j < i ==> line[j] < weights.len(),
            forall|j: int|
                0 <= j < i ==> #[trigger] out@[j] == (Node {
                    name: line[j],
                    weight: weights[line[j] as int],
                }),
        decreases line.len() - i,
    {
        let v = line[i];
        if v >= weights.len() {
            return Err(ClusterError::NotFound);
        }
        out.push(Node { name: v, weight: weights[v] });
        i += 1;
    }
    Ok(out)
}

/// Lays the clusters of `af` out as a line of weighted nodes and, when
/// `balance` is set, balances `partitions` partitions of it (offsets
/// `i * n / partitions` rounded) by rank swap with `intervals` intervals
/// per partition, the interval pairing `pairing`, and at most `max_passes`
/// passes. Without `balance` the line is returned as laid out. A line
/// whose total weight does not fit a machine word is refused.
pub fn combination(
    af: &Affinity,
    weights: &Vec<usize>,
    partitions: usize,
    intervals: usize,
    balance: bool,
    pairing: &Vec<usize>,
    max_passes: usize,
) -> (r: Result<Vec<Node>, ClusterError>)
    requires
        af.wf(),
    ensures
        !(forall|x: usize| #[trigger] af.vertex_list().contains(x) ==> x < weights.len()) ==> r
            == Err::<Vec<Node>, ClusterError>(ClusterError::NotFound),
        !balance && (forall|x: usize| #[trigger] af.vertex_list().contains(x) ==> x < weights.len())
            ==> r is Ok && r->Ok_0@ == weighted(embedding(af), weights@),
        r is Ok ==> r->Ok_0@.to_multiset() == weighted(embedding(af), weights@).to_multiset(),
        balance && (forall|x: usize| #[trigger] af.vertex_list().contains(x) ==> x < weights.len())
            ==> {
            let n = af.vertex_list().len();
            &&& n == 0 ==> r == Err::<Vec<Node>, ClusterError>(ClusterError::EmptyInput)
            &&& n > 0 && (partitions == 0 || partitions > n || partitions % 2 == 1) ==> r == Err::<
                Vec<Node>,
                ClusterError,
            >(ClusterError::InvalidPartitionCount)
            &&& n > 0 && 1 <= partitions <= n && partitions % 2 == 0 && !(intervals >= 1
                && is_permutation(pairing@, intervals as int)) ==> r == Err::<Vec<Node>, ClusterError>(
                ClusterError::InvalidLayout,
            )
            &&& n > 0 && 1 <= partitions <= n && partitions % 2 == 0 && intervals >= 1
                && is_permutation(pairing@, intervals as int) ==> (r is Ok || r == Err::<
                Vec<Node>,
                ClusterError,
            >(ClusterError::WeightOverflow))
            &&& n > 0 && 1 <= partitions <= n && partitions % 2 == 0 && intervals >= 1
                && is_permutation(pairing@, intervals as int) ==> (r == Err::<Vec<Node>, ClusterError>(
                ClusterError::WeightOverflow,
            ) <==> range_weight(weighted(embedding(af), weights@), 0, n as int) > usize::MAX)
        },
        r is Ok ==> r->Ok_0@.len() == af.vertex_list().len(),
        r is Ok ==> forall|i: int|
            0 <= i < r->Ok_0.len() ==> af.vertex_list().contains(#[trigger] r->Ok_0[i].name)
                && r->Ok_0[i].weight == weights[r->Ok_0[i].name as int],
        r is Ok ==> forall|x: usize|
            #[trigger] af.vertex_list().contains(x) ==> exists|i: int|
                0 <= i < r->Ok_0.len() && (#[trigger] r->Ok_0[i]).name == x,
{
    let line = af.linear_embed();
    let nodes = match attach_weights(&line, weights) {
        Ok(nodes) => nodes,
        Err(e) => {
            proof {
                let i = choose|i: int| 0 <= i < line.len() && !(line[i] < weights.len());
                assert(line@.contains(line[i]));
            }
            return Err(e);
        },
    };
    proof {
        assert(nodes@ =~= weighted(embedding(af), weights@));
        assert forall|x: usize| #[trigger] af.vertex_list().contains(x) implies x < weights.len() by {
            assert(line@.contains(x));
            let i = line@.index_of(x);
            assert(line[i] == x);
        }
        assert forall|i: int| 0 <= i < nodes.len() implies af.vertex_list().contains(
            #[trigger] nodes[i].name,
        ) && nodes[i].weight == weights[nodes[i].name as int] by {
            assert(line@.contains(line[i]));
        }
        assert forall|x: usize| #[trigger] af.vertex_list().contains(x) implies exists|i: int|
            0 <= i < nodes.len() && (#[trigger] nodes[i]).name == x by {
            assert(line@.contains(x));
            let i = line@.index_of(x);
            assert(nodes[i].name == x);
        }
    }
    if !balance {
        return Ok(nodes);
    }
    if nodes.len() == 0 {
        return Err(ClusterError::EmptyInput);
    }
    if partitions == 0 || partitions > nodes.len() || partitions % 2 == 1 {
        return Err(ClusterError::InvalidPartitionCount);
    }
    if intervals == 0 || !pairing_valid(pairing, intervals) {
        return Err(ClusterError::InvalidLayout);
    }
    if !line_weight_fits(&nodes) {
        return Err(ClusterError::WeightOverflow);
    }
    let q = partition_offsets(nodes.len(), partitions);
    match rank_swap(&nodes, partitions, intervals, &q, pairing, max_passes) {
        Ok(out) => {
            let res = out.line;
            proof {
                vstd::seq_lib::to_multiset_len(res@);
                vstd::seq_lib::to_multiset_len(nodes@);
                assert forall|i: int| 0 <= i < res.len() implies af.vertex_list().contains(
                    #[trigger] res[i].name,
                ) && res[i].weight == weights[res[i].name as int] by {
                    let e = res[i];
                    assert(res@.contains(e));
                    vstd::seq_lib::to_multiset_contains(res@, e);
                    vstd::seq_lib::to_multiset_contains(nodes@, e);
                    let j = nodes@.index_of(e);
                    assert(nodes[j] == e);
                }
                assert forall|x: usize| #[trigger] af.vertex_list().contains(x) implies exists|i: int|
                    0 <= i < res.len() && (#[trigger] res[i]).name == x by {
                    let j = choose|j: int| 0 <= j < nodes.len() && (#[trigger] nodes[j]).name == x;
                    let e = nodes[j];
                    assert(nodes@.contains(e));
                    vstd::seq_lib::to_multiset_contains(res@, e);
                    vstd::seq_lib::to_multiset_contains(nodes@, e);
                    let i = res@.index_of(e);
                    assert(res[i].name == x);
                }
            }
            let r: Result<Vec<Node>, ClusterError> = Ok(res);
            proof {
                assert forall|x: usize| #[trigger] af.vertex_list().contains(x) implies exists|i: int|
                    0 <= i < r->Ok_0.len() && (#[trigger] r->Ok_0[i]).name == x by {
                    let i = choose|i: int| 0 <= i < res.len() && (#[trigger] res[i]).name == x;
                    assert(r->Ok_0[i] == res[i]);
                }
            }
            r
        },
        Err(e) => {
            proof {
                assert(false);
            }
            Err(e)
        },
    }
}

} // verus!
