use crate::graph::{endpoints_below, vertex_bound, vertex_limit, Edge};
use vstd::prelude::*;

verus! {

/// Whether the graph has an edge from `a` to `b`.
pub open spec fn has_edge(edges: Seq<Edge>, a: usize, b: usize) -> bool {
    exists|i: int| 0 <= i < edges.len() && edges[i].start == a && edges[i].end == b
}

/// The number of vertices below `m` with an edge to both `u` and `v`.
pub open spec fn common_count(edges: Seq<Edge>, u: usize, v: usize, m: int) -> nat
    decreases m,
{
    if m <= 0 {
        0
    } else {
        common_count(edges, u, v, m - 1) + if has_edge(edges, (m - 1) as usize, u) && has_edge(
            edges,
            (m - 1) as usize,
            v,
        ) {
            1nat
        } else {
            0nat
        }
    }
}

proof fn lemma_common_count_le(edges: Seq<Edge>, u: usize, v: usize, m: int)
    ensures
        common_count(edges, u, v, m) <= if m < 0 {
            0
        } else {
            m
        },
    decreases m,
{
    if m > 0 {
        lemma_common_count_le(edges, u, v, m - 1);
    }
}

/// Whether pair `(a, b)` comes strictly before pair `(c, d)`.
pub open spec fn pair_before(a: usize, b: usize, c: usize, d: usize) -> bool {
    a < c || (a == c && b < d)
}

/// The adjacency matrix of the graph over the vertices below `n`.
fn adjacency(edges: &Vec<Edge>, n: usize) -> (adj: Vec<Vec<bool>>)
    requires
        endpoints_below(edges@, n as int),
    ensures
        adj@.len() == n,
        forall|a: int| 0 <= a < n ==> (#[trigger] adj@[a])@.len() == n,
        forall|a: int, b: int|
            0 <= a < n && 0 <= b < n ==> #[trigger] adj@[a]@[b] == has_edge(edges@, a as usize, b as usize),
{
    let mut adj: Vec<Vec<bool>> = Vec::new();
    let mut a: usize = 0;
    while a < n
        invariant
            a <= n,
            adj@.len() == a,
            forall|x: int| 0 <= x < a ==> (#[trigger] adj@[x])@.len() == n,
            forall|x: int, y: int| 0 <= x < a && 0 <= y < n ==> !#[trigger] adj@[x]@[y],
        decreases n - a,
    {
        let mut row: Vec<bool> = Vec::new();
        let mut b: usize = 0;
        while b < n
            invariant
                b <= n,
                row@.len() == b,
                forall|y: int| 0 <= y < b ==> !#[trigger] row@[y],
            decreases n - b,
        {
            row.push(false);
            b += 1;
        }
        adj.push(row);
        a += 1;
    }
    let mut i: usize = 0;
    while i < edges.len()
        invariant
            i <= edges.len(),
            endpoints_below(edges@, n as int),
            adj@.len() == n,
            forall|x: int| 0 <= x < n ==> (#[trigger] adj@[x])@.len() == n,
            forall|x: int, y: int|
                0 <= x < n && 0 <= y < n ==> #[trigger] adj@[x]@[y] == exists|j: int|
                    0 <= j < i && edges@[j].start == x && edges@[j].end == y,
        decreases edges.len() - i,
    {
        let e = edges[i];
        let ghost before = adj@;
        let mut row: Vec<bool> = Vec::new();
        adj.set_and_swap(e.start, &mut row);
        row.set(e.end, true);
        adj.set_and_swap(e.start, &mut row);
        proof {
            assert forall|x: int| 0 <= x < n implies (#[trigger] adj@[x])@.len() == n by {
                if x != e.start {
                    assert(adj@[x] == before[x]);
                }
            }
            assert forall|x: int, y: int| 0 <= x < n && 0 <= y < n implies #[trigger] adj@[x]@[y]
                == exists|j: int| 0 <= j < i + 1 && edges@[j].start == x && edges@[j].end == y by {
                if x != e.start {
                    assert(adj@[x] == before[x]);
                }
                if x == e.start && y == e.end {
                    assert(edges@[i as int] == e);
                }
            }
        }
        i += 1;
    }
    adj
}

/// Rewrites a graph so that the weight of the edge `(u, v)` is the number
/// of vertices with an edge to both `u` and `v`. Every ordered pair of
/// distinct vertices that shares at least one such vertex gets an edge,
/// pairs in ascending order; `(u, v)` and `(v, u)` get the same weight.
///
/// The count runs over every vertex for every pair: cubic in the number of
/// vertices, the dominant cost on dense graphs.
pub fn find_common_neighbors(edges: &Vec<Edge>) -> (r: Vec<Edge>)
    requires
        forall|i: int|
            0 <= i < edges.len() ==> edges[i].start < usize::MAX && edges[i].end < usize::MAX,
    ensures
        forall|i: int|
            0 <= i < r.len() ==> #[trigger] r[i].start != r[i].end && r[i].weight > 0
                && r[i].weight == common_count(edges@, r[i].start, r[i].end, vertex_limit(edges@)),
        forall|u: usize, v: usize|
            u != v && common_count(edges@, u, v, vertex_limit(edges@)) > 0 ==> exists|i: int|
                0 <= i < r.len() && #[trigger] r[i].start == u && r[i].end == v,
        forall|i: int, j: int|
            0 <= i < j < r.len() ==> pair_before(r[i].start, r[i].end, r[j].start, r[j].end),
{
    let n = vertex_bound(edges);
    let adj = adjacency(edges, n);
    let mut out: Vec<Edge> = Vec::new();
    let mut u: usize = 0;
    while u < n
        invariant
            u <= n,
            endpoints_below(edges@, n as int),
            adj@.len() == n,
            forall|a: int| 0 <= a < n ==> (#[trigger] adj@[a])@.len() == n,
            forall|a: int, b: int|
                0 <= a < n && 0 <= b < n ==> #[trigger] adj@[a]@[b] == has_edge(edges@, a as usize, b as usize),
            forall|i: int|
                0 <= i < out.len() ==> #[trigger] out[i].start != out[i].end && out[i].weight > 0
                    && out[i].start < u && out[i].end < n && out[i].weight == common_count(edges@, out[i].start, out[i].end, n as int),
            forall|a: usize, b: usize|
                a < u && b < n && a != b && common_count(edges@, a, b, n as int) > 0 ==> exists|i: int|
                    0 <= i < out.len() && #[trigger] out[i].start == a && out[i].end == b,
            forall|i: int, j: int|
                0 <= i < j < out.len() ==> pair_before(out[i].start, out[i].end, out[j].start, out[j].end),
        decreases n - u,
    {
        let mut v: usize = 0;
        while v < n
            invariant
                u < n,
                v <= n,
                endpoints_below(edges@, n as int),
                adj@.len() == n,
                forall|a: int| 0 <= a < n ==> (#[trigger] adj@[a])@.len() == n,
                forall|a: int, b: int|
                    0 <= a < n && 0 <= b < n ==> #[trigger] adj@[a]@[b] == has_edge(edges@, a as usize, b as usize),
                forall|i: int|
                    0 <= i < out.len() ==> #[trigger] out[i].start != out[i].end && out[i].weight > 0
                        && out[i].start <= u && out[i].end < n && (out[i].start == u ==> out[i].end < v) && out[i].weight == common_count(edges@, out[i].start, out[i].end, n as int),
                forall|a: usize, b: usize|
                    (a < u || (a == u && b < v)) && b < n && a != b && common_count(edges@, a, b, n as int) > 0 ==> exists|i: int|
                        0 <= i < out.len() && #[trigger] out[i].start == a && out[i].end == b,
                forall|i: int, j: int|
                    0 <= i < j < out.len() ==> pair_before(out[i].start, out[i].end, out[j].start, out[j].end),
            decreases n - v,
        {
            if u != v {
                let mut count: usize = 0;
                let mut w: usize = 0;
                while w < n
                    invariant
                        u < n,
                        v < n,
                        w <= n,
                        adj@.len() == n,
                        forall|a: int| 0 <= a < n ==> (#[trigger] adj@[a])@.len() == n,
                        forall|a: int, b: int|
                            0 <= a < n && 0 <= b < n ==> #[trigger] adj@[a]@[b] == has_edge(edges@, a as usize, b as usize),
                        count == common_count(edges@, u, v, w as int),
                    decreases n - w,
                {
                    proof {
                        lemma_common_count_le(edges@, u, v, w as int);
                    }
                    if adj[w][u] && adj[w][v] {
                        count = count + 1;
                    }
                    w += 1;
                }
                if count > 0 {
                    let ghost prev = out@;
                    out.push(Edge { start: u, end: v, weight: count });
                    proof {
                        assert(out[prev.len() as int] == Edge { start: u, end: v, weight: count });
                        assert forall|a: usize, b: usize|
                            (a < u || (a == u && b < v + 1)) && b < n && a != b && common_count(edges@, a, b, n as int) > 0 implies exists|i: int|
                                0 <= i < out.len() && #[trigger] out[i].start == a && out[i].end == b by {
                            if a == u && b == v {
                                assert(out[prev.len() as int].start == a);
                            } else {
                                let i = choose|i: int| 0 <= i < prev.len() && #[trigger] prev[i].start == a && prev[i].end == b;
                                assert(out[i] == prev[i]);
                            }
                        }
                        assert forall|i: int| 0 <= i < out.len() implies #[trigger] out[i].start != out[i].end && out[i].weight > 0
                            && out[i].start <= u && out[i].end < n && (out[i].start == u ==> out[i].end < v + 1) && out[i].weight == common_count(edges@, out[i].start, out[i].end, n as int) by {
                            if i < prev.len() {
                                assert(out[i] == prev[i]);
                            }
                        }
                        assert forall|i: int, j: int| 0 <= i < j < out.len() implies pair_before(out[i].start, out[i].end, out[j].start, out[j].end) by {
                            if j < prev.len() {
                                assert(out[i] == prev[i] && out[j] == prev[j]);
                            } else {
                                assert(out[i] == prev[i]);
                            }
                        }
                    }
                }
            }
            v += 1;
        }
        u += 1;
    }
    proof {
        assert forall|a: usize, b: usize|
            a != b && common_count(edges@, a, b, n as int) > 0 implies exists|i: int|
                0 <= i < out.len() && #[trigger] out[i].start == a && out[i].end == b by {
            if a >= n || b >= n {
                lemma_count_outside(edges@, a, b, n as int, n as int);
            }
        }
    }
    out
}

/// No vertex at or above `n` has an in-edge when every endpoint lies below `n`.
proof fn lemma_count_outside(edges: Seq<Edge>, a: usize, b: usize, m: int, n: int)
    requires
        endpoints_below(edges, n),
        a >= n || b >= n,
    ensures
        common_count(edges, a, b, m) == 0,
    decreases m,
{
    if m > 0 {
        lemma_count_outside(edges, a, b, m - 1, n);
        if has_edge(edges, (m - 1) as usize, a) {
            let i = choose|i: int| 0 <= i < edges.len() && edges[i].start == (m - 1) as usize && edges[i].end == a;
        }
        if has_edge(edges, (m - 1) as usize, b) {
            let i = choose|i: int| 0 <= i < edges.len() && edges[i].start == (m - 1) as usize && edges[i].end == b;
        }
    }
}

} // verus!
