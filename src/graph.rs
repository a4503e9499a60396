use vstd::prelude::*;

verus! {

/// A weighted directed edge between two vertex identifiers.
#[derive(Debug, Clone, Copy, PartialEq, Eq, Structural)]
pub struct Edge {
    pub start: usize,
    pub end: usize,
    pub weight: usize,
}

/// A vertex of the line, with the weight it brings to a partition.
#[derive(Debug, Clone, Copy, PartialEq, Eq, Structural)]
pub struct Node {
    pub name: usize,
    pub weight: usize,
}

impl Node {
    pub fn new(name: usize, weight: usize) -> (n: Node)
        ensures
            n.name == name,
            n.weight == weight,
    {
        Node { name, weight }
    }
}

/// Whether every endpoint of `edges` lies below `n`.
pub open spec fn endpoints_below(edges: Seq<Edge>, n: int) -> bool {
    forall|i: int| 0 <= i < edges.len() ==> edges[i].start < n && edges[i].end < n
}

/// Whether `x` is an endpoint of some edge.
pub open spec fn is_endpoint(edges: Seq<Edge>, x: usize) -> bool {
    exists|i: int| 0 <= i < edges.len() && (edges[i].start == x || edges[i].end == x)
}

/// The out-edges of `v`, in the order in which `edges` lists them.
pub open spec fn out_edges(edges: Seq<Edge>, v: usize) -> Seq<Edge>
    decreases edges.len(),
{
    if edges.len() == 0 {
        Seq::empty()
    } else {
        let rest = out_edges(edges.drop_last(), v);
        if edges.last().start == v {
            rest.push(edges.last())
        } else {
            rest
        }
    }
}

/// Whether weight `a` is a strictly closer affinity than weight `b`: lower
/// weights are closer, or higher ones when `maximize` is set.
pub open spec fn closer(a: usize, b: usize, maximize: bool) -> bool {
    if maximize {
        a > b
    } else {
        a < b
    }
}

/// Whether edge `i` is the closest out-edge of its start vertex: no out-edge
/// of that vertex is strictly closer, and every earlier one is strictly
/// farther.
pub open spec fn is_closest_edge(edges: Seq<Edge>, i: int, maximize: bool) -> bool {
    &&& 0 <= i < edges.len()
    &&& forall|j: int|
        0 <= j < edges.len() && edges[j].start == edges[i].start ==> !closer(
            edges[j].weight,
            edges[i].weight,
            maximize,
        )
    &&& forall|j: int|
        0 <= j < i && edges[j].start == edges[i].start ==> closer(
            edges[i].weight,
            edges[j].weight,
            maximize,
        )
}

/// One more than the largest endpoint (zero for no edges).
pub open spec fn vertex_limit(edges: Seq<Edge>) -> int
    decreases edges.len(),
{
    if edges.len() == 0 {
        0
    } else {
        let rest = vertex_limit(edges.drop_last());
        let e = edges.last();
        let a = if e.start + 1 > rest {
            e.start + 1
        } else {
            rest
        };
        if e.end + 1 > a {
            e.end + 1
        } else {
            a
        }
    }
}

/// One more than the largest endpoint (zero for no edges).
pub fn vertex_bound(edges: &Vec<Edge>) -> (n: usize)
    requires
        forall|i: int| 0 <= i < edges.len() ==> edges[i].start < usize::MAX && edges[i].end < usize::MAX,
    ensures
        n == vertex_limit(edges@),
        endpoints_below(edges@, n as int),
        n == 0 || is_endpoint(edges@, (n - 1) as usize),
{
    let mut n: usize = 0;
    let mut i: usize = 0;
    while i < edges.len()
        invariant
            i <= edges.len(),
            forall|j: int| 0 <= j < edges.len() ==> edges[j].start < usize::MAX && edges[j].end < usize::MAX,
            endpoints_below(edges@.subrange(0, i as int), n as int),
            n == 0 || is_endpoint(edges@, (n - 1) as usize),
            n == vertex_limit(edges@.subrange(0, i as int)),
        decreases edges.len() - i,
    {
        let e = edges[i];
        if e.start >= n {
            n = e.start + 1;
        }
        if e.end >= n {
            n = e.end + 1;
        }
        proof {
            assert(edges@.subrange(0, i + 1).drop_last() == edges@.subrange(0, i as int));
            assert(edges@.subrange(0, i + 1).last() == e);
            assert(endpoints_below(edges@.subrange(0, i + 1), n as int)) by {
                assert forall|j: int| 0 <= j < i + 1 implies #[trigger] edges@.subrange(0, i + 1)[j].start < n
                    && edges@.subrange(0, i + 1)[j].end < n by {
                    if j < i {
                        assert(edges@.subrange(0, i + 1)[j] == edges@.subrange(0, i as int)[j]);
                    }
                }
            }
        }
        i += 1;
    }
    assert(edges@.subrange(0, edges.len() as int) == edges@);
    n
}

/// The vertices that some edge touches, in ascending order, each once.
pub fn vertices_of(edges: &Vec<Edge>, n: usize) -> (v: Vec<usize>)
    requires
        endpoints_below(edges@, n as int),
    ensures
        forall|i: int, j: int| 0 <= i < j < v.len() ==> v[i] < v[j],
        forall|x: usize| #[trigger] v@.contains(x) <==> is_endpoint(edges@, x),
        forall|i: int| 0 <= i < v.len() ==> v[i] < n,
{
    let mut seen: Vec<bool> = Vec::new();
    let mut x: usize = 0;
    while x < n
        invariant
            x <= n,
            seen@.len() == x,
            forall|y: int| 0 <= y < x ==> !seen@[y],
        decreases n - x,
    {
        seen.push(false);
        x += 1;
    }
    let mut i: usize = 0;
    while i < edges.len()
        invariant
            i <= edges.len(),
            endpoints_below(edges@, n as int),
            seen@.len() == n,
            forall|y: usize|
                y < n ==> (#[trigger] seen@[y as int] <==> exists|j: int|
                    0 <= j < i && (edges@[j].start == y || edges@[j].end == y)),
        decreases edges.len() - i,
    {
        let e = edges[i];
        seen.set(e.start, true);
        seen.set(e.end, true);
        proof {
            assert forall|y: usize| y < n implies (#[trigger] seen@[y as int] <==> exists|j: int|
                0 <= j < i + 1 && (edges@[j].start == y || edges@[j].end == y)) by {
                if y == e.start || y == e.end {
                    assert(edges@[i as int] == e);
                }
            }
        }
        i += 1;
    }
    let mut v: Vec<usize> = Vec::new();
    let mut y: usize = 0;
    while y < n
        invariant
            y <= n,
            seen@.len() == n,
            forall|z: usize|
                z < n ==> (#[trigger] seen@[z as int] <==> is_endpoint(edges@, z)),
            forall|a: int, b: int| 0 <= a < b < v.len() ==> v[a] < v[b],
            forall|a: int| 0 <= a < v.len() ==> v[a] < y,
            forall|z: usize| #[trigger] v@.contains(z) <==> (z < y && seen@[z as int]),
        decreases n - y,
    {
        let ghost prev = v@;
        assert(forall|z: usize| #[trigger] prev.contains(z) <==> (z < y && seen@[z as int]));
        if seen[y] {
            v.push(y);
            proof {
                assert forall|z: usize| #[trigger] v@.contains(z) <==> (z < y + 1 && seen@[z as int]) by {
                    if z == y {
                        assert(seen@[y as int]);
                        assert(v@[prev.len() as int] == y);
                    } else if v@.contains(z) {
                        let a = v@.index_of(z);
                        assert(a < prev.len());
                        assert(prev[a] == z);
                        assert(prev.contains(z));
                    } else if z < y && seen@[z as int] {
                        assert(prev.contains(z));
                        let a = prev.index_of(z);
                        assert(v@[a] == z);
                    }
                }
            }
        }
        y += 1;
    }
    proof {
        assert forall|x: usize| #[trigger] v@.contains(x) <==> is_endpoint(edges@, x) by {
            if is_endpoint(edges@, x) {
                let j = choose|j: int| 0 <= j < edges.len() && (edges@[j].start == x || edges@[j].end == x);
                assert(x < n);
            }
        }
    }
    v
}

/// Groups the edges by start vertex: entry `v` lists the out-edges of `v`
/// in their original order. The result covers every vertex below `n`.
pub fn edges_of_every_vertexs(edges: &Vec<Edge>, n: usize) -> (groups: Vec<Vec<Edge>>)
    requires
        endpoints_below(edges@, n as int),
    ensures
        groups.len() == n,
        forall|v: usize| v < n ==> #[trigger] groups[v as int]@ == out_edges(edges@, v),
{
    let mut groups: Vec<Vec<Edge>> = Vec::new();
    let mut x: usize = 0;
    while x < n
        invariant
            x <= n,
            groups@.len() == x,
            forall|y: int| 0 <= y < x ==> groups@[y]@.len() == 0,
        decreases n - x,
    {
        groups.push(Vec::new());
        x += 1;
    }
    let mut i: usize = 0;
    while i < edges.len()
        invariant
            i <= edges.len(),
            endpoints_below(edges@, n as int),
            groups@.len() == n,
            forall|v: usize|
                v < n ==> #[trigger] groups@[v as int]@ == out_edges(edges@.subrange(0, i as int), v),
        decreases edges.len() - i,
    {
        let e = edges[i];
        let ghost before = groups@;
        let mut list: Vec<Edge> = Vec::new();
        groups.set_and_swap(e.start, &mut list);
        list.push(e);
        groups.set_and_swap(e.start, &mut list);
        proof {
            let pre = edges@.subrange(0, i + 1);
            assert(pre.drop_last() == edges@.subrange(0, i as int));
            assert(pre.last() == e);
            assert forall|v: usize| v < n implies #[trigger] groups@[v as int]@ == out_edges(pre, v) by {
                if v != e.start {
                    assert(groups@[v as int] == before[v as int]);
                }
            }
        }
        i += 1;
    }
    assert(edges@.subrange(0, edges.len() as int) == edges@);
    groups
}

/// For every vertex below `n`, the index of its closest out-edge (the first
/// among equally close ones), or `None` when it has no out-edge.
pub fn closest_edges(edges: &Vec<Edge>, n: usize, maximize: bool) -> (best: Vec<Option<usize>>)
    requires
        endpoints_below(edges@, n as int),
    ensures
        best.len() == n,
        forall|v: usize|
            v < n ==> match #[trigger] best[v as int] {
                Some(i) => edges[i as int].start == v && is_closest_edge(edges@, i as int, maximize),
                None => forall|j: int| 0 <= j < edges.len() ==> edges[j].start != v,
            },
{
    let mut best: Vec<Option<usize>> = Vec::new();
    let mut x: usize = 0;
    while x < n
        invariant
            x <= n,
            best@.len() == x,
            forall|y: int| 0 <= y < x ==> best@[y] is None,
        decreases n - x,
    {
        best.push(None);
        x += 1;
    }
    let mut i: usize = 0;
    while i < edges.len()
        invariant
            i <= edges.len(),
            endpoints_below(edges@, n as int),
            best@.len() == n,
            forall|v: usize|
                v < n ==> match #[trigger] best@[v as int] {
                    Some(k) => k < i && edges[k as int].start == v && (forall|j: int|
                        0 <= j < i && edges[j].start == v ==> !closer(
                            edges[j].weight,
                            edges[k as int].weight,
                            maximize,
                        )) && (forall|j: int|
                        0 <= j < k && edges[j].start == v ==> closer(
                            edges[k as int].weight,
                            edges[j].weight,
                            maximize,
                        )),
                    None => forall|j: int| 0 <= j < i ==> edges[j].start != v,
                },
        decreases edges.len() - i,
    {
        let e = edges[i];
        let replace = match best[e.start] {
            None => true,
            Some(k) => if maximize {
                e.weight > edges[k].weight
            } else {
                e.weight < edges[k].weight
            },
        };
        let ghost before = best@;
        if replace {
            best.set(e.start, Some(i));
        }
        proof {
            assert forall|v: usize| v < n implies match #[trigger] best@[v as int] {
                Some(k) => k < i + 1 && edges[k as int].start == v && (forall|j: int|
                    0 <= j < i + 1 && edges[j].start == v ==> !closer(
                        edges[j].weight,
                        edges[k as int].weight,
                        maximize,
                    )) && (forall|j: int|
                    0 <= j < k && edges[j].start == v ==> closer(
                        edges[k as int].weight,
                        edges[j].weight,
                        maximize,
                    )),
                None => forall|j: int| 0 <= j < i + 1 ==> edges[j].start != v,
            } by {
                if v != e.start {
                    assert(best@[v as int] == before[v as int]);
                } else if replace {
                    match before[v as int] {
                        Some(k) => {
                            assert forall|j: int| 0 <= j < i && edges[j].start == v implies closer(
                                edges[i as int].weight,
                                edges[j].weight,
                                maximize,
                            ) by {
                                assert(!closer(edges[j].weight, edges[k as int].weight, maximize));
                            }
                        },
                        None => {},
                    }
                }
            }
        }
        i += 1;
    }
    best
}

} // verus!
