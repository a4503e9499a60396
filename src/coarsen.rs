use crate::error::ClusterError;
use crate::graph::{
    closest_edges, endpoints_below, is_closest_edge, is_endpoint, vertex_bound, vertices_of, Edge,
};
use crate::union_find::ArrayUnion;
use vstd::prelude::*;

verus! {

/// A sequence without repeats whose entries lie below `n` has at most `n` entries.
pub proof fn lemma_unique_below(s: Seq<usize>, n: nat)
    requires
        s.no_duplicates(),
        forall|i: int| 0 <= i < s.len() ==> s[i] < n,
    ensures
        s.len() <= n,
    decreases n,
{
    if n == 0 {
        if s.len() > 0 {
            assert(s[0] < 0);
        }
    } else {
        let top = (n - 1) as usize;
        if s.contains(top) {
            let i = s.index_of(top);
            let t = s.remove(i);
            assert forall|j: int| 0 <= j < t.len() implies t[j] < n - 1 by {
                if j < i {
                    assert(t[j] == s[j]);
                } else {
                    assert(t[j] == s[j + 1]);
                }
            }
            assert(t.no_duplicates()) by {
                assert forall|a: int, b: int| 0 <= a < b < t.len() implies t[a] != t[b] by {
                    let a2 = if a < i {
                        a
                    } else {
                        a + 1
                    };
                    let b2 = if b < i {
                        b
                    } else {
                        b + 1
                    };
                    assert(t[a] == s[a2] && t[b] == s[b2]);
                }
            }
            lemma_unique_below(t, (n - 1) as nat);
        } else {
            assert forall|j: int| 0 <= j < s.len() implies s[j] < n - 1 by {
                assert(s[j] != top);
            }
            lemma_unique_below(s, (n - 1) as nat);
        }
    }
}

/// `2` to the power `r`.
pub open spec fn pow2(r: nat) -> nat
    decreases r,
{
    if r == 0 {
        1
    } else {
        2 * pow2((r - 1) as nat)
    }
}

proof fn lemma_pow2_monotone(a: nat, b: nat)
    requires
        a <= b,
    ensures
        pow2(a) <= pow2(b),
    decreases b,
{
    if a < b {
        lemma_pow2_monotone(a, (b - 1) as nat);
    }
}

/// Whether `size < 2^round`.
fn below_pow2(size: usize, round: usize) -> (b: bool)
    ensures
        b == (size < pow2(round as nat)),
{
    let mut t: u128 = 1;
    let mut i: usize = 0;
    while i < round && t <= size as u128
        invariant
            i <= round,
            t == pow2(i as nat),
        decreases round - i,
    {
        t = t * 2;
        i += 1;
    }
    proof {
        lemma_pow2_monotone(i as nat, round as nat);
    }
    (size as u128) < t
}

/// The edge list once every endpoint is replaced by its root, without the
/// edges that fall inside one cluster.
pub open spec fn contract(edges: Seq<Edge>, uf: ArrayUnion) -> Seq<Edge>
    decreases edges.len(),
{
    if edges.len() == 0 {
        Seq::empty()
    } else {
        let rest = contract(edges.drop_last(), uf);
        let e = edges.last();
        if uf.root_of(e.start) != uf.root_of(e.end) {
            rest.push(Edge { start: uf.root_of(e.start), end: uf.root_of(e.end), weight: e.weight })
        } else {
            rest
        }
    }
}

proof fn lemma_contract_fixed(edges: Seq<Edge>, uf: ArrayUnion)
    requires
        forall|r: usize| #[trigger] uf.is_root(r) ==> uf.root_of(r) == r,
        forall|i: int|
            0 <= i < edges.len() ==> uf.is_root((#[trigger] edges[i]).start) && uf.is_root(edges[i].end)
                && edges[i].start != edges[i].end,
    ensures
        contract(edges, uf) == edges,
    decreases edges.len(),
{
    if edges.len() > 0 {
        let rest = edges.drop_last();
        assert forall|i: int| 0 <= i < rest.len() implies uf.is_root((#[trigger] rest[i]).start)
            && uf.is_root(rest[i].end) && rest[i].start != rest[i].end by {
            assert(rest[i] == edges[i]);
        }
        lemma_contract_fixed(rest, uf);
        let e = edges.last();
        assert(edges[edges.len() - 1] == e);
        assert(edges =~= rest.push(e));
    }
}

/// Contracting by finer clusters and then by coarser ones is contracting
/// by the coarser ones at once.
proof fn lemma_contract_compose(edges: Seq<Edge>, c1: ArrayUnion, c2: ArrayUnion)
    requires
        forall|i: int|
            0 <= i < edges.len() ==> c1.contains((#[trigger] edges[i]).start) && c1.contains(edges[i].end),
        forall|x: usize| #[trigger] c1.contains(x) ==> c2.contains(x),
        forall|x: usize| #[trigger]
            c1.contains(x) ==> c1.contains(c1.root_of(x)) && c1.root_of(c1.root_of(x)) == c1.root_of(x),
        forall|x: usize, y: usize|
            c2.contains(x) && c2.contains(y) && c1.root_of(x) == c1.root_of(y) ==> #[trigger] c2.root_of(x)
                == #[trigger] c2.root_of(y),
    ensures
        contract(contract(edges, c1), c2) == contract(edges, c2),
    decreases edges.len(),
{
    if edges.len() > 0 {
        let rest = edges.drop_last();
        assert forall|i: int| 0 <= i < rest.len() implies c1.contains((#[trigger] rest[i]).start)
            && c1.contains(rest[i].end) by {
            assert(rest[i] == edges[i]);
        }
        lemma_contract_compose(rest, c1, c2);
        let e = edges.last();
        assert(e == edges[edges.len() - 1]);
        let s1 = c1.root_of(e.start);
        let t1 = c1.root_of(e.end);
        assert(c2.root_of(s1) == c2.root_of(e.start));
        assert(c2.root_of(t1) == c2.root_of(e.end));
        if s1 != t1 {
            let e1 = Edge { start: s1, end: t1, weight: e.weight };
            assert(contract(edges, c1) == contract(rest, c1).push(e1));
            assert(contract(edges, c1).drop_last() == contract(rest, c1));
            assert(contract(edges, c1).last() == e1);
        }
    }
}

/// The members of the clusters rooted at `roots`, one cluster after another.
pub open spec fn concat_members(uf: ArrayUnion, roots: Seq<usize>) -> Seq<usize>
    decreases roots.len(),
{
    if roots.len() == 0 {
        Seq::empty()
    } else {
        concat_members(uf, roots.drop_last()) + uf.members(roots.last())
    }
}

/// How a coarsening run ended.
#[derive(Debug, Clone, Copy, PartialEq, Eq, Structural)]
pub struct Coarsening {
    /// Whether the number of clusters reached the target.
    pub converged: bool,
    /// The number of rounds run.
    pub rounds: usize,
}

/// Repeated nearest-neighbour contraction of a weighted graph into clusters.
pub struct Affinity {
    k: usize,
    edges: Vec<Edge>,
    vertices: Vec<usize>,
    uf: ArrayUnion,
    clost_neighbors: Vec<Option<usize>>,
    merged: Vec<bool>,
    round_edges: Ghost<Seq<Edge>>,
}

impl Affinity {
    /// The target number of clusters.
    pub closed spec fn target(&self) -> usize {
        self.k
    }

    /// The current contracted edge list.
    pub closed spec fn edge_list(&self) -> Seq<Edge> {
        self.edges@
    }

    /// The original vertex set, ascending.
    pub closed spec fn vertex_list(&self) -> Seq<usize> {
        self.vertices@
    }

    /// The clusters.
    pub closed spec fn clusters(&self) -> ArrayUnion {
        self.uf
    }

    /// The per-round closest neighbour of each vertex.
    pub closed spec fn closest(&self) -> Seq<Option<usize>> {
        self.clost_neighbors@
    }

    /// The state's invariant: the clusters are well formed and cover exactly
    /// the original vertices, and every edge and closest neighbour names a
    /// registered vertex.
    pub closed spec fn wf(&self) -> bool {
        &&& self.uf.wf()
        &&& self.clost_neighbors@.len() == self.uf.universe()
        &&& self.merged@.len() == self.uf.universe()
        &&& forall|x: usize| #[trigger] self.uf.contains(x) <==> self.vertices@.contains(x)
        &&& forall|i: int| 0 <= i < self.vertices@.len() ==> self.vertices@[i] < self.uf.universe()
        &&& forall|i: int, j: int|
            0 <= i < j < self.vertices@.len() ==> self.vertices@[i] < self.vertices@[j]
        &&& forall|i: int|
            0 <= i < self.edges@.len() ==> self.uf.contains((#[trigger] self.edges@[i]).start)
                && self.uf.contains(self.edges@[i].end)
        &&& forall|v: int|
            0 <= v < self.clost_neighbors@.len() && #[trigger] self.clost_neighbors@[v] is Some
                ==> self.uf.contains(self.clost_neighbors@[v]->Some_0)
    }

    /// The clusters partition the original vertices: a vertex belongs to
    /// the member list of a live cluster exactly when it is an original
    /// vertex whose root is that cluster's, and no member list repeats a
    /// vertex. This holds in every state the coarsening passes through.
    pub proof fn lemma_cluster_partition(&self)
        requires
            self.wf(),
        ensures
            forall|x: usize| #[trigger]
                self.vertex_list().contains(x) <==> self.clusters().contains(x),
            forall|x: usize, r: usize|
                self.clusters().is_root(r) && #[trigger] self.clusters().members(r).contains(x)
                    ==> self.vertex_list().contains(x) && self.clusters().root_of(x) == r,
            forall|x: usize| #[trigger]
                self.vertex_list().contains(x) ==> self.clusters().is_root(self.clusters().root_of(x))
                    && self.clusters().members(self.clusters().root_of(x)).contains(x),
            forall|r: usize| #[trigger]
                self.clusters().is_root(r) ==> self.clusters().members(r).no_duplicates(),
    {
        self.uf.lemma_partition();
        assert forall|x: usize, r: usize|
            self.clusters().is_root(r) && #[trigger] self.clusters().members(r).contains(x)
                implies self.vertex_list().contains(x) && self.clusters().root_of(x) == r by {
            assert(r < self.uf.universe());
        }
        assert forall|x: usize| #[trigger]
            self.vertex_list().contains(x) implies self.clusters().is_root(self.clusters().root_of(x))
                && self.clusters().members(self.clusters().root_of(x)).contains(x) by {
            assert(self.uf.contains(x));
        }
    }

    /// Sets up a coarsening of the graph `edges` down to `k` clusters: every
    /// endpoint becomes a cluster of its own.
    pub fn new_and_init(edges: &Vec<Edge>, k: usize) -> (af: Affinity)
        requires
            forall|i: int|
                0 <= i < edges.len() ==> edges[i].start < usize::MAX && edges[i].end < usize::MAX,
        ensures
            af.wf(),
            af.target() == k,
            af.edge_list() == edges@,
            forall|x: usize| #[trigger] af.vertex_list().contains(x) <==> is_endpoint(edges@, x),
            forall|x: usize| #[trigger]
                af.clusters().contains(x) ==> af.clusters().root_of(x) == x
                    && af.clusters().members(x) == seq![x],
            af.edges_between_roots(),
            forall|i: int, j: int|
                0 <= i < j < af.vertex_list().len() ==> af.vertex_list()[i] < af.vertex_list()[j],
            af.closest().len() == af.clusters().universe(),
            forall|v: int| 0 <= v < af.closest().len() ==> #[trigger] af.closest()[v] is None,
            af.merged_marks().len() == af.clusters().universe(),
            forall|v: int| 0 <= v < af.merged_marks().len() ==> !#[trigger] af.merged_marks()[v],
    {
        let n = vertex_bound(edges);
        let vertices = vertices_of(edges, n);
        let mut listed: Vec<usize> = Vec::new();
        let mut i: usize = 0;
        while i < vertices.len()
            invariant
                i <= vertices.len(),
                forall|j: int| 0 <= j < vertices.len() ==> vertices[j] < n,
                listed@ == vertices@.subrange(0, i as int),
            decreases vertices.len() - i,
        {
            listed.push(vertices[i]);
            i += 1;
        }
        assert(listed@ == vertices@.subrange(0, vertices.len() as int));
        assert(listed@ == vertices@);
        let uf = ArrayUnion::new_and_init(listed);
        let m = uf.universe_size();
        let mut clost_neighbors: Vec<Option<usize>> = Vec::new();
        let mut merged: Vec<bool> = Vec::new();
        let mut x: usize = 0;
        while x < m
            invariant
                x <= m,
                clost_neighbors@.len() == x,
                merged@.len() == x,
                forall|y: int| 0 <= y < x ==> clost_neighbors@[y] is None,
                forall|y: int| 0 <= y < x ==> !merged@[y],
            decreases m - x,
        {
            clost_neighbors.push(None);
            merged.push(false);
            x += 1;
        }
        let af = Affinity {
            k,
            edges: edges.clone(),
            vertices,
            uf,
            clost_neighbors,
            merged,
            round_edges: Ghost(Seq::empty()),
        };
        proof {
            assert(af.edges@ =~= edges@);
            assert forall|i: int| 0 <= i < af.edges@.len() implies af.uf.contains(
                #[trigger] af.edges@[i].start,
            ) && af.uf.contains(af.edges@[i].end) by {
                assert(is_endpoint(edges@, edges@[i].start));
                assert(is_endpoint(edges@, edges@[i].end));
            }
            af.uf.lemma_partition();
            assert forall|i: int| 0 <= i < af.edge_list().len() implies af.clusters().is_root(
                (#[trigger] af.edge_list()[i]).start,
            ) && af.clusters().is_root(af.edge_list()[i].end) by {
                assert(af.uf.contains(af.edges@[i].start));
                assert(af.uf.contains(af.edges@[i].end));
            }
            assert forall|i: int| 0 <= i < af.vertices@.len() implies af.vertices@[i]
                < af.uf.universe() by {
                assert(af.vertices@.contains(af.vertices@[i]));
                assert(af.uf.contains(af.vertices@[i]));
                assert(listed@[i] == af.vertices@[i]);
            }
        }
        af
    }

    /// The target number of clusters.
    pub fn cluster_target(&self) -> (k: usize)
        ensures
            k == self.target(),
    {
        self.k
    }

    /// The current contracted edge list.
    pub fn edges(&self) -> (e: &Vec<Edge>)
        ensures
            e@ == self.edge_list(),
    {
        &self.edges
    }

    /// The original vertices, ascending.
    pub fn vertices(&self) -> (v: &Vec<usize>)
        ensures
            v@ == self.vertex_list(),
    {
        &self.vertices
    }

    /// The clusters.
    pub fn union_find(&self) -> (uf: &ArrayUnion)
        ensures
            *uf == self.clusters(),
    {
        &self.uf
    }

    /// Whether every vertex marked merged this round shares a cluster with
    /// its closest neighbour.
    pub closed spec fn merged_joined(&self) -> bool {
        forall|x: usize|
            x < self.merged@.len() && #[trigger] self.merged@[x as int] ==> self.uf.contains(x)
                && self.clost_neighbors@[x as int] is Some && self.uf.root_of(x) == self.uf.root_of(
                self.clost_neighbors@[x as int]->Some_0,
            )
    }

    /// Whether `v` is settled this round: marked merged, or without a
    /// closest neighbour.
    pub closed spec fn settled(&self, v: usize) -> bool {
        &&& v < self.merged@.len()
        &&& v < self.clost_neighbors@.len()
        &&& self.merged@[v as int] || self.clost_neighbors@[v as int] is None
    }

    /// Which vertices are marked merged this round.
    pub closed spec fn merged_marks(&self) -> Seq<bool> {
        self.merged@
    }

    /// Whether every cluster of `before` lies within one cluster of `self`.
    pub open spec fn coarser_than(&self, before: &Affinity) -> bool {
        forall|x: usize, y: usize|
            self.clusters().contains(x) && self.clusters().contains(y) && before.clusters().root_of(x)
                == before.clusters().root_of(y) ==> #[trigger] self.clusters().root_of(x)
                == #[trigger] self.clusters().root_of(y)
    }

    /// Resolves the merge of `v` with its closest neighbour. A vertex that
    /// is marked merged, or has no closest neighbour, is left alone. A mutual
    /// pair is united at once and both are marked merged. Otherwise the
    /// chain of closest neighbours is followed until it meets a merged
    /// vertex, a vertex without a closest neighbour, a mutual pair or a
    /// vertex already on the chain; then, from the far end back to `v`, each
    /// vertex of the chain is united with its closest neighbour's cluster and
    /// marked merged.
    fn merge_with_cloest_neighbors(&mut self, v: usize)
        requires
            old(self).wf(),
            old(self).merged_joined(),
            old(self).clusters().contains(v),
        ensures
            final(self).wf(),
            final(self).merged_joined(),
            final(self).settled(v),
            forall|x: usize| #[trigger] old(self).settled(x) ==> final(self).settled(x),
            forall|x: int|
                0 <= x < old(self).merged_marks().len() && #[trigger] old(self).merged_marks()[x]
                    ==> final(self).merged_marks()[x],
            final(self).merged_marks().len() == old(self).merged_marks().len(),
            old(self).merged_marks()[v as int] || old(self).closest()[v as int] is None
                ==> *final(self) == *old(self),
            !old(self).merged_marks()[v as int] && old(self).closest()[v as int] is Some
                && old(self).closest()[old(self).closest()[v as int]->Some_0 as int] == Some(v)
                ==> final(self).merged_marks()[v as int] && final(self).merged_marks()[old(
                self,
            ).closest()[v as int]->Some_0 as int],
            final(self).coarser_than(old(self)),
            final(self).target() == old(self).target(),
            final(self).edge_list() == old(self).edge_list(),
            final(self).vertex_list() == old(self).vertex_list(),
            final(self).closest() == old(self).closest(),
            final(self).clusters().universe() == old(self).clusters().universe(),
    {
        let ghost k0 = self.k;
        let ghost e0 = self.edges@;
        let ghost v0 = self.vertices@;
        let ghost c0 = self.clost_neighbors@;
        let ghost n0 = self.uf.universe();
        let ghost start = *self;
        let n = self.uf.universe_size();
        let mut on_stack: Vec<bool> = Vec::new();
        let mut x: usize = 0;
        while x < n
            invariant
                x <= n,
                on_stack@.len() == x,
                forall|y: int| 0 <= y < x ==> !on_stack@[y],
            decreases n - x,
        {
            on_stack.push(false);
            x += 1;
        }
        proof {
            self.uf.lemma_partition();
        }
        let mut stack: Vec<usize> = Vec::new();
        let mut cur = v;
        loop
            invariant_except_break
                stack.len() == 0 ==> *self == start,
            invariant
                self.wf(),
                self.merged_joined(),
                forall|y: usize| #[trigger] start.settled(y) ==> self.settled(y),
                self.coarser_than(&start),
                self.k == k0,
                self.edges@ == e0,
                self.vertices@ == v0,
                self.clost_neighbors@ == c0,
                self.uf.universe() == n0,
                n == n0,
                self.uf.contains(cur),
                on_stack@.len() == n,
                stack@.no_duplicates(),
                stack.len() == 0 ==> cur == v,
                self.merged@.len() == start.merged@.len(),
                forall|x: int| 0 <= x < start.merged@.len() && #[trigger] start.merged@[x] ==> self.merged@[x],
                (start.merged@[v as int] || c0[v as int] is None) ==> stack.len() == 0,
                (!start.merged@[v as int] && c0[v as int] is Some && c0[c0[v as int]->Some_0 as int]
                    == Some(v)) ==> stack.len() == 0,
                stack.len() > 0 ==> stack@[0] == v,
                forall|j: int|
                    0 <= j < stack.len() ==> #[trigger] stack@[j] < n && self.uf.contains(stack@[j])
                        && c0[stack@[j] as int] is Some,
                forall|y: usize| y < n ==> (#[trigger] on_stack@[y as int] <==> stack@.contains(y)),
            ensures
                self.merged@.len() == start.merged@.len(),
                forall|x: int| 0 <= x < start.merged@.len() && #[trigger] start.merged@[x] ==> self.merged@[x],
                (start.merged@[v as int] || c0[v as int] is None) ==> stack.len() == 0 && *self == start,
                (!start.merged@[v as int] && c0[v as int] is Some && c0[c0[v as int]->Some_0 as int]
                    == Some(v)) ==> stack.len() == 0 && self.merged@[v as int] && self.merged@[c0[v as int]->Some_0 as int],
                self.wf(),
                self.merged_joined(),
                forall|y: usize| #[trigger] start.settled(y) ==> self.settled(y),
                self.coarser_than(&start),
                self.k == k0,
                self.edges@ == e0,
                self.vertices@ == v0,
                self.clost_neighbors@ == c0,
                self.uf.universe() == n0,
                stack.len() == 0 ==> self.settled(v),
                stack.len() > 0 ==> stack@[0] == v,
                forall|j: int|
                    0 <= j < stack.len() ==> #[trigger] stack@[j] < n0 && self.uf.contains(stack@[j])
                        && c0[stack@[j] as int] is Some,
            decreases n - stack.len(),
        {
            proof {
                if stack.len() == 0 {
                    assert(*self == start);
                    assert(cur == v);
                    assert(self.merged@ == start.merged@);
                }
            }
            if self.merged[cur] {
                proof {
                    if stack.len() == 0 {
                        assert(start.merged@[v as int]);
                    } else {
                        assert(!start.merged@[v as int]);
                        assert(c0[v as int] is Some);
                    }
                }
                break ;
            }
            let u = match self.clost_neighbors[cur] {
                None => {
                    break ;
                },
                Some(u) => u,
            };
            assert(self.uf.contains(u));
            let next = self.clost_neighbors[u];
            let mutual = match next {
                Some(w) => w == cur,
                None => false,
            };
            if mutual {
                let ghost before = *self;
                let fc = self.uf.root(cur);
                let fu = self.uf.root(u);
                self.uf.union(fc, fu);
                self.merged.set(cur, true);
                self.merged.set(u, true);
                proof {
                    before.uf.lemma_partition();
                    assert(self.uf.root_of(cur) == self.uf.root_of(u)) by {
                        assert(self.uf.root_of(cur) == self.uf.root_of(fc));
                        assert(self.uf.root_of(u) == self.uf.root_of(fu));
                    }
                    assert forall|y: usize|
                        y < self.merged@.len() && #[trigger] self.merged@[y as int] implies self.uf.contains(y)
                        && self.clost_neighbors@[y as int] is Some && self.uf.root_of(y) == self.uf.root_of(
                        self.clost_neighbors@[y as int]->Some_0,
                    ) by {
                        if y != cur && y != u {
                            assert(before.merged@[y as int]);
                            let z = c0[y as int]->Some_0;
                            assert(before.uf.contains(z));
                            assert(self.uf.root_of(y) == self.uf.root_of(z));
                        }
                    }
                    assert forall|y: usize| #[trigger] start.settled(y) implies self.settled(y) by {
                        assert(before.settled(y));
                        if before.merged@[y as int] {
                            assert(self.merged@[y as int]);
                        }
                    }
                    assert(self.coarser_than(&start)) by {
                        assert forall|x1: usize, y1: usize|
                            self.clusters().contains(x1) && self.clusters().contains(y1)
                                && start.clusters().root_of(x1) == start.clusters().root_of(y1) implies
                            #[trigger] self.clusters().root_of(x1) == #[trigger] self.clusters().root_of(y1) by {
                            assert(before.clusters().contains(x1) && before.clusters().contains(y1));
                            assert(before.clusters().root_of(x1) == before.clusters().root_of(y1));
                        }
                    }
                }
                break ;
            }
            if on_stack[cur] {
                break ;
            }
            proof {
                let ext = stack@.push(cur);
                assert(ext.no_duplicates()) by {
                    assert forall|a: int, b: int| 0 <= a < b < ext.len() implies ext[a] != ext[b] by {
                        if b == stack@.len() {
                            assert(stack@[a] == ext[a]);
                            assert(stack@.contains(ext[a]));
                        }
                    }
                }
                assert forall|j: int| 0 <= j < ext.len() implies ext[j] < n by {
                    if j < stack@.len() {
                        assert(ext[j] == stack@[j]);
                    }
                }
                lemma_unique_below(ext, n as nat);
            }
            let ghost prev = stack@;
            on_stack.set(cur, true);
            stack.push(cur);
            proof {
                assert forall|j: int|
                    0 <= j < stack.len() implies #[trigger] stack@[j] < n && self.uf.contains(
                    stack@[j],
                ) && c0[stack@[j] as int] is Some by {
                    if j < prev.len() {
                        assert(stack@[j] == prev[j]);
                    }
                }
                assert forall|y: usize| y < n implies (#[trigger] on_stack@[y as int]
                    <==> stack@.contains(y)) by {
                    if y == cur {
                        assert(stack@[prev.len() as int] == cur);
                    } else if stack@.contains(y) {
                        let a = stack@.index_of(y);
                        assert(prev[a] == y);
                    } else if prev.contains(y) {
                        let a = prev.index_of(y);
                        assert(stack@[a] == y);
                    }
                }
                assert(stack@[0] == v);
            }
            let chain_ends = match next {
                Some(_) => false,
                None => true,
            };
            if chain_ends {
                break ;
            }
            cur = u;
        }
        let mut i = stack.len();
        while i > 0
            invariant
                i <= stack.len(),
                self.wf(),
                self.merged_joined(),
                forall|y: usize| #[trigger] start.settled(y) ==> self.settled(y),
                self.coarser_than(&start),
                self.k == k0,
                self.edges@ == e0,
                self.vertices@ == v0,
                self.clost_neighbors@ == c0,
                self.uf.universe() == n0,
                stack.len() > 0 ==> stack@[0] == v,
                stack.len() == 0 ==> self.settled(v),
                stack.len() > 0 && i == 0 ==> self.merged@[v as int],
                self.merged@.len() == start.merged@.len(),
                forall|x: int| 0 <= x < start.merged@.len() && #[trigger] start.merged@[x] ==> self.merged@[x],
                (start.merged@[v as int] || c0[v as int] is None) ==> stack.len() == 0 && *self == start,
                (!start.merged@[v as int] && c0[v as int] is Some && c0[c0[v as int]->Some_0 as int]
                    == Some(v)) ==> stack.len() == 0 && self.merged@[v as int] && self.merged@[c0[v as int]->Some_0 as int],
                forall|j: int|
                    0 <= j < stack.len() ==> #[trigger] stack@[j] < n0 && self.uf.contains(stack@[j])
                        && c0[stack@[j] as int] is Some,
            decreases i,
        {
            i -= 1;
            let y = stack[i];
            assert(c0[stack@[i as int] as int] is Some);
            if let Some(u) = self.clost_neighbors[y] {
                let ghost before = *self;
                let fy = self.uf.root(y);
                let fu = self.uf.root(u);
                self.uf.union(fy, fu);
                self.merged.set(y, true);
                proof {
                    before.uf.lemma_partition();
                    assert(self.uf.root_of(y) == self.uf.root_of(u)) by {
                        assert(self.uf.root_of(y) == self.uf.root_of(fy));
                        assert(self.uf.root_of(u) == self.uf.root_of(fu));
                    }
                    assert forall|z: usize|
                        z < self.merged@.len() && #[trigger] self.merged@[z as int] implies self.uf.contains(z)
                        && self.clost_neighbors@[z as int] is Some && self.uf.root_of(z) == self.uf.root_of(
                        self.clost_neighbors@[z as int]->Some_0,
                    ) by {
                        if z != y {
                            assert(before.merged@[z as int]);
                            let w = c0[z as int]->Some_0;
                            assert(before.uf.contains(w));
                            assert(self.uf.root_of(z) == self.uf.root_of(w));
                        }
                    }
                    assert forall|z: usize| #[trigger] start.settled(z) implies self.settled(z) by {
                        assert(before.settled(z));
                        if before.merged@[z as int] {
                            assert(self.merged@[z as int]);
                        }
                    }
                    assert(self.coarser_than(&start)) by {
                        assert forall|x1: usize, y1: usize|
                            self.clusters().contains(x1) && self.clusters().contains(y1)
                                && start.clusters().root_of(x1) == start.clusters().root_of(y1) implies
                            #[trigger] self.clusters().root_of(x1) == #[trigger] self.clusters().root_of(y1) by {
                            assert(before.clusters().contains(x1) && before.clusters().contains(y1));
                            assert(before.clusters().root_of(x1) == before.clusters().root_of(y1));
                        }
                    }
                    if i == 0 {
                        assert(y == v);
                    }
                }
            }
        }
    }

    /// Whether no edge starts and ends at the same vertex.
    pub open spec fn without_loops(&self) -> bool {
        forall|i: int|
            0 <= i < self.edge_list().len() ==> (#[trigger] self.edge_list()[i]).start != self.edge_list()[i].end
    }

    /// The clusters of a well-formed state are a well-formed union-find.
    pub proof fn lemma_clusters_wf(&self)
        requires
            self.wf(),
        ensures
            self.clusters().wf(),
    {
    }

    /// Contracting an edge list that already joins distinct live roots
    /// changes nothing: a second `edges_update` right after one is a no-op.
    pub proof fn lemma_update_idempotent(&self)
        requires
            self.wf(),
            self.edges_between_roots(),
            self.without_loops(),
        ensures
            contract(self.edge_list(), self.clusters()) == self.edge_list(),
    {
        self.uf.lemma_partition();
        assert forall|i: int|
            0 <= i < self.edges@.len() implies self.uf.is_root((#[trigger] self.edges@[i]).start)
                && self.uf.is_root(self.edges@[i].end) && self.edges@[i].start != self.edges@[i].end by {
            assert(self.edge_list()[i] == self.edges@[i]);
        }
        lemma_contract_fixed(self.edges@, self.uf);
    }

    /// Replaces every edge's endpoints by their roots and drops the edges
    /// that now fall inside one cluster.
    pub fn edges_update(&mut self)
        requires
            old(self).wf(),
        ensures
            final(self).wf(),
            final(self).edge_list() == contract(old(self).edge_list(), old(self).clusters()),
            final(self).clusters() == old(self).clusters(),
            final(self).vertex_list() == old(self).vertex_list(),
            final(self).closest() == old(self).closest(),
            final(self).target() == old(self).target(),
            forall|i: int|
                0 <= i < final(self).edge_list().len() ==> final(self).clusters().is_root(
                    #[trigger] final(self).edge_list()[i].start,
                ) && final(self).clusters().is_root(final(self).edge_list()[i].end),
            final(self).without_loops(),
    {
        let mut new_edges: Vec<Edge> = Vec::new();
        let mut i: usize = 0;
        while i < self.edges.len()
            invariant
                self.wf(),
                i <= self.edges.len(),
                new_edges@ == contract(self.edges@.subrange(0, i as int), self.uf),
                forall|j: int| 0 <= j < new_edges@.len() ==> (#[trigger] new_edges@[j]).start != new_edges@[j].end,
                forall|j: int|
                    0 <= j < new_edges@.len() ==> self.uf.is_root((#[trigger] new_edges@[j]).start)
                        && self.uf.is_root(new_edges@[j].end),
            decreases self.edges.len() - i,
        {
            let e = self.edges[i];
            assert(self.uf.contains(self.edges@[i as int].start));
            let rs = self.uf.root(e.start);
            let re = self.uf.root(e.end);
            let ghost prev = new_edges@;
            if rs != re {
                new_edges.push(Edge { start: rs, end: re, weight: e.weight });
                proof {
                    assert(new_edges@[prev.len() as int] == Edge { start: rs, end: re, weight: e.weight });
                    assert forall|j: int| 0 <= j < new_edges@.len() implies self.uf.is_root(
                        (#[trigger] new_edges@[j]).start,
                    ) && self.uf.is_root(new_edges@[j].end) by {
                        if j < prev.len() {
                            assert(new_edges@[j] == prev[j]);
                            assert(self.uf.is_root(prev[j].start));
                        }
                    }
                }
            }
            proof {
                let pre = self.edges@.subrange(0, i + 1);
                assert(pre.drop_last() == self.edges@.subrange(0, i as int));
                assert(pre.last() == e);
            }
            i += 1;
        }
        assert(self.edges@.subrange(0, self.edges.len() as int) == self.edges@);
        self.edges = new_edges;
        proof {
            self.uf.lemma_partition();
            assert forall|i: int| 0 <= i < self.edges@.len() implies self.uf.contains(
                (#[trigger] self.edges@[i]).start,
            ) && self.uf.contains(self.edges@[i].end) by {
                assert(self.uf.is_root(self.edges@[i].start));
                assert(self.uf.is_root(self.edges@[i].end));
            }
        }
    }

    /// Computes every vertex's closest neighbour over the current edges: the
    /// end of its lowest-weight out-edge, or of its highest-weight one when
    /// `maximize` is set (the earliest among equals).
    #[verifier::spinoff_prover]
    fn find_closest_neighbors(&mut self, maximize: bool)
        requires
            old(self).wf(),
        ensures
            final(self).wf(),
            final(self).edge_list() == old(self).edge_list(),
            final(self).clusters() == old(self).clusters(),
            final(self).vertex_list() == old(self).vertex_list(),
            final(self).target() == old(self).target(),
            final(self).merged_joined(),
            forall|v: int|
                0 <= v < final(self).closest().len() ==> match #[trigger] final(self).closest()[v] {
                    Some(u) => exists|i: int|
                        is_closest_edge(final(self).edge_list(), i, maximize)
                            && final(self).edge_list()[i].start == v
                            && final(self).edge_list()[i].end == u,
                    None => forall|j: int|
                        0 <= j < final(self).edge_list().len() ==> final(self).edge_list()[j].start
                            != v,
                },
    {
        let n = self.uf.universe_size();
        proof {
            assert forall|i: int| 0 <= i < self.edges@.len() implies self.edges@[i].start < n
                && self.edges@[i].end < n by {
                assert(self.uf.contains(self.edges@[i].start));
                assert(self.uf.contains(self.edges@[i].end));
                self.uf.lemma_partition();
            }
        }
        let best = closest_edges(&self.edges, n, maximize);
        let mut clost: Vec<Option<usize>> = Vec::new();
        let mut merged: Vec<bool> = Vec::new();
        let mut v: usize = 0;
        while v < n
            invariant
                v <= n,
                n == self.uf.universe(),
                self.wf(),
                best@.len() == n,
                clost@.len() == v,
                merged@.len() == v,
                forall|x: int| 0 <= x < v ==> !merged@[x],
                forall|x: usize|
                    x < n ==> match #[trigger] best[x as int] {
                        Some(i) => self.edges[i as int].start == x && is_closest_edge(
                            self.edges@,
                            i as int,
                            maximize,
                        ),
                        None => forall|j: int|
                            0 <= j < self.edges.len() ==> self.edges[j].start != x,
                    },
                forall|x: int|
                    0 <= x < v ==> match #[trigger] clost@[x] {
                        Some(u) => self.uf.contains(u) && exists|i: int|
                            is_closest_edge(self.edges@, i, maximize) && self.edges@[i].start == x
                                && self.edges@[i].end == u,
                        None => forall|j: int|
                            0 <= j < self.edges@.len() ==> self.edges@[j].start != x,
                    },
            decreases n - v,
        {
            let ghost prev = clost@;
            match best[v] {
                Some(i) => {
                    let u = self.edges[i].end;
                    assert(self.uf.contains(self.edges@[i as int].start));
                    clost.push(Some(u));
                    assert(is_closest_edge(self.edges@, i as int, maximize) && self.edges@[i as int].start
                        == v && self.edges@[i as int].end == u);
                },
                None => {
                    clost.push(None);
                },
            }
            merged.push(false);
            proof {
                assert forall|x: int| 0 <= x < v + 1 implies match #[trigger] clost@[x] {
                    Some(u) => self.uf.contains(u) && exists|i: int|
                        is_closest_edge(self.edges@, i, maximize) && self.edges@[i].start == x
                            && self.edges@[i].end == u,
                    None => forall|j: int|
                        0 <= j < self.edges@.len() ==> self.edges@[j].start != x,
                } by {
                    if x < v {
                        assert(clost@[x] == prev[x]);
                    }
                }
            }
            v += 1;
        }
        self.clost_neighbors = clost;
        self.merged = merged;
        assert(forall|x: int| 0 <= x < self.merged@.len() ==> !self.merged@[x]);
    }

    /// Whether edge `k` leaves the cluster rooted at `name` for another one.
    pub open spec fn is_exit(&self, name: usize, k: int) -> bool {
        &&& 0 <= k < self.edge_list().len()
        &&& self.edge_list()[k].start == name
        &&& self.clusters().root_of(self.edge_list()[k].end) != name
    }

    /// Whether edge `j` is the lightest edge leaving the cluster rooted at
    /// `name` for another one, the earliest among equals.
    pub open spec fn is_lightest_exit(&self, name: usize, j: int) -> bool {
        &&& self.is_exit(name, j)
        &&& forall|k: int| #[trigger] self.is_exit(name, k) ==> self.edge_list()[j].weight <= self.edge_list()[k].weight
        &&& forall|k: int| 0 <= k < j && #[trigger] self.is_exit(name, k) ==> self.edge_list()[j].weight < self.edge_list()[k].weight
    }

    /// The lightest edge leaving the cluster rooted at `name`, if any.
    fn lightest_exit(&self, name: usize) -> (best: Option<usize>)
        requires
            self.wf(),
            self.clusters().is_root(name),
        ensures
            match best {
                Some(j) => self.is_lightest_exit(name, j as int),
                None => forall|k: int| !#[trigger] self.is_exit(name, k),
            },
    {
        let mut best: Option<usize> = None;
        let mut i: usize = 0;
        while i < self.edges.len()
            invariant
                self.wf(),
                i <= self.edges.len(),
                self.uf.is_root(name),
                match best {
                    Some(j) => j < i && self.is_exit(name, j as int) && (forall|k: int|
                        0 <= k < i && #[trigger] self.is_exit(name, k) ==> self.edges@[j as int].weight
                            <= self.edges@[k].weight) && (forall|k: int|
                        0 <= k < j && #[trigger] self.is_exit(name, k) ==> self.edges@[j as int].weight
                            < self.edges@[k].weight),
                    None => forall|k: int| 0 <= k < i ==> !#[trigger] self.is_exit(name, k),
                },
            decreases self.edges.len() - i,
        {
            let e = self.edges[i];
            assert(self.uf.contains(self.edges@[i as int].end));
            if e.start == name && self.uf.root(e.end) != name {
                let better = match best {
                    None => true,
                    Some(j) => e.weight < self.edges[j].weight,
                };
                if better {
                    best = Some(i);
                }
            }
            i += 1;
        }
        best
    }

    /// Whether `g` roots a live cluster with fewer than `2^round` members
    /// and an edge into another cluster.
    pub open spec fn is_fragment(&self, g: usize, round: usize) -> bool {
        &&& self.clusters().is_root(g)
        &&& self.clusters().members(g).len() < pow2(round as nat)
        &&& exists|k: int| #[trigger] self.is_exit(g, k)
    }

    /// Whether the cluster rooted at `g` in `before` was absorbed since, or
    /// has more members now.
    pub open spec fn grew_or_absorbed(&self, before: &Affinity, g: usize) -> bool {
        !self.clusters().is_root(g) || self.clusters().members(g).len() > before.clusters().members(
            g,
        ).len()
    }

    /// Whether `g` still roots a cluster with the members it had in `before`.
    pub open spec fn untouched(&self, before: &Affinity, g: usize) -> bool {
        self.clusters().is_root(g) && self.clusters().members(g) == before.clusters().members(g)
    }

    /// Attaches the cluster rooted at `name`, when it is live and has fewer
    /// than `2^round` members, to the cluster of the target of its lightest
    /// edge into another cluster; otherwise changes nothing.
    pub fn attach_fragment(&mut self, name: usize, round: usize)
        requires
            old(self).wf(),
        ensures
            final(self).wf(),
            final(self).coarser_than(old(self)),
            final(self).edge_list() == old(self).edge_list(),
            final(self).vertex_list() == old(self).vertex_list(),
            final(self).closest() == old(self).closest(),
            final(self).target() == old(self).target(),
            final(self).clusters().universe() == old(self).clusters().universe(),
            old(self).clusters().is_root(name) && old(self).clusters().members(name).len() < pow2(
                round as nat,
            ) && (exists|k: int| #[trigger] old(self).is_exit(name, k)) ==> exists|j: int|
                #[trigger] old(self).is_lightest_exit(name, j) && final(self).clusters().root_of(name)
                    == final(self).clusters().root_of(old(self).edge_list()[j].end),
            !(old(self).clusters().is_root(name) && old(self).clusters().members(name).len() < pow2(
                round as nat,
            ) && (exists|k: int| #[trigger] old(self).is_exit(name, k))) ==> *final(self) == *old(self),
            old(self).is_fragment(name, round) ==> final(self).grew_or_absorbed(old(self), name),
            forall|r: usize|
                #[trigger] old(self).clusters().is_root(r) ==> final(self).grew_or_absorbed(old(self), r)
                    || final(self).untouched(old(self), r),
            forall|r: usize| #[trigger] final(self).clusters().is_root(r) ==> old(self).clusters().is_root(r),
    {
        if self.uf.is_live_root(name) && below_pow2(self.uf.cluster_size(name), round) {
            proof {
                self.uf.lemma_partition();
            }
            if let Some(j) = self.lightest_exit(name) {
                let ghost before = *self;
                assert(self.uf.contains(self.edges@[j as int].end));
                let target = self.uf.root(self.edges[j].end);
                self.uf.union(name, target);
                proof {
                    before.uf.lemma_partition();
                    let end = before.edges@[j as int].end;
                    assert(self.uf.root_of(end) == self.uf.root_of(target));
                    assert(self.uf.root_of(name) == self.uf.root_of(target));
                    assert(before.is_lightest_exit(name, j as int));
                    assert forall|x1: usize, y1: usize|
                        self.clusters().contains(x1) && self.clusters().contains(y1)
                            && before.clusters().root_of(x1) == before.clusters().root_of(y1) implies
                        #[trigger] self.clusters().root_of(x1) == #[trigger] self.clusters().root_of(y1) by {}
                    assert(target != name);
                    let sa = before.uf.absorbed(name, target);
                    assert(before.uf.members(sa).contains(sa));
                    assert(before.uf.members(sa).len() > 0);
                    assert forall|r: usize|
                        #[trigger] before.clusters().is_root(r) implies self.grew_or_absorbed(&before, r)
                            || self.untouched(&before, r) by {
                        assert(r < before.uf.universe());
                    }
                }
            }
        }
    }

    /// Attaches, by ascending root, every live cluster with fewer than
    /// `2^round` members to the cluster of the target of its lightest edge
    /// into another cluster.
    fn fragment_process(&mut self, round: usize)
        requires
            old(self).wf(),
        ensures
            final(self).wf(),
            final(self).edge_list() == old(self).edge_list(),
            final(self).vertex_list() == old(self).vertex_list(),
            final(self).closest() == old(self).closest(),
            final(self).target() == old(self).target(),
            final(self).clusters().universe() == old(self).clusters().universe(),
            final(self).coarser_than(old(self)),
            forall|g: usize| #[trigger]
                old(self).is_fragment(g, round) ==> final(self).grew_or_absorbed(old(self), g),
            (forall|g: usize| #[trigger]
                old(self).clusters().is_root(g) ==> old(self).clusters().members(g).len() >= pow2(
                    round as nat,
                )) ==> *final(self) == *old(self),
    {
        let ghost start = *self;
        let groups = self.uf.get_items();
        let mut g: usize = 0;
        while g < groups.len()
            invariant
                self.wf(),
                self.edges@ == old(self).edges@,
                self.vertices@ == old(self).vertices@,
                self.clost_neighbors@ == old(self).clost_neighbors@,
                self.k == old(self).k,
                self.uf.universe() == old(self).uf.universe(),
                self.coarser_than(&start),
                start == *old(self),
                start.wf(),
                forall|r: usize| #[trigger] start.clusters().is_root(r) <==> groups@.contains(r),
                forall|a: int, b: int| 0 <= a < b < groups.len() ==> groups@[a] < groups@[b],
                g <= groups.len(),
                forall|r: usize|
                    #[trigger] start.clusters().is_root(r) ==> self.grew_or_absorbed(&start, r)
                        || self.untouched(&start, r),
                forall|j: int|
                    0 <= j < g && start.is_fragment(#[trigger] groups@[j], round) ==> self.grew_or_absorbed(
                        &start,
                        groups@[j],
                    ),
                (forall|r: usize| #[trigger]
                    start.clusters().is_root(r) ==> start.clusters().members(r).len() >= pow2(
                        round as nat,
                    )) ==> *self == start,
            decreases groups.len() - g,
        {
            let ghost before = *self;
            let name = groups[g];
            proof {
                assert(groups@.contains(name));
                assert(start.clusters().is_root(name));
                before.uf.lemma_partition();
                start.uf.lemma_partition();
                if start.is_fragment(name, round) && before.untouched(&start, name) {
                    let k = choose|k: int| #[trigger] start.is_exit(name, k);
                    let end = start.edges@[k].end;
                    assert(before.uf.contains(end));
                    if before.uf.root_of(end) == name {
                        assert(before.uf.members(name).contains(end));
                        assert(start.uf.members(name).contains(end));
                    }
                    assert(before.is_exit(name, k));
                    assert(before.is_fragment(name, round));
                }
            }
            self.attach_fragment(name, round);
            proof {
                assert forall|r: usize|
                    #[trigger] start.clusters().is_root(r) implies self.grew_or_absorbed(&start, r)
                        || self.untouched(&start, r) by {
                    if before.clusters().is_root(r) {
                        assert(self.grew_or_absorbed(&before, r) || self.untouched(&before, r));
                    }
                }
                assert forall|j: int|
                    0 <= j < g + 1 && start.is_fragment(#[trigger] groups@[j], round) implies self.grew_or_absorbed(
                        &start,
                        groups@[j],
                    ) by {
                    let r = groups@[j];
                    if before.clusters().is_root(r) {
                        assert(self.grew_or_absorbed(&before, r) || self.untouched(&before, r));
                    }
                }
            }
            proof {
                assert forall|x1: usize, y1: usize|
                    self.clusters().contains(x1) && self.clusters().contains(y1)
                        && start.clusters().root_of(x1) == start.clusters().root_of(y1) implies
                    #[trigger] self.clusters().root_of(x1) == #[trigger] self.clusters().root_of(y1) by {
                    assert(before.clusters().contains(x1) && before.clusters().contains(y1));
                    assert(before.clusters().root_of(x1) == before.clusters().root_of(y1));
                }
            }
            g += 1;
        }
    }

    /// Whether every edge joins two live roots.
    pub open spec fn edges_between_roots(&self) -> bool {
        forall|i: int|
            0 <= i < self.edge_list().len() ==> self.clusters().is_root(
                (#[trigger] self.edge_list()[i]).start,
            ) && self.clusters().is_root(self.edge_list()[i].end)
    }

    /// The edge list the latest coarsening round started from.
    pub closed spec fn round_start(&self) -> Seq<Edge> {
        self.round_edges@
    }

    /// Whether the closest-neighbour table is the one computed over `es`:
    /// the end of each vertex's closest out-edge, none for a vertex without
    /// out-edges.
    pub open spec fn closest_from(&self, es: Seq<Edge>, maximize: bool) -> bool {
        forall|v: int|
            0 <= v < self.closest().len() ==> match #[trigger] self.closest()[v] {
                Some(u) => exists|i: int|
                    is_closest_edge(es, i, maximize) && es[i].start == v && es[i].end == u,
                None => forall|j: int| 0 <= j < es.len() ==> es[j].start != v,
            }
    }

    /// Whether every vertex with a closest neighbour shares a cluster with it.
    pub open spec fn joined_with_closest(&self) -> bool {
        forall|x: usize|
            x < self.closest().len() && #[trigger] self.closest()[x as int] is Some ==> self.clusters().root_of(x)
                == self.clusters().root_of(self.closest()[x as int]->Some_0)
    }

    /// Computes every vertex's closest neighbour (by lowest edge weight, or
    /// by highest when `common_neighbor` is set) and merges along them,
    /// resolving the vertices by ascending root.
    #[verifier::spinoff_prover]
    fn merge_phase(&mut self, common_neighbor: bool)
        requires
            old(self).wf(),
            old(self).edges_between_roots(),
        ensures
            final(self).wf(),
            final(self).coarser_than(old(self)),
            final(self).joined_with_closest(),
            final(self).edge_list() == old(self).edge_list(),
            forall|v: int|
                0 <= v < final(self).closest().len() ==> match #[trigger] final(self).closest()[v] {
                    Some(u) => exists|i: int|
                        is_closest_edge(old(self).edge_list(), i, common_neighbor)
                            && old(self).edge_list()[i].start == v
                            && old(self).edge_list()[i].end == u,
                    None => forall|j: int|
                        0 <= j < old(self).edge_list().len() ==> old(self).edge_list()[j].start != v,
                },
            final(self).vertex_list() == old(self).vertex_list(),
            final(self).target() == old(self).target(),
    {
        let ghost start = *self;
        self.find_closest_neighbors(common_neighbor);
        let ghost after_closest = *self;
        let roots = self.uf.get_items();
        proof {
            self.uf.lemma_partition();
            assert forall|x: usize|
                x < self.clost_neighbors@.len() && #[trigger] self.clost_neighbors@[x as int] is Some
                    implies roots@.contains(x) by {
                let i = choose|i: int|
                    is_closest_edge(start.edge_list(), i, common_neighbor) && start.edge_list()[i].start == x
                        && start.edge_list()[i].end == self.clost_neighbors@[x as int]->Some_0;
                assert(start.clusters().is_root(start.edge_list()[i].start));
            }
            assert forall|x: int| 0 <= x < roots.len() implies #[trigger] roots@[x] < self.uf.universe()
                && after_closest.uf.is_root(roots@[x]) by {
                assert(roots@.contains(roots@[x]));
                assert(self.uf.is_root(roots@[x]));
            }
        }
        let mut r: usize = 0;
        while r < roots.len()
            invariant
                self.wf(),
                self.merged_joined(),
                self.coarser_than(&start),
                self.edges@ == after_closest.edges@,
                self.clost_neighbors@ == after_closest.clost_neighbors@,
                self.vertices@ == start.vertices@,
                self.k == start.k,
                self.uf.universe() == start.uf.universe(),
                after_closest.wf(),
                after_closest.vertices@ == start.vertices@,
                forall|x: int| 0 <= x < roots.len() ==> #[trigger] roots@[x] < self.uf.universe()
                    && after_closest.uf.is_root(roots@[x]),
                forall|x: int| 0 <= x < r ==> self.settled(#[trigger] roots@[x]),
            decreases roots.len() - r,
        {
            let v = roots[r];
            let ghost before = *self;
            if self.uf.has_vertex(v) && !self.merged[v] {
                self.merge_with_cloest_neighbors(v);
                proof {
                    assert forall|x: int| 0 <= x < r implies self.settled(#[trigger] roots@[x]) by {
                        assert(before.settled(roots@[x]));
                    }
                    assert(self.coarser_than(&start)) by {
                        assert forall|x1: usize, y1: usize|
                            self.clusters().contains(x1) && self.clusters().contains(y1)
                                && start.clusters().root_of(x1) == start.clusters().root_of(y1) implies
                            #[trigger] self.clusters().root_of(x1) == #[trigger] self.clusters().root_of(y1) by {
                            assert(before.clusters().contains(x1) && before.clusters().contains(y1));
                            assert(before.clusters().root_of(x1) == before.clusters().root_of(y1));
                        }
                    }
                }
            } else {
                proof {
                    if self.merged@[v as int] {
                        assert(self.settled(v));
                    } else {
                        assert(after_closest.uf.is_root(roots@[r as int]));
                        after_closest.uf.lemma_partition();
                        assert(after_closest.uf.contains(v));
                        assert(after_closest.vertices@.contains(v));
                        assert(self.uf.contains(v));
                    }
                }
            }
            r += 1;
        }
        proof {
            assert forall|x: usize|
                x < self.closest().len() && #[trigger] self.closest()[x as int] is Some implies self.clusters().root_of(x)
                    == self.clusters().root_of(self.closest()[x as int]->Some_0) by {
                assert(roots@.contains(x));
                let j = roots@.index_of(x);
                assert(self.settled(roots@[j]));
                assert(self.merged@[x as int]);
            }
        }
    }

    /// One coarsening round: computes every vertex's closest neighbour (by
    /// lowest edge weight, or by highest when `common_neighbor` is set),
    /// merges along them, contracts the edges, and, when `fragment` is set,
    /// attaches the clusters with fewer than `2^round` members to their
    /// nearest neighbour and contracts again.
    pub fn coarsening_round(&mut self, fragment: bool, common_neighbor: bool, round: usize)
        requires
            old(self).wf(),
            old(self).edges_between_roots(),
        ensures
            final(self).wf(),
            final(self).edges_between_roots(),
            final(self).coarser_than(old(self)),
            final(self).joined_with_closest(),
            forall|v: int|
                0 <= v < final(self).closest().len() ==> match #[trigger] final(self).closest()[v] {
                    Some(u) => exists|i: int|
                        is_closest_edge(old(self).edge_list(), i, common_neighbor)
                            && old(self).edge_list()[i].start == v
                            && old(self).edge_list()[i].end == u,
                    None => forall|j: int|
                        0 <= j < old(self).edge_list().len() ==> old(self).edge_list()[j].start != v,
                },
            final(self).edge_list() == contract(old(self).edge_list(), final(self).clusters()),
            final(self).without_loops(),
            final(self).round_start() == old(self).edge_list(),
            final(self).closest_from(final(self).round_start(), common_neighbor),
            final(self).vertex_list() == old(self).vertex_list(),
            final(self).target() == old(self).target(),
    {
        let ghost start = *self;
        self.merge_phase(common_neighbor);
        let ghost merged_state = *self;
        self.edges_update();
        if fragment {
            let ghost pre = *self;
            self.fragment_process(round);
            let ghost repaired = *self;
            self.edges_update();
            proof {
                assert(self.coarser_than(&pre));
                merged_state.uf.lemma_partition();
                self.uf.lemma_partition();
                assert forall|i: int| 0 <= i < start.edges@.len() implies merged_state.uf.contains(
                    (#[trigger] start.edges@[i]).start,
                ) && merged_state.uf.contains(start.edges@[i].end) by {
                    assert(merged_state.edges@[i] == start.edges@[i]);
                }
                assert forall|x: usize| #[trigger] merged_state.uf.contains(x) implies self.uf.contains(x) by {
                    assert(merged_state.vertices@.contains(x));
                }
                assert forall|x: usize, y: usize|
                    self.uf.contains(x) && self.uf.contains(y) && merged_state.uf.root_of(x)
                        == merged_state.uf.root_of(y) implies #[trigger] self.uf.root_of(x)
                        == #[trigger] self.uf.root_of(y) by {
                    assert(self.clusters().root_of(x) == self.clusters().root_of(y));
                }
                lemma_contract_compose(start.edges@, merged_state.uf, self.uf);
            }
        }
        proof {
            assert forall|x1: usize, y1: usize|
                self.clusters().contains(x1) && self.clusters().contains(y1)
                    && start.clusters().root_of(x1) == start.clusters().root_of(y1) implies
                #[trigger] self.clusters().root_of(x1) == #[trigger] self.clusters().root_of(y1) by {
                assert(merged_state.clusters().contains(x1) && merged_state.clusters().contains(y1));
                assert(merged_state.clusters().root_of(x1) == merged_state.clusters().root_of(y1));
            }
            assert forall|x: usize|
                x < self.closest().len() && #[trigger] self.closest()[x as int] is Some implies self.clusters().root_of(x)
                    == self.clusters().root_of(self.closest()[x as int]->Some_0) by {
                let u = self.closest()[x as int]->Some_0;
                assert(merged_state.closest()[x as int] is Some);
                assert(merged_state.clusters().root_of(x) == merged_state.clusters().root_of(u));
                assert(self.clusters().contains(x) && self.clusters().contains(u));
            }
        }
        self.round_edges = Ghost(start.edges@);
    }

    /// Runs coarsening rounds until at most `k` clusters remain or
    /// `max_rounds` rounds have run; none runs when there are already at
    /// most `k` clusters. Every round is a `coarsening_round`, so clusters
    /// only ever merge. A graph without vertices is refused with
    /// `EmptyInput`, a target of zero clusters with
    /// `InvalidPartitionCount`; a refused call changes nothing.
    pub fn clustering(&mut self, fragment: bool, common_neighbor: bool, max_rounds: usize) -> (res:
        Result<Coarsening, ClusterError>)
        requires
            old(self).wf(),
            old(self).edges_between_roots(),
        ensures
            final(self).wf(),
            final(self).edges_between_roots(),
            final(self).coarser_than(old(self)),
            final(self).vertex_list() == old(self).vertex_list(),
            final(self).target() == old(self).target(),
            old(self).vertex_list().len() == 0 ==> res == Err::<Coarsening, ClusterError>(
                ClusterError::EmptyInput,
            ),
            old(self).vertex_list().len() > 0 && old(self).target() == 0 ==> res == Err::<
                Coarsening,
                ClusterError,
            >(ClusterError::InvalidPartitionCount),
            old(self).vertex_list().len() > 0 && old(self).target() > 0 ==> res is Ok,
            res is Err ==> *final(self) == *old(self),
            res is Ok ==> {
                let out = res->Ok_0;
                &&& out.converged == (final(self).clusters().root_set().len() <= final(self).target())
                &&& out.rounds <= max_rounds
                &&& !out.converged ==> out.rounds == max_rounds
                &&& old(self).clusters().root_set().len() <= old(self).target() ==> out.rounds == 0
                    && *final(self) == *old(self)
                &&& out.rounds > 0 ==> final(self).joined_with_closest() && final(self).closest_from(
                    final(self).round_start(),
                    common_neighbor,
                ) && final(self).edge_list() == contract(final(self).round_start(), final(self).clusters())
                    && final(self).without_loops()
                &&& out.rounds == 1 ==> final(self).round_start() == old(self).edge_list()
            },
    {
        if self.vertices.len() == 0 {
            return Err(ClusterError::EmptyInput);
        }
        if self.k == 0 {
            return Err(ClusterError::InvalidPartitionCount);
        }
        let ghost start = *self;
        let mut count: usize = 0;
        let mut roots = self.uf.get_items();
        proof {
            assert(self.coarser_than(&start));
        }
        while roots.len() > self.k && count < max_rounds
            invariant
                self.wf(),
                self.edges_between_roots(),
                self.coarser_than(&start),
                self.vertices@ == start.vertices@,
                self.k == start.k,
                count <= max_rounds,
                roots@.len() == self.uf.root_set().len(),
                count == 0 ==> *self == start,
                count > 0 ==> self.joined_with_closest() && self.closest_from(
                    self.round_start(),
                    common_neighbor,
                ) && self.edge_list() == contract(self.round_start(), self.clusters()) && self.without_loops(),
                count == 1 ==> self.round_start() == start.edge_list(),
                count > 0 ==> start.clusters().root_set().len() > start.target(),
            decreases max_rounds - count,
        {
            count += 1;
            let ghost before = *self;
            self.coarsening_round(fragment, common_neighbor, count);
            proof {
                assert forall|x1: usize, y1: usize|
                    self.clusters().contains(x1) && self.clusters().contains(y1)
                        && start.clusters().root_of(x1) == start.clusters().root_of(y1) implies
                    #[trigger] self.clusters().root_of(x1) == #[trigger] self.clusters().root_of(y1) by {
                    assert(before.clusters().contains(x1) && before.clusters().contains(y1));
                    assert(before.clusters().root_of(x1) == before.clusters().root_of(y1));
                }
            }
            roots = self.uf.get_items();
        }
        Ok(Coarsening { converged: roots.len() <= self.k, rounds: count })
    }

    /// Lays the clusters out as one line: the members of each cluster in
    /// merge order, clusters by ascending root.
    pub fn linear_embed(&self) -> (line: Vec<usize>)
        requires
            self.wf(),
        ensures
            line@ == concat_members(self.clusters(), self.clusters().roots_upto(self.clusters().universe())),
            line@.no_duplicates(),
            forall|x: usize| #[trigger] line@.contains(x) <==> self.vertex_list().contains(x),
            line@.len() == self.vertex_list().len(),
    {
        let roots = self.uf.get_items();
        let mut line: Vec<usize> = Vec::new();
        let mut i: usize = 0;
        proof {
            self.uf.lemma_partition();
        }
        while i < roots.len()
            invariant
                self.wf(),
                i <= roots.len(),
                forall|a: int, b: int| 0 <= a < b < roots.len() ==> roots[a] < roots[b],
                forall|r: usize| #[trigger] self.uf.is_root(r) <==> roots@.contains(r),
                line@ == concat_members(self.uf, roots@.subrange(0, i as int)),
                line@.no_duplicates(),
                forall|x: usize|
                    #[trigger] line@.contains(x) <==> (self.uf.contains(x) && exists|j: int|
                        0 <= j < i && roots@[j] == self.uf.root_of(x)),
            decreases roots.len() - i,
        {
            let r = roots[i];
            assert(roots@.contains(r));
            assert(self.uf.is_root(r));
            let mut members = self.uf.cluster_members(r);
            let ghost prev = line@;
            let ghost ms = members@;
            proof {
                self.uf.lemma_partition();
            }
            line.append(&mut members);
            proof {
                let pre = roots@.subrange(0, i + 1);
                assert(pre.drop_last() == roots@.subrange(0, i as int));
                assert(pre.last() == r);
                assert(line@ == prev + ms);
                assert forall|x: usize| ms.contains(x) implies self.uf.contains(x)
                    && self.uf.root_of(x) == r by {}
                assert(line@.no_duplicates()) by {
                    assert forall|a: int, b: int|
                        0 <= a < b < line@.len() implies line@[a] != line@[b] by {
                        if a < prev.len() && b >= prev.len() {
                            let y = line@[a];
                            assert(prev.contains(y));
                            assert(ms.contains(line@[b]));
                            let j = choose|j: int| 0 <= j < i && roots@[j] == self.uf.root_of(y);
                            assert(roots@[j] < roots@[i as int]);
                        }
                    }
                }
                assert forall|x: usize| #[trigger] line@.contains(x) <==> (self.uf.contains(x)
                    && exists|j: int| 0 <= j < i + 1 && roots@[j] == self.uf.root_of(x)) by {
                    if line@.contains(x) {
                        let a = line@.index_of(x);
                        if a < prev.len() {
                            assert(prev[a] == x);
                            assert(prev.contains(x));
                        } else {
                            assert(ms[a - prev.len()] == x);
                            assert(ms.contains(x));
                            assert(roots@[i as int] == self.uf.root_of(x));
                        }
                    }
                    if self.uf.contains(x) && exists|j: int|
                        0 <= j < i + 1 && roots@[j] == self.uf.root_of(x) {
                        let j = choose|j: int| 0 <= j < i + 1 && roots@[j] == self.uf.root_of(x);
                        if j < i {
                            assert(prev.contains(x));
                            let a = prev.index_of(x);
                            assert(line@[a] == x);
                        } else {
                            assert(self.uf.members(r).contains(x));
                            let a = ms.index_of(x);
                            assert(line@[prev.len() + a] == x);
                        }
                    }
                }
            }
            i += 1;
        }
        proof {
            assert(roots@.subrange(0, roots.len() as int) == roots@);
            assert forall|x: usize| #[trigger] line@.contains(x) <==> self.vertices@.contains(x) by {
                if self.uf.contains(x) {
                    let r = self.uf.root_of(x);
                    assert(roots@.contains(r));
                    let j = roots@.index_of(r);
                    assert(roots@[j] == r);
                }
            }
            assert(line@.to_set() =~= self.vertices@.to_set());
            assert(self.vertices@.no_duplicates()) by {
                assert forall|a: int, b: int| 0 <= a < b < self.vertices@.len() implies self.vertices@[a]
                    != self.vertices@[b] by {
                    assert(self.vertices@[a] < self.vertices@[b]);
                }
            }
            line@.unique_seq_to_set();
            self.vertices@.unique_seq_to_set();
        }
        line
    }
}

} // verus!
