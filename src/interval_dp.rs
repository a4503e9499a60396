use crate::error::ClusterError;
use crate::graph::{Edge, Node};
use vstd::prelude::*;

verus! {

/// The first position at or after `i` of the vertex named `name`, or `-1`.
pub open spec fn position_from(line: Seq<Node>, name: usize, i: int) -> int
    decreases line.len() - i,
{
    if i < 0 || i >= line.len() {
        -1
    } else if line[i].name == name {
        i
    } else {
        position_from(line, name, i + 1)
    }
}

/// The first position of the vertex named `name` on the line, or `-1`.
pub open spec fn position(line: Seq<Node>, name: usize) -> int {
    position_from(line, name, 0)
}

/// Whether every edge joins two vertices of the line.
pub open spec fn edges_on_line(line: Seq<Node>, edges: Seq<Edge>) -> bool {
    forall|i: int|
        0 <= i < edges.len() ==> position(line, #[trigger] edges[i].start) >= 0 && position(
            line,
            edges[i].end,
        ) >= 0
}

/// The sum of all edge weights.
pub open spec fn edge_total(edges: Seq<Edge>) -> int
    decreases edges.len(),
{
    if edges.len() == 0 {
        0
    } else {
        edge_total(edges.drop_last()) + edges.last().weight
    }
}

/// The total weight of the edges from line position `s` to line position `t`.
pub open spec fn pair_weight(line: Seq<Node>, edges: Seq<Edge>, s: int, t: int) -> int
    decreases edges.len(),
{
    if edges.len() == 0 {
        0
    } else {
        pair_weight(line, edges.drop_last(), s, t) + if position(line, edges.last().start) == s
            && position(line, edges.last().end) == t {
            edges.last().weight as int
        } else {
            0
        }
    }
}

/// `B[i, j]`: the node weight of positions `i..=j`.
pub open spec fn node_sum(line: Seq<Node>, i: int, j: int) -> int
    decreases j - i + 1,
{
    if j < i {
        0
    } else {
        node_sum(line, i, j - 1) + line[j].weight
    }
}

/// `J[i, j, t]`: the edge weight from positions `i..=j` to position `t`.
pub open spec fn to_point(line: Seq<Node>, edges: Seq<Edge>, i: int, j: int, t: int) -> int
    decreases j - i + 1,
{
    if j < i {
        0
    } else {
        to_point(line, edges, i, j - 1, t) + pair_weight(line, edges, j, t)
    }
}

/// `D[i, j]`: the weight of the edges inside positions `i..=j` (from an
/// earlier position to a later one).
pub open spec fn inside(line: Seq<Node>, edges: Seq<Edge>, i: int, j: int) -> int
    decreases j - i,
{
    if j <= i {
        0
    } else {
        inside(line, edges, i, j - 1) + to_point(line, edges, i, j - 1, j)
    }
}

/// `C[i, j, c]`: the weight of the edges from positions `i..=c` to
/// positions `c+1..=j`.
pub open spec fn crossing(line: Seq<Node>, edges: Seq<Edge>, i: int, j: int, c: int) -> int
    decreases j - c,
{
    if j <= c {
        0
    } else {
        crossing(line, edges, i, j - 1, c) + to_point(line, edges, i, c, j)
    }
}

/// The cost of a partition holding positions `i..=j`: its node weight, the
/// weight of the edges inside it, and the weight of the edges that enter it
/// from the left or leave it to the right.
pub open spec fn part_cost(line: Seq<Node>, edges: Seq<Edge>, i: int, j: int) -> int {
    node_sum(line, i, j) + inside(line, edges, i, j) + (if i > 0 {
        crossing(line, edges, 0, j, i - 1)
    } else {
        0
    }) + crossing(line, edges, i, line.len() - 1, j)
}

/// The bound that every cost stays within.
pub open spec fn cost_bound(line: Seq<Node>, edges: Seq<Edge>) -> int {
    node_sum(line, 0, line.len() - 1) + 3 * line.len() * line.len() * edge_total(edges)
}

/// Lowest and highest admissible last position of the left part when
/// positions `i..=j` are split into `q` parts, `q / 2` of them on the left.
pub open spec fn cut_lo(i: int, q: int) -> int {
    i + q / 2 - 1
}

pub open spec fn cut_hi(j: int, q: int) -> int {
    j - (q - q / 2)
}

/// The worse of the two halves when positions `i..=j` are split after `c`.
pub open spec fn split_value(line: Seq<Node>, edges: Seq<Edge>, i: int, j: int, q: int, c: int) -> int
    decreases j - i, 0int,
{
    if i <= c < j && q >= 2 {
        let l = best_parts(line, edges, i, c, q / 2);
        let r = best_parts(line, edges, c + 1, j, q - q / 2);
        if l >= r {
            l
        } else {
            r
        }
    } else {
        0
    }
}

/// The first split point among `cut_lo(i, q)..=c` whose split value is least.
pub open spec fn best_cut(line: Seq<Node>, edges: Seq<Edge>, i: int, j: int, q: int, c: int) -> int
    decreases j - i, c - i + 1,
{
    if c <= cut_lo(i, q) || c < i || c >= j {
        cut_lo(i, q)
    } else {
        let b = best_cut(line, edges, i, j, q, c - 1);
        if split_value(line, edges, i, j, q, c) < split_value(line, edges, i, j, q, b) {
            c
        } else {
            b
        }
    }
}

/// `A[i, j, q]`: the least achievable cost of the costliest part when
/// positions `i..=j` are split into `q` contiguous parts, the count split
/// in halves recursively.
pub open spec fn best_parts(line: Seq<Node>, edges: Seq<Edge>, i: int, j: int, q: int) -> int
    decreases j - i, j - i + 2,
{
    if q <= 1 || j < i || q > j - i + 1 {
        part_cost(line, edges, i, j)
    } else {
        split_value(line, edges, i, j, q, best_cut(line, edges, i, j, q, cut_hi(j, q)))
    }
}

/// `Ap[i, j, q]`: the split points chosen for `A[i, j, q]`, each the last
/// position of a part.
pub open spec fn best_cuts(line: Seq<Node>, edges: Seq<Edge>, i: int, j: int, q: int) -> Seq<usize>
    decreases j - i,
{
    if q <= 1 || j <= i {
        Seq::empty()
    } else {
        let b = best_cut(line, edges, i, j, q, cut_hi(j, q));
        if i <= b < j {
            best_cuts(line, edges, i, b, q / 2) + seq![b as usize] + best_cuts(
                line,
                edges,
                b + 1,
                j,
                q - q / 2,
            )
        } else {
            Seq::empty()
        }
    }
}

proof fn lemma_edge_total_prefix(edges: Seq<Edge>, i: int)
    requires
        0 <= i <= edges.len(),
    ensures
        0 <= edge_total(edges.subrange(0, i)) <= edge_total(edges),
    decreases edges.len() - i,
{
    if i < edges.len() {
        lemma_edge_total_prefix(edges, i + 1);
        assert(edges.subrange(0, i + 1).drop_last() == edges.subrange(0, i));
    } else {
        assert(edges.subrange(0, i) == edges);
    }
    lemma_edge_total_nonneg(edges.subrange(0, i));
}

proof fn lemma_edge_total_nonneg(edges: Seq<Edge>)
    ensures
        edge_total(edges) >= 0,
    decreases edges.len(),
{
    if edges.len() > 0 {
        lemma_edge_total_nonneg(edges.drop_last());
    }
}

proof fn lemma_pair_bound(line: Seq<Node>, edges: Seq<Edge>, s: int, t: int)
    ensures
        0 <= pair_weight(line, edges, s, t) <= edge_total(edges),
    decreases edges.len(),
{
    if edges.len() > 0 {
        lemma_pair_bound(line, edges.drop_last(), s, t);
    }
}

proof fn lemma_point_bound(line: Seq<Node>, edges: Seq<Edge>, i: int, j: int, t: int)
    ensures
        0 <= to_point(line, edges, i, j, t) <= (if j < i {
            0
        } else {
            j - i + 1
        }) * edge_total(edges),
    decreases j - i + 1,
{
    lemma_edge_total_nonneg(edges);
    if j >= i {
        lemma_point_bound(line, edges, i, j - 1, t);
        lemma_pair_bound(line, edges, j, t);
        let e = edge_total(edges);
        if j - 1 < i {
            assert(to_point(line, edges, i, j - 1, t) == 0);
        }
        assert((if j - 1 < i {
            0
        } else {
            j - i
        }) * e + e == (j - i + 1) * e) by (nonlinear_arith)
            requires
                j >= i,
        ;
    }
}

proof fn lemma_inside_bound(line: Seq<Node>, edges: Seq<Edge>, i: int, j: int, n: int)
    requires
        0 <= i,
        j < n,
    ensures
        0 <= inside(line, edges, i, j) <= (if j <= i {
            0
        } else {
            j - i
        }) * n * edge_total(edges),
    decreases j - i,
{
    lemma_edge_total_nonneg(edges);
    let e = edge_total(edges);
    if j > i {
        lemma_inside_bound(line, edges, i, j - 1, n);
        lemma_point_bound(line, edges, i, j - 1, j);
        assert((if j - 1 <= i {
            0
        } else {
            j - 1 - i
        }) * n * e + (j - i) * e <= (j - i) * n * e) by (nonlinear_arith)
            requires
                j > i,
                0 <= i,
                j < n,
                e >= 0,
        ;
    }
}

proof fn lemma_crossing_bound(line: Seq<Node>, edges: Seq<Edge>, i: int, j: int, c: int, n: int)
    requires
        0 <= i,
        0 <= c < n,
    ensures
        0 <= crossing(line, edges, i, j, c) <= (if j <= c {
            0
        } else {
            j - c
        }) * n * edge_total(edges),
    decreases j - c,
{
    lemma_edge_total_nonneg(edges);
    let e = edge_total(edges);
    if j > c {
        lemma_crossing_bound(line, edges, i, j - 1, c, n);
        lemma_point_bound(line, edges, i, c, j);
        let a = if j - 1 <= c {
            0
        } else {
            j - 1 - c
        };
        let b = if c < i {
            0
        } else {
            c - i + 1
        };
        assert(a == j - 1 - c);
        assert(0 <= b <= n);
        assert(a * n * e + b * e <= (j - c) * n * e) by (nonlinear_arith)
            requires
                a == j - 1 - c,
                0 <= b <= n,
                e >= 0,
        ;
    }
}

proof fn lemma_node_sum_split(line: Seq<Node>, i: int, j: int)
    requires
        0 <= i <= j + 1,
    ensures
        node_sum(line, 0, j) == node_sum(line, 0, i - 1) + node_sum(line, i, j),
        node_sum(line, i, j) >= 0,
    decreases j - i + 1,
{
    if j >= i {
        lemma_node_sum_split(line, i, j - 1);
    }
}

proof fn lemma_node_prefix_le(line: Seq<Node>, j: int, n: int)
    requires
        -1 <= j <= n - 1,
    ensures
        0 <= node_sum(line, 0, j) <= node_sum(line, 0, n - 1),
    decreases n - 1 - j,
{
    if j < n - 1 {
        lemma_node_prefix_le(line, j + 1, n);
    }
    lemma_node_sum_split(line, 0, j);
}

/// Every part cost stays within `cost_bound`.
proof fn lemma_cost_bound(line: Seq<Node>, edges: Seq<Edge>, i: int, j: int)
    requires
        0 <= i <= j < line.len(),
    ensures
        0 <= part_cost(line, edges, i, j) <= cost_bound(line, edges),
{
    let n = line.len() as int;
    let e = edge_total(edges);
    lemma_edge_total_nonneg(edges);
    lemma_node_sum_split(line, i, j);
    lemma_node_prefix_le(line, i - 1, n);
    lemma_node_prefix_le(line, j, n);
    lemma_inside_bound(line, edges, i, j, n);
    lemma_crossing_bound(line, edges, i, n - 1, j, n);
    if i > 0 {
        lemma_crossing_bound(line, edges, 0, j, i - 1, n);
        assert((j - (i - 1)) * n * e <= n * n * e) by (nonlinear_arith)
            requires
                0 < i <= j < n,
                e >= 0,
        ;
    }
    assert((if j <= i {
        0
    } else {
        j - i
    }) * n * e <= n * n * e) by (nonlinear_arith)
        requires
            0 <= i <= j < n,
            e >= 0,
    ;
    assert((if n - 1 <= j {
        0
    } else {
        n - 1 - j
    }) * n * e <= n * n * e) by (nonlinear_arith)
        requires
            0 <= i <= j < n,
            e >= 0,
    ;
    assert(3 * n * n * e == n * n * e + n * n * e + n * n * e) by (nonlinear_arith);
}

/// Every `J`, `D`, `C` and `B` entry stays within `cost_bound` on a
/// non-empty line.
proof fn lemma_tables_fit(line: Seq<Node>, edges: Seq<Edge>, i: int, j: int, t: int)
    requires
        0 <= i < line.len(),
        0 <= j < line.len(),
        0 <= t < line.len(),
    ensures
        0 <= to_point(line, edges, i, j, t) <= cost_bound(line, edges),
        0 <= inside(line, edges, i, j) <= cost_bound(line, edges),
        0 <= crossing(line, edges, i, j, t) <= cost_bound(line, edges),
        0 <= node_sum(line, i, j) <= cost_bound(line, edges),
        0 <= pair_weight(line, edges, j, t) <= cost_bound(line, edges),
        0 <= edge_total(edges) <= cost_bound(line, edges),
{
    let n = line.len() as int;
    let e = edge_total(edges);
    lemma_edge_total_nonneg(edges);
    lemma_point_bound(line, edges, i, j, t);
    lemma_inside_bound(line, edges, i, j, n);
    lemma_crossing_bound(line, edges, i, j, t, n);
    lemma_pair_bound(line, edges, j, t);
    lemma_node_prefix_le(line, i - 1, n);
    lemma_node_prefix_le(line, j, n);
    if j >= i {
        lemma_node_sum_split(line, i, j);
    }
    let pj = if j < i {
        0
    } else {
        j - i + 1
    };
    let dj = if j <= i {
        0
    } else {
        j - i
    };
    let cj = if j <= t {
        0
    } else {
        j - t
    };
    assert(pj * e <= 3 * n * n * e && dj * n * e <= 3 * n * n * e && cj * n * e <= 3 * n * n * e
        && e <= 3 * n * n * e) by (nonlinear_arith)
        requires
            0 <= pj <= n,
            0 <= dj <= n,
            0 <= cj <= n,
            n >= 1,
            e >= 0,
    ;
}

/// A copy of `v`.
fn copy_vec(v: &Vec<usize>) -> (r: Vec<usize>)
    ensures
        r@ == v@,
{
    let mut r: Vec<usize> = Vec::new();
    let mut i: usize = 0;
    while i < v.len()
        invariant
            i <= v.len(),
            r@ == v@.subrange(0, i as int),
        decreases v.len() - i,
    {
        r.push(v[i]);
        i += 1;
    }
    assert(r@ == v@.subrange(0, v.len() as int));
    r
}

/// The first position of the vertex named `name` on the line.
fn position_of(line: &Vec<Node>, name: usize) -> (p: Option<usize>)
    ensures
        match p {
            Some(i) => i == position(line@, name) && i < line.len(),
            None => position(line@, name) == -1,
        },
{
    let mut i: usize = 0;
    while i < line.len()
        invariant
            i <= line.len(),
            position(line@, name) == position_from(line@, name, i as int),
        decreases line.len() - i,
    {
        if line[i].name == name {
            return Some(i);
        }
        i += 1;
    }
    None
}

/// The matrix of edge weights between line positions.
fn pair_weights(line: &Vec<Node>, edges: &Vec<Edge>) -> (r: Result<Vec<Vec<usize>>, ClusterError>)
    requires
        line.len() >= 1,
        cost_bound(line@, edges@) <= usize::MAX,
    ensures
        r is Ok <==> edges_on_line(line@, edges@),
        !edges_on_line(line@, edges@) ==> r == Err::<Vec<Vec<usize>>, ClusterError>(
            ClusterError::NotFound,
        ),
        r is Ok ==> r->Ok_0.len() == line.len() && (forall|s: int|
            0 <= s < line.len() ==> (#[trigger] r->Ok_0[s])@.len() == line.len()) && (forall|
            s: int,
            t: int,
        | 0 <= s < line.len() && 0 <= t < line.len() ==> #[trigger] r->Ok_0[s][t] == pair_weight(
            line@,
            edges@,
            s,
            t,
        )),
{
    let n = line.len();
    let mut w: Vec<Vec<usize>> = Vec::new();
    let mut s: usize = 0;
    while s < n
        invariant
            s <= n,
            w@.len() == s,
            forall|a: int| 0 <= a < s ==> (#[trigger] w@[a])@.len() == n,
            forall|a: int, t: int| 0 <= a < s && 0 <= t < n ==> #[trigger] w@[a]@[t] == 0,
        decreases n - s,
    {
        let mut row: Vec<usize> = Vec::new();
        let mut t: usize = 0;
        while t < n
            invariant
                t <= n,
                row@.len() == t,
                forall|b: int| 0 <= b < t ==> row@[b] == 0,
            decreases n - t,
        {
            row.push(0);
            t += 1;
        }
        w.push(row);
        s += 1;
    }
    let mut i: usize = 0;
    while i < edges.len()
        invariant
            n == line.len(),
            n >= 1,
            cost_bound(line@, edges@) <= usize::MAX,
            i <= edges.len(),
            w@.len() == n,
            edges_on_line(line@, edges@.subrange(0, i as int)),
            forall|a: int| 0 <= a < n ==> (#[trigger] w@[a])@.len() == n,
            forall|a: int, t: int|
                0 <= a < n && 0 <= t < n ==> #[trigger] w@[a]@[t] == pair_weight(
                    line@,
                    edges@.subrange(0, i as int),
                    a,
                    t,
                ),
        decreases edges.len() - i,
    {
        let e = edges[i];
        let ps = match position_of(line, e.start) {
            Some(p) => p,
            None => {
                assert(!edges_on_line(line@, edges@)) by {
                    assert(edges@[i as int] == e);
                }
                return Err(ClusterError::NotFound);
            },
        };
        let pt = match position_of(line, e.end) {
            Some(p) => p,
            None => {
                assert(!edges_on_line(line@, edges@)) by {
                    assert(edges@[i as int] == e);
                }
                return Err(ClusterError::NotFound);
            },
        };
        let ghost pre = edges@.subrange(0, i + 1);
        proof {
            assert(pre.drop_last() == edges@.subrange(0, i as int));
            assert(pre.last() == e);
            lemma_pair_bound(line@, pre, ps as int, pt as int);
            lemma_edge_total_prefix(edges@, i + 1);
            lemma_tables_fit(line@, edges@, 0, 0, 0);
        }
        let ghost before = w@;
        let mut row: Vec<usize> = Vec::new();
        w.set_and_swap(ps, &mut row);
        let cell = row[pt] + e.weight;
        row.set(pt, cell);
        w.set_and_swap(ps, &mut row);
        proof {
            assert forall|a: int| 0 <= a < n implies (#[trigger] w@[a])@.len() == n by {
                if a != ps {
                    assert(w@[a] == before[a]);
                }
            }
            assert forall|a: int, t: int| 0 <= a < n && 0 <= t < n implies #[trigger] w@[a]@[t]
                == pair_weight(line@, pre, a, t) by {
                if a != ps {
                    assert(w@[a] == before[a]);
                }
            }
            assert forall|j: int| 0 <= j < pre.len() implies position(line@, #[trigger] pre[j].start)
                >= 0 && position(line@, pre[j].end) >= 0 by {
                if j < i {
                    assert(pre[j] == edges@.subrange(0, i as int)[j]);
                }
            }
        }
        i += 1;
    }
    assert(edges@.subrange(0, edges.len() as int) == edges@);
    Ok(w)
}

/// Whether `t` is an `n`-by-`n` matrix.
pub open spec fn square(t: Seq<Vec<usize>>, n: int) -> bool {
    t.len() == n && forall|a: int| 0 <= a < n ==> (#[trigger] t[a])@.len() == n
}

/// Whether `t` is an `n`-by-`n`-by-`n` array.
pub open spec fn cube(t: Seq<Vec<Vec<usize>>>, n: int) -> bool {
    t.len() == n && forall|a: int| 0 <= a < n ==> square((#[trigger] t[a])@, n)
}

/// `J[i, j, t]` for one `i` and every `j`, `t` on the line.
fn point_block(line: &Vec<Node>, edges: &Vec<Edge>, w: &Vec<Vec<usize>>, i: usize) -> (r: Vec<Vec<usize>>)
    requires
        line.len() >= 1,
        i < line.len(),
        cost_bound(line@, edges@) <= usize::MAX,
        square(w@, line.len() as int),
        forall|s: int, t: int|
            0 <= s < line.len() && 0 <= t < line.len() ==> #[trigger] w@[s]@[t] == pair_weight(
                line@,
                edges@,
                s,
                t,
            ),
    ensures
        square(r@, line.len() as int),
        forall|j: int, t: int|
            0 <= j < line.len() && 0 <= t < line.len() ==> #[trigger] r@[j]@[t] == to_point(
                line@,
                edges@,
                i as int,
                j,
                t,
            ),
{
    let n = line.len();
    let mut rows: Vec<Vec<usize>> = Vec::new();
    let mut j: usize = 0;
    while j < n
        invariant
            n == line.len(),
            i < n,
            j <= n,
            cost_bound(line@, edges@) <= usize::MAX,
            square(w@, n as int),
            forall|s: int, t: int|
                0 <= s < n && 0 <= t < n ==> #[trigger] w@[s]@[t] == pair_weight(line@, edges@, s, t),
            rows@.len() == j,
            forall|a: int| 0 <= a < j ==> (#[trigger] rows@[a])@.len() == n,
            forall|a: int, t: int|
                0 <= a < j && 0 <= t < n ==> #[trigger] rows@[a]@[t] == to_point(
                    line@,
                    edges@,
                    i as int,
                    a,
                    t,
                ),
        decreases n - j,
    {
        let mut row: Vec<usize> = Vec::new();
        let mut t: usize = 0;
        while t < n
            invariant
                n == line.len(),
                i < n,
                j < n,
                t <= n,
                cost_bound(line@, edges@) <= usize::MAX,
                square(w@, n as int),
                forall|s: int, t: int|
                    0 <= s < n && 0 <= t < n ==> #[trigger] w@[s]@[t] == pair_weight(line@, edges@, s, t),
                rows@.len() == j,
                forall|a: int| 0 <= a < j ==> (#[trigger] rows@[a])@.len() == n,
                forall|a: int, t: int|
                    0 <= a < j && 0 <= t < n ==> #[trigger] rows@[a]@[t] == to_point(
                        line@,
                        edges@,
                        i as int,
                        a,
                        t,
                    ),
                row@.len() == t,
                forall|b: int|
                    0 <= b < t ==> #[trigger] row@[b] == to_point(line@, edges@, i as int, j as int, b),
            decreases n - t,
        {
            proof {
                lemma_tables_fit(line@, edges@, i as int, j as int, t as int);
            }
            let v = if j < i {
                0
            } else {
                let prev = if j == 0 {
                    0
                } else {
                    rows[j - 1][t]
                };
                prev + w[j][t]
            };
            proof {
                if j >= i && j == 0 {
                    assert(to_point(line@, edges@, i as int, -1, t as int) == 0);
                }
                assert(v == to_point(line@, edges@, i as int, j as int, t as int));
            }
            row.push(v);
            t += 1;
        }
        rows.push(row);
        j += 1;
    }
    rows
}

/// `J[i, j, t]` for every `i`, `j`, `t` on the line.
fn point_table(line: &Vec<Node>, edges: &Vec<Edge>, w: &Vec<Vec<usize>>) -> (r: Vec<Vec<Vec<usize>>>)
    requires
        line.len() >= 1,
        cost_bound(line@, edges@) <= usize::MAX,
        square(w@, line.len() as int),
        forall|s: int, t: int|
            0 <= s < line.len() && 0 <= t < line.len() ==> #[trigger] w@[s]@[t] == pair_weight(
                line@,
                edges@,
                s,
                t,
            ),
    ensures
        cube(r@, line.len() as int),
        forall|i: int, j: int, t: int|
            0 <= i < line.len() && 0 <= j < line.len() && 0 <= t < line.len() ==> #[trigger] r@[i]@[j]@[t]
                == to_point(line@, edges@, i, j, t),
{
    let n = line.len();
    let mut table: Vec<Vec<Vec<usize>>> = Vec::new();
    let mut i: usize = 0;
    while i < n
        invariant
            n == line.len(),
            i <= n,
            n >= 1,
            cost_bound(line@, edges@) <= usize::MAX,
            square(w@, n as int),
            forall|s: int, t: int|
                0 <= s < n && 0 <= t < n ==> #[trigger] w@[s]@[t] == pair_weight(line@, edges@, s, t),
            table@.len() == i,
            forall|a: int| 0 <= a < i ==> square((#[trigger] table@[a])@, n as int),
            forall|a: int, j: int, t: int|
                0 <= a < i && 0 <= j < n && 0 <= t < n ==> #[trigger] table@[a]@[j]@[t] == to_point(
                    line@,
                    edges@,
                    a,
                    j,
                    t,
                ),
        decreases n - i,
    {
        let block = point_block(line, edges, w, i);
        table.push(block);
        i += 1;
    }
    table
}

/// `B[i, j]` for every `i`, `j` on the line.
fn weight_table(line: &Vec<Node>, edges: &Vec<Edge>) -> (r: Vec<Vec<usize>>)
    requires
        line.len() >= 1,
        cost_bound(line@, edges@) <= usize::MAX,
    ensures
        square(r@, line.len() as int),
        forall|i: int, j: int|
            0 <= i < line.len() && 0 <= j < line.len() ==> #[trigger] r@[i]@[j] == node_sum(
                line@,
                i,
                j,
            ),
{
    let n = line.len();
    let mut table: Vec<Vec<usize>> = Vec::new();
    let mut i: usize = 0;
    while i < n
        invariant
            n == line.len(),
            i <= n,
            cost_bound(line@, edges@) <= usize::MAX,
            table@.len() == i,
            forall|a: int| 0 <= a < i ==> (#[trigger] table@[a])@.len() == n,
            forall|a: int, j: int|
                0 <= a < i && 0 <= j < n ==> #[trigger] table@[a]@[j] == node_sum(line@, a, j),
        decreases n - i,
    {
        let mut row: Vec<usize> = Vec::new();
        let mut j: usize = 0;
        while j < n
            invariant
                n == line.len(),
                i < n,
                j <= n,
                cost_bound(line@, edges@) <= usize::MAX,
                row@.len() == j,
                forall|b: int| 0 <= b < j ==> #[trigger] row@[b] == node_sum(line@, i as int, b),
            decreases n - j,
        {
            proof {
                lemma_tables_fit(line@, edges@, i as int, j as int, 0);
            }
            let v = if j < i {
                0
            } else {
                let prev = if j == 0 {
                    0
                } else {
                    row[j - 1]
                };
                prev + line[j].weight
            };
            proof {
                if j >= i && j == 0 {
                    assert(node_sum(line@, i as int, -1) == 0);
                }
                assert(v == node_sum(line@, i as int, j as int));
            }
            row.push(v);
            j += 1;
        }
        table.push(row);
        i += 1;
    }
    table
}

/// `D[i, j]` for every `i`, `j` on the line.
fn inside_table(line: &Vec<Node>, edges: &Vec<Edge>, jt: &Vec<Vec<Vec<usize>>>) -> (r: Vec<Vec<usize>>)
    requires
        line.len() >= 1,
        cost_bound(line@, edges@) <= usize::MAX,
        cube(jt@, line.len() as int),
        forall|i: int, j: int, t: int|
            0 <= i < line.len() && 0 <= j < line.len() && 0 <= t < line.len() ==> #[trigger] jt@[i]@[j]@[t]
                == to_point(line@, edges@, i, j, t),
    ensures
        square(r@, line.len() as int),
        forall|i: int, j: int|
            0 <= i < line.len() && 0 <= j < line.len() ==> #[trigger] r@[i]@[j] == inside(
                line@,
                edges@,
                i,
                j,
            ),
{
    let n = line.len();
    let mut table: Vec<Vec<usize>> = Vec::new();
    let mut i: usize = 0;
    while i < n
        invariant
            n == line.len(),
            i <= n,
            cost_bound(line@, edges@) <= usize::MAX,
            cube(jt@, n as int),
            forall|i: int, j: int, t: int|
                0 <= i < n && 0 <= j < n && 0 <= t < n ==> #[trigger] jt@[i]@[j]@[t] == to_point(
                    line@,
                    edges@,
                    i,
                    j,
                    t,
                ),
            table@.len() == i,
            forall|a: int| 0 <= a < i ==> (#[trigger] table@[a])@.len() == n,
            forall|a: int, j: int|
                0 <= a < i && 0 <= j < n ==> #[trigger] table@[a]@[j] == inside(line@, edges@, a, j),
        decreases n - i,
    {
        let mut row: Vec<usize> = Vec::new();
        let mut j: usize = 0;
        while j < n
            invariant
                n == line.len(),
                i < n,
                j <= n,
                cost_bound(line@, edges@) <= usize::MAX,
                cube(jt@, n as int),
                forall|i: int, j: int, t: int|
                    0 <= i < n && 0 <= j < n && 0 <= t < n ==> #[trigger] jt@[i]@[j]@[t] == to_point(
                        line@,
                        edges@,
                        i,
                        j,
                        t,
                    ),
                row@.len() == j,
                forall|b: int| 0 <= b < j ==> #[trigger] row@[b] == inside(line@, edges@, i as int, b),
            decreases n - j,
        {
            proof {
                lemma_tables_fit(line@, edges@, i as int, j as int, 0);
            }
            let v = if j <= i {
                0
            } else {
                row[j - 1] + jt[i][j - 1][j]
            };
            row.push(v);
            j += 1;
        }
        table.push(row);
        i += 1;
    }
    table
}

/// `C[i, j, c]` for every `i`, `c`, `j` on the line, indexed `[i][c][j]`.
fn crossing_table(line: &Vec<Node>, edges: &Vec<Edge>, jt: &Vec<Vec<Vec<usize>>>) -> (r: Vec<
    Vec<Vec<usize>>,
>)
    requires
        line.len() >= 1,
        cost_bound(line@, edges@) <= usize::MAX,
        cube(jt@, line.len() as int),
        forall|i: int, j: int, t: int|
            0 <= i < line.len() && 0 <= j < line.len() && 0 <= t < line.len() ==> #[trigger] jt@[i]@[j]@[t]
                == to_point(line@, edges@, i, j, t),
    ensures
        cube(r@, line.len() as int),
        forall|i: int, c: int, j: int|
            0 <= i < line.len() && 0 <= c < line.len() && 0 <= j < line.len() ==> #[trigger] r@[i]@[c]@[j]
                == crossing(line@, edges@, i, j, c),
{
    let n = line.len();
    let mut table: Vec<Vec<Vec<usize>>> = Vec::new();
    let mut i: usize = 0;
    while i < n
        invariant
            n == line.len(),
            i <= n,
            cost_bound(line@, edges@) <= usize::MAX,
            cube(jt@, n as int),
            forall|i: int, j: int, t: int|
                0 <= i < n && 0 <= j < n && 0 <= t < n ==> #[trigger] jt@[i]@[j]@[t] == to_point(
                    line@,
                    edges@,
                    i,
                    j,
                    t,
                ),
            table@.len() == i,
            forall|a: int| 0 <= a < i ==> square((#[trigger] table@[a])@, n as int),
            forall|a: int, c: int, j: int|
                0 <= a < i && 0 <= c < n && 0 <= j < n ==> #[trigger] table@[a]@[c]@[j] == crossing(
                    line@,
                    edges@,
                    a,
                    j,
                    c,
                ),
        decreases n - i,
    {
        let mut block: Vec<Vec<usize>> = Vec::new();
        let mut c: usize = 0;
        while c < n
            invariant
                n == line.len(),
                i < n,
                c <= n,
                cost_bound(line@, edges@) <= usize::MAX,
                cube(jt@, n as int),
                forall|i: int, j: int, t: int|
                    0 <= i < n && 0 <= j < n && 0 <= t < n ==> #[trigger] jt@[i]@[j]@[t] == to_point(
                        line@,
                        edges@,
                        i,
                        j,
                        t,
                    ),
                block@.len() == c,
                forall|a: int| 0 <= a < c ==> (#[trigger] block@[a])@.len() == n,
                forall|a: int, j: int|
                    0 <= a < c && 0 <= j < n ==> #[trigger] block@[a]@[j] == crossing(
                        line@,
                        edges@,
                        i as int,
                        j,
                        a,
                    ),
            decreases n - c,
        {
            let mut row: Vec<usize> = Vec::new();
            let mut j: usize = 0;
            while j < n
                invariant
                    n == line.len(),
                    i < n,
                    c < n,
                    j <= n,
                    cost_bound(line@, edges@) <= usize::MAX,
                    cube(jt@, n as int),
                    forall|i: int, j: int, t: int|
                        0 <= i < n && 0 <= j < n && 0 <= t < n ==> #[trigger] jt@[i]@[j]@[t]
                            == to_point(line@, edges@, i, j, t),
                    row@.len() == j,
                    forall|b: int|
                        0 <= b < j ==> #[trigger] row@[b] == crossing(
                            line@,
                            edges@,
                            i as int,
                            b,
                            c as int,
                        ),
                decreases n - j,
            {
                proof {
                    lemma_tables_fit(line@, edges@, i as int, j as int, c as int);
                }
                let v = if j <= c {
                    0
                } else {
                    row[j - 1] + jt[i][c][j]
                };
                row.push(v);
                j += 1;
            }
            block.push(row);
            c += 1;
        }
        table.push(block);
        i += 1;
    }
    table
}

/// The cost of every single part `i..=j` (zero where `j < i`).
fn cost_table(
    line: &Vec<Node>,
    edges: &Vec<Edge>,
    bt: &Vec<Vec<usize>>,
    dt: &Vec<Vec<usize>>,
    ct: &Vec<Vec<Vec<usize>>>,
) -> (r: Vec<Vec<usize>>)
    requires
        line.len() >= 1,
        cost_bound(line@, edges@) <= usize::MAX,
        square(bt@, line.len() as int),
        square(dt@, line.len() as int),
        cube(ct@, line.len() as int),
        forall|i: int, j: int|
            0 <= i < line.len() && 0 <= j < line.len() ==> #[trigger] bt@[i]@[j] == node_sum(line@, i, j),
        forall|i: int, j: int|
            0 <= i < line.len() && 0 <= j < line.len() ==> #[trigger] dt@[i]@[j] == inside(
                line@,
                edges@,
                i,
                j,
            ),
        forall|i: int, c: int, j: int|
            0 <= i < line.len() && 0 <= c < line.len() && 0 <= j < line.len() ==> #[trigger] ct@[i]@[c]@[j]
                == crossing(line@, edges@, i, j, c),
    ensures
        square(r@, line.len() as int),
        forall|i: int, j: int|
            0 <= i <= j < line.len() ==> #[trigger] r@[i]@[j] == part_cost(line@, edges@, i, j),
{
    let n = line.len();
    let mut table: Vec<Vec<usize>> = Vec::new();
    let mut i: usize = 0;
    while i < n
        invariant
            n == line.len(),
            i <= n,
            cost_bound(line@, edges@) <= usize::MAX,
            square(bt@, n as int),
            square(dt@, n as int),
            cube(ct@, n as int),
            forall|i: int, j: int| 0 <= i < n && 0 <= j < n ==> #[trigger] bt@[i]@[j] == node_sum(line@, i, j),
            forall|i: int, j: int|
                0 <= i < n && 0 <= j < n ==> #[trigger] dt@[i]@[j] == inside(line@, edges@, i, j),
            forall|i: int, c: int, j: int|
                0 <= i < n && 0 <= c < n && 0 <= j < n ==> #[trigger] ct@[i]@[c]@[j] == crossing(
                    line@,
                    edges@,
                    i,
                    j,
                    c,
                ),
            table@.len() == i,
            forall|a: int| 0 <= a < i ==> (#[trigger] table@[a])@.len() == n,
            forall|a: int, j: int|
                0 <= a <= j < n && a < i ==> #[trigger] table@[a]@[j] == part_cost(line@, edges@, a, j),
        decreases n - i,
    {
        let mut row: Vec<usize> = Vec::new();
        let mut j: usize = 0;
        while j < n
            invariant
                n == line.len(),
                i < n,
                j <= n,
                cost_bound(line@, edges@) <= usize::MAX,
                square(bt@, n as int),
                square(dt@, n as int),
                cube(ct@, n as int),
                forall|i: int, j: int|
                    0 <= i < n && 0 <= j < n ==> #[trigger] bt@[i]@[j] == node_sum(line@, i, j),
                forall|i: int, j: int|
                    0 <= i < n && 0 <= j < n ==> #[trigger] dt@[i]@[j] == inside(line@, edges@, i, j),
                forall|i: int, c: int, j: int|
                    0 <= i < n && 0 <= c < n && 0 <= j < n ==> #[trigger] ct@[i]@[c]@[j] == crossing(
                        line@,
                        edges@,
                        i,
                        j,
                        c,
                    ),
                row@.len() == j,
                forall|b: int|
                    0 <= b < j && i <= b ==> #[trigger] row@[b] == part_cost(line@, edges@, i as int, b),
            decreases n - j,
        {
            let v = if j < i {
                0
            } else {
                proof {
                    lemma_cost_bound(line@, edges@, i as int, j as int);
                    lemma_tables_fit(line@, edges@, i as int, j as int, (n - 1) as int);
                    lemma_tables_fit(line@, edges@, 0, j as int, (n - 1) as int);
                    lemma_crossing_bound(line@, edges@, i as int, (n - 1) as int, j as int, n as int);
                    if i > 0 {
                        lemma_crossing_bound(line@, edges@, 0, j as int, i - 1, n as int);
                    }
                }
                let left = if i > 0 {
                    ct[0][i - 1][j]
                } else {
                    0
                };
                bt[i][j] + dt[i][j] + left + ct[i][j][n - 1]
            };
            row.push(v);
            j += 1;
        }
        table.push(row);
        i += 1;
    }
    table
}

/// Whether halving `k` recursively reaches the partition count `q`: `k`
/// itself, and with each reached count `p >= 2` also `p / 2` and
/// `p - p / 2`.
pub open spec fn halving_reaches(k: int, q: int) -> bool
    decreases k - q, k - q + 2,
{
    q == k || (1 <= q < k && halving_reaches_from(k, q, q + 1))
}

/// Whether some count among `p..=k` that halving `k` reaches halves to `q`.
pub open spec fn halving_reaches_from(k: int, q: int, p: int) -> bool
    decreases k - q, k + 1 - p,
{
    if q >= k || p > k || p <= q {
        false
    } else {
        (p >= 2 && (p / 2 == q || p - p / 2 == q) && halving_reaches(k, p)) || halving_reaches_from(
            k,
            q,
            p + 1,
        )
    }
}

proof fn lemma_reach_from(k: int, x: int, p: int, q: int)
    requires
        x < p <= q <= k,
        q >= 2,
        q / 2 == x || q - q / 2 == x,
        halving_reaches(k, q),
    ensures
        halving_reaches_from(k, x, p),
    decreases q - p,
{
    if p < q {
        lemma_reach_from(k, x, p + 1, q);
    }
}

/// A count that halving `k` reaches has both its halves reached too.
proof fn lemma_reach_halves(k: int, q: int)
    requires
        2 <= q <= k,
        halving_reaches(k, q),
    ensures
        halving_reaches(k, q / 2),
        halving_reaches(k, q - q / 2),
{
    lemma_reach_from(k, q / 2, q / 2 + 1, q);
    lemma_reach_from(k, q - q / 2, q - q / 2 + 1, q);
}

/// Marks every partition count that halving `k` recursively reaches: `k`
/// itself, and with each count `q >= 2` also `q / 2` and `q - q / 2`.
#[verifier::rlimit(60)]
fn needed_counts(k: usize) -> (need: Vec<bool>)
    requires
        k < usize::MAX,
    ensures
        need.len() == k + 1,
        need[k as int],
        forall|q: int| 2 <= q <= k && #[trigger] need[q] ==> need[q / 2] && need[q - q / 2],
        forall|q: int| 1 <= q <= k ==> #[trigger] need[q] == halving_reaches(k as int, q),
{
    let mut need: Vec<bool> = Vec::new();
    let mut q: usize = 0;
    while q <= k
        invariant
            q <= k + 1,
            k < usize::MAX,
            need@.len() == q,
            forall|p: int| 0 <= p < q ==> need@[p] == (p == k),
        decreases k + 1 - q,
    {
        need.push(q == k);
        q += 1;
    }
    proof {
        assert forall|p: int| 1 <= p <= k implies !#[trigger] halving_reaches_from(k as int, p, k + 1) by {}
    }
    let mut q: usize = k;
    while q >= 2
        invariant
            q <= k,
            need@.len() == k + 1,
            need@[k as int],
            forall|p: int| q < p <= k ==> #[trigger] need@[p] == halving_reaches(k as int, p),
            forall|p: int|
                1 <= p <= q ==> #[trigger] need@[p] == (p == k || halving_reaches_from(k as int, p, q + 1)),
        decreases q,
    {
        proof {
            assert(need@[q as int] == halving_reaches(k as int, q as int))
        }
        let ghost before_all = need@;
        if need[q] {
            let ghost before = need@;
            need.set(q / 2, true);
            need.set(q - q / 2, true);
        }
        proof {
            assert forall|p: int| q - 1 < p <= k implies #[trigger] need@[p] == halving_reaches(k as int, p) by {
                if p > q {
                    assert(need@[p] == before_all[p]);
                }
            }
            assert forall|p: int|
                1 <= p <= q - 1 implies #[trigger] need@[p] == (p == k || halving_reaches_from(k as int, p, q as int)) by {
                assert(p < q);
                assert(halving_reaches_from(k as int, p, q as int) == ((q >= 2 && (q / 2 == p || q - q / 2 == p)
                    && halving_reaches(k as int, q as int)) || halving_reaches_from(k as int, p, q + 1)))
            }
        }
        q -= 1;
    }
    proof {
        assert forall|p: int| 2 <= p <= k && #[trigger] need@[p] implies need@[p / 2] && need@[p - p / 2] by {
            lemma_reach_halves(k as int, p);
        }
        assert forall|p: int| 1 <= p <= k implies #[trigger] need@[p] == halving_reaches(k as int, p) by {
            if p <= q {
                assert(p == 1);
                assert(halving_reaches(k as int, 1) == (1 == k || (1 < k && halving_reaches_from(k as int, 1, 2))))
            }
        }
    }
    need
}

/// The partition counts, ascending, for which the recursive halving of `k`
/// needs a table: `k` itself, and with each count `q >= 2` also `q / 2`
/// and `q - q / 2`.
pub fn q_list(k: usize) -> (qs: Vec<usize>)
    requires
        1 <= k < usize::MAX,
    ensures
        qs@.contains(k),
        forall|a: int, b: int| 0 <= a < b < qs.len() ==> qs[a] < qs[b],
        forall|a: int| 0 <= a < qs.len() ==> 1 <= #[trigger] qs[a] <= k,
        forall|q: usize| #[trigger] qs@.contains(q) && q >= 2 ==> qs@.contains(q / 2) && qs@.contains(
            (q - q / 2) as usize,
        ),
        forall|q: usize| #[trigger] qs@.contains(q) <==> 1 <= q <= k && halving_reaches(k as int, q as int),
{
    let need = needed_counts(k);
    let mut qs: Vec<usize> = Vec::new();
    let mut q: usize = 1;
    while q <= k
        invariant
            1 <= q <= k + 1,
            k < usize::MAX,
            need@.len() == k + 1,
            forall|p: int| 2 <= p <= k && #[trigger] need@[p] ==> need@[p / 2] && need@[p - p / 2],
            forall|a: int, b: int| 0 <= a < b < qs.len() ==> qs[a] < qs[b],
            forall|a: int| 0 <= a < qs.len() ==> 1 <= #[trigger] qs[a] < q,
            forall|p: usize| #[trigger] qs@.contains(p) <==> 1 <= p < q && need@[p as int],
        decreases k + 1 - q,
    {
        if need[q] {
            let ghost prev = qs@;
            qs.push(q);
            proof {
                assert forall|p: usize| #[trigger] qs@.contains(p) <==> 1 <= p < q + 1 && need@[p as int] by {
                    if p == q {
                        assert(qs@[prev.len() as int] == q);
                    } else if qs@.contains(p) {
                        let a = qs@.index_of(p);
                        assert(prev[a] == p);
                        assert(prev.contains(p));
                    } else if 1 <= p < q && need@[p as int] {
                        assert(prev.contains(p));
                        let a = prev.index_of(p);
                        assert(qs@[a] == p);
                    }
                }
            }
        }
        q += 1;
    }
    proof {
        assert forall|p: usize| #[trigger] qs@.contains(p) && p >= 2 implies qs@.contains(p / 2)
            && qs@.contains((p - p / 2) as usize) by {
            assert(need@[p as int]);
        }
    }
    qs
}

#[verifier::opaque]
/// Whether layer `q` of the tables holds `A[i, j, q]` and `Ap[i, j, q]`
/// for every range `i..=j` of the line with at least `q` positions.
pub open spec fn layer_ok(
    line: Seq<Node>,
    edges: Seq<Edge>,
    a: Seq<Vec<Vec<usize>>>,
    ap: Seq<Vec<Vec<Vec<usize>>>>,
    q: int,
) -> bool {
    let n = line.len() as int;
    &&& 0 <= q < a.len()
    &&& q < ap.len()
    &&& square(a[q]@, n)
    &&& ap[q]@.len() == n
    &&& forall|i: int| 0 <= i < n ==> (#[trigger] ap[q]@[i])@.len() == n
    &&& forall|i: int, j: int|
        0 <= i <= j < n && q <= j - i + 1 ==> #[trigger] a[q]@[i]@[j] == best_parts(line, edges, i, j, q)
    &&& forall|i: int, j: int|
        0 <= i <= j < n && q <= j - i + 1 ==> (#[trigger] ap[q]@[i]@[j])@ == best_cuts(
            line,
            edges,
            i,
            j,
            q,
        )
}

proof fn lemma_best_cut_range(line: Seq<Node>, edges: Seq<Edge>, i: int, j: int, q: int, c: int)
    ensures
        cut_lo(i, q) <= best_cut(line, edges, i, j, q, c) <= (if c <= cut_lo(i, q) {
            cut_lo(i, q)
        } else {
            c
        }),
    decreases c - i + 1,
{
    if !(c <= cut_lo(i, q) || c < i || c >= j) {
        lemma_best_cut_range(line, edges, i, j, q, c - 1);
    }
}

/// `A[i, j, q]` and `Ap[i, j, q]` from the layers of `q / 2` and `q - q / 2`.
fn dp_cell(
    line: &Vec<Node>,
    edges: &Vec<Edge>,
    a: &Vec<Vec<Vec<usize>>>,
    ap: &Vec<Vec<Vec<Vec<usize>>>>,
    q: usize,
    i: usize,
    j: usize,
) -> (r: (usize, Vec<usize>))
    requires
        2 <= q,
        i <= j < line.len(),
        q <= j - i + 1,
        cost_bound(line@, edges@) <= usize::MAX,
        layer_ok(line@, edges@, a@, ap@, (q / 2) as int),
        layer_ok(line@, edges@, a@, ap@, (q - q / 2) as int),
    ensures
        r.0 == best_parts(line@, edges@, i as int, j as int, q as int),
        r.1@ == best_cuts(line@, edges@, i as int, j as int, q as int),
{
    proof {
        reveal(layer_ok);
    }
    let l = q / 2;
    let rq = q - l;
    let lo = i + l - 1;
    let hi = j - rq;
    let left0 = a[l][i][lo];
    let right0 = a[rq][lo + 1][j];
    let mut best_c = lo;
    let mut best_v = if left0 >= right0 {
        left0
    } else {
        right0
    };
    proof {
        assert(a@[l as int]@[i as int]@[lo as int] == best_parts(line@, edges@, i as int, lo as int, l as int));
        assert(a@[rq as int]@[lo + 1]@[j as int] == best_parts(line@, edges@, lo + 1, j as int, rq as int));
        assert(best_v == split_value(line@, edges@, i as int, j as int, q as int, lo as int));
    }
    let mut c = lo + 1;
    while c <= hi
        invariant
            2 <= q,
            l == q / 2,
            rq == q - q / 2,
            lo == cut_lo(i as int, q as int),
            hi == cut_hi(j as int, q as int),
            i <= lo <= hi < j < line.len(),
            lo < c <= hi + 1,
            lo <= best_c <= hi,
            layer_ok(line@, edges@, a@, ap@, l as int),
            layer_ok(line@, edges@, a@, ap@, rq as int),
            best_c == best_cut(line@, edges@, i as int, j as int, q as int, c - 1),
            best_v == split_value(line@, edges@, i as int, j as int, q as int, best_c as int),
        decreases hi + 1 - c,
    {
        proof {
            reveal(layer_ok);
        }
        let left = a[l][i][c];
        let right = a[rq][c + 1][j];
        let v = if left >= right {
            left
        } else {
            right
        };
        proof {
            assert(a@[l as int]@[i as int]@[c as int] == best_parts(line@, edges@, i as int, c as int, l as int));
            assert(a@[rq as int]@[c + 1]@[j as int] == best_parts(line@, edges@, c + 1, j as int, rq as int));
            assert(v == split_value(line@, edges@, i as int, j as int, q as int, c as int));
        }
        if v < best_v {
            best_c = c;
            best_v = v;
        }
        c += 1;
    }
    proof {
        assert(ap@[l as int]@[i as int]@[best_c as int]@ == best_cuts(line@, edges@, i as int, best_c as int, l as int));
        assert(ap@[rq as int]@[best_c + 1]@[j as int]@ == best_cuts(line@, edges@, best_c + 1, j as int, rq as int));
    }
    let mut cuts = copy_vec(&ap[l][i][best_c]);
    cuts.push(best_c);
    let mut tail = copy_vec(&ap[rq][best_c + 1][j]);
    cuts.append(&mut tail);
    proof {
        assert(best_cut(line@, edges@, i as int, j as int, q as int, hi as int) == best_c);
    }
    (best_v, cuts)
}

/// Layer `q` of the tables, from the layers of `q / 2` and `q - q / 2`.
fn dp_layer(
    line: &Vec<Node>,
    edges: &Vec<Edge>,
    a: &Vec<Vec<Vec<usize>>>,
    ap: &Vec<Vec<Vec<Vec<usize>>>>,
    q: usize,
) -> (r: (Vec<Vec<usize>>, Vec<Vec<Vec<usize>>>))
    requires
        2 <= q,
        cost_bound(line@, edges@) <= usize::MAX,
        layer_ok(line@, edges@, a@, ap@, (q / 2) as int),
        layer_ok(line@, edges@, a@, ap@, (q - q / 2) as int),
        a@.len() == q,
        ap@.len() == q,
    ensures
        layer_ok(line@, edges@, a@.push(r.0), ap@.push(r.1), q as int),
{
    let n = line.len();
    let mut layer: Vec<Vec<usize>> = Vec::new();
    let mut cut_layer: Vec<Vec<Vec<usize>>> = Vec::new();
    let mut i: usize = 0;
    while i < n
        invariant
            n == line.len(),
            2 <= q,
            i <= n,
            cost_bound(line@, edges@) <= usize::MAX,
            layer_ok(line@, edges@, a@, ap@, (q / 2) as int),
            layer_ok(line@, edges@, a@, ap@, (q - q / 2) as int),
            layer@.len() == i,
            cut_layer@.len() == i,
            forall|x: int| 0 <= x < i ==> (#[trigger] layer@[x])@.len() == n,
            forall|x: int| 0 <= x < i ==> (#[trigger] cut_layer@[x])@.len() == n,
            forall|x: int, y: int|
                0 <= x <= y < n && x < i && q <= y - x + 1 ==> #[trigger] layer@[x]@[y] == best_parts(
                    line@,
                    edges@,
                    x,
                    y,
                    q as int,
                ),
            forall|x: int, y: int|
                0 <= x <= y < n && x < i && q <= y - x + 1 ==> (#[trigger] cut_layer@[x]@[y])@
                    == best_cuts(line@, edges@, x, y, q as int),
        decreases n - i,
    {
        let mut row: Vec<usize> = Vec::new();
        let mut cut_row: Vec<Vec<usize>> = Vec::new();
        let mut j: usize = 0;
        while j < n
            invariant
                n == line.len(),
                2 <= q,
                i < n,
                j <= n,
                cost_bound(line@, edges@) <= usize::MAX,
                layer_ok(line@, edges@, a@, ap@, (q / 2) as int),
                layer_ok(line@, edges@, a@, ap@, (q - q / 2) as int),
                row@.len() == j,
                cut_row@.len() == j,
                forall|y: int|
                    0 <= y < j && i <= y && q <= y - i + 1 ==> #[trigger] row@[y] == best_parts(
                        line@,
                        edges@,
                        i as int,
                        y,
                        q as int,
                    ),
                forall|y: int|
                    0 <= y < j && i <= y && q <= y - i + 1 ==> (#[trigger] cut_row@[y])@ == best_cuts(
                        line@,
                        edges@,
                        i as int,
                        y,
                        q as int,
                    ),
            decreases n - j,
        {
            if i <= j && q <= j - i + 1 {
                let (v, cuts) = dp_cell(line, edges, a, ap, q, i, j);
                row.push(v);
                cut_row.push(cuts);
            } else {
                row.push(0);
                cut_row.push(Vec::new());
            }
            j += 1;
        }
        layer.push(row);
        cut_layer.push(cut_row);
        i += 1;
    }
    proof {
        reveal(layer_ok);
        let a2 = a@.push(layer);
        let ap2 = ap@.push(cut_layer);
        assert(a2[q as int] == layer);
        assert(ap2[q as int] == cut_layer);
    }
    (layer, cut_layer)
}

proof fn lemma_layer_push(
    line: Seq<Node>,
    edges: Seq<Edge>,
    a: Seq<Vec<Vec<usize>>>,
    ap: Seq<Vec<Vec<Vec<usize>>>>,
    x: Vec<Vec<usize>>,
    y: Vec<Vec<Vec<usize>>>,
    q: int,
)
    requires
        layer_ok(line, edges, a, ap, q),
    ensures
        layer_ok(line, edges, a.push(x), ap.push(y), q),
{
    reveal(layer_ok);
    assert(a.push(x)[q] == a[q]);
    assert(ap.push(y)[q] == ap[q]);
}

/// The split points `best_cuts(i, j, q)`: `q - 1` of them, strictly
/// ascending, each at least `i` and below `j`.
proof fn lemma_cuts_shape(line: Seq<Node>, edges: Seq<Edge>, i: int, j: int, q: int)
    requires
        0 <= i <= j <= usize::MAX,
        1 <= q <= j - i + 1,
    ensures
        best_cuts(line, edges, i, j, q).len() == q - 1,
        forall|a: int, b: int|
            0 <= a < b < best_cuts(line, edges, i, j, q).len() ==> best_cuts(line, edges, i, j, q)[a]
                < best_cuts(line, edges, i, j, q)[b],
        forall|a: int|
            0 <= a < best_cuts(line, edges, i, j, q).len() ==> i <= #[trigger] best_cuts(
                line,
                edges,
                i,
                j,
                q,
            )[a] < j,
    decreases j - i,
{
    if q >= 2 {
        let b = best_cut(line, edges, i, j, q, cut_hi(j, q));
        lemma_best_cut_range(line, edges, i, j, q, cut_hi(j, q));
        let l = q / 2;
        let r = q - q / 2;
        lemma_cuts_shape(line, edges, i, b, l);
        lemma_cuts_shape(line, edges, b + 1, j, r);
        let left = best_cuts(line, edges, i, b, l);
        let right = best_cuts(line, edges, b + 1, j, r);
        let all = left + seq![b as usize] + right;
        assert(best_cuts(line, edges, i, j, q) == all);
        assert forall|x: int| 0 <= x < all.len() implies i <= #[trigger] all[x] < j && (x < left.len()
            ==> all[x] < b) && (x > left.len() ==> all[x] > b) by {
            if x < left.len() {
                assert(all[x] == left[x]);
                assert(i <= left[x] < b);
            } else if x > left.len() {
                assert(all[x] == right[x - left.len() - 1]);
                assert(b + 1 <= right[x - left.len() - 1] < j);
            } else {
                assert(all[x] == b);
            }
        }
        assert forall|x: int, y: int| 0 <= x < y < all.len() implies all[x] < all[y] by {
            assert(i <= all[x] < j && (x < left.len() ==> all[x] < b) && (x > left.len() ==> all[x] > b));
            assert(i <= all[y] < j && (y < left.len() ==> all[y] < b) && (y > left.len() ==> all[y] > b));
            if x == left.len() {
                assert(all[x] == b);
            }
            if y == left.len() {
                assert(all[y] == b);
            }
            if y < left.len() {
                assert(all[x] == left[x] && all[y] == left[y]);
            } else if x > left.len() {
                assert(all[x] == right[x - left.len() - 1] && all[y] == right[y - left.len() - 1]);
            }
        }
    }
}

/// Where part `p` begins when a line is cut after each position of `cuts`.
pub open spec fn part_start(cuts: Seq<usize>, p: int) -> int {
    if p == 0 {
        0
    } else {
        cuts[p - 1] + 1
    }
}

/// Where part `p` ends when a line of `n` positions is cut after each
/// position of `cuts`.
pub open spec fn part_end(cuts: Seq<usize>, p: int, n: int) -> int {
    if p == cuts.len() {
        n - 1
    } else {
        cuts[p] as int
    }
}

/// Every layer of the tables that the recursive halving of `k` needs, the
/// layer of one part being `costs`.
fn build_layers(
    line: &Vec<Node>,
    edges: &Vec<Edge>,
    costs: Vec<Vec<usize>>,
    empty_cuts: Vec<Vec<Vec<usize>>>,
    k: usize,
) -> (r: (Vec<Vec<Vec<usize>>>, Vec<Vec<Vec<Vec<usize>>>>))
    requires
        1 <= k <= line.len() < usize::MAX,
        cost_bound(line@, edges@) <= usize::MAX,
        square(costs@, line.len() as int),
        forall|i: int, j: int|
            0 <= i <= j < line.len() ==> #[trigger] costs@[i]@[j] == part_cost(line@, edges@, i, j),
        empty_cuts@.len() == line.len(),
        forall|x: int| 0 <= x < line.len() ==> (#[trigger] empty_cuts@[x])@.len() == line.len(),
        forall|x: int, y: int|
            0 <= x < line.len() && 0 <= y < line.len() ==> (#[trigger] empty_cuts@[x]@[y])@.len() == 0,
    ensures
        layer_ok(line@, edges@, r.0@, r.1@, 1),
        layer_ok(line@, edges@, r.0@, r.1@, k as int),
{
    let n = line.len();
    let need = needed_counts(k);
    let mut a: Vec<Vec<Vec<usize>>> = Vec::new();
    let mut ap: Vec<Vec<Vec<Vec<usize>>>> = Vec::new();
    a.push(Vec::new());
    ap.push(Vec::new());
    a.push(costs);
    ap.push(empty_cuts);
    proof {
        reveal(layer_ok);
        assert forall|x: int, y: int|
            0 <= x <= y < n && 1 <= y - x + 1 implies (#[trigger] ap@[1]@[x]@[y])@ == best_cuts(
            line@,
            edges@,
            x,
            y,
            1,
        ) by {
            assert(ap@[1]@[x]@[y]@ =~= Seq::<usize>::empty());
        }
        assert(layer_ok(line@, edges@, a@, ap@, 1));
    }
    let mut q: usize = 2;
    while q <= k
        invariant
            2 <= q <= k + 1,
            k <= n,
            k < usize::MAX,
            n == line.len(),
            cost_bound(line@, edges@) <= usize::MAX,
            need@.len() == k + 1,
            forall|p: int| 2 <= p <= k && #[trigger] need@[p] ==> need@[p / 2] && need@[p - p / 2],
            a@.len() == q,
            ap@.len() == q,
            layer_ok(line@, edges@, a@, ap@, 1),
            forall|p: int| 2 <= p < q && #[trigger] need@[p] ==> layer_ok(line@, edges@, a@, ap@, p),
        decreases k + 1 - q,
    {
        let ghost a0 = a@;
        let ghost ap0 = ap@;
        if need[q] {
            proof {
                assert(need@[(q / 2) as int] && need@[(q - q / 2) as int]);
                assert(layer_ok(line@, edges@, a@, ap@, (q / 2) as int));
                assert(layer_ok(line@, edges@, a@, ap@, (q - q / 2) as int));
            }
            let (layer, cut_layer) = dp_layer(line, edges, &a, &ap, q);
            a.push(layer);
            ap.push(cut_layer);
        } else {
            a.push(Vec::new());
            ap.push(Vec::new());
        }
        proof {
            lemma_layer_push(line@, edges@, a0, ap0, a@[q as int], ap@[q as int], 1);
            assert(a@ == a0.push(a@[q as int]));
            assert(ap@ == ap0.push(ap@[q as int]));
            assert forall|p: int| 2 <= p < q + 1 && #[trigger] need@[p] implies layer_ok(
                line@,
                edges@,
                a@,
                ap@,
                p,
            ) by {
                if p < q {
                    lemma_layer_push(line@, edges@, a0, ap0, a@[q as int], ap@[q as int], p);
                }
            }
        }
        q += 1;
    }
    proof {
        if k >= 2 {
            assert(need@[k as int]);
        }
        assert(layer_ok(line@, edges@, a@, ap@, k as int));
        lemma_cuts_shape(line@, edges@, 0, n - 1, k as int);
    }
    proof {
        if k >= 2 {
            assert(need@[k as int]);
        }
    }
    (a, ap)
}

/// Whether every cost of a split of the line stays within a machine word,
/// that is `cost_bound(line, edges) <= usize::MAX`.
pub fn cost_bound_fits(line: &Vec<Node>, edges: &Vec<Edge>) -> (b: bool)
    ensures
        b == (cost_bound(line@, edges@) <= usize::MAX),
{
    let n = line.len();
    let max = usize::MAX as u128;
    let mut nodes: u128 = 0;
    let mut i: usize = 0;
    while i < n
        invariant
            n == line.len(),
            i <= n,
            max == usize::MAX,
            nodes == node_sum(line@, 0, i - 1),
            nodes <= max,
        decreases n - i,
    {
        nodes = nodes + line[i].weight as u128;
        if nodes > max {
            proof {
                lemma_node_prefix_le(line@, i as int, n as int);
                lemma_edge_total_nonneg(edges@);
                assert(3 * n * n * edge_total(edges@) >= 0) by (nonlinear_arith)
                    requires
                        edge_total(edges@) >= 0,
                ;
            }
            return false;
        }
        i += 1;
    }
    proof {
        lemma_node_prefix_le(line@, -1, n as int);
        lemma_edge_total_nonneg(edges@);
    }
    if n == 0 {
        proof {
            assert(node_sum(line@, 0, -1) == 0);
            assert(3 * n * n * edge_total(edges@) == 0) by (nonlinear_arith)
                requires
                    n == 0,
            ;
        }
        return true;
    }
    let mut total: u128 = 0;
    let mut e: usize = 0;
    while e < edges.len()
        invariant
            n >= 1,
            n == line.len(),
            e <= edges.len(),
            max == usize::MAX,
            total == edge_total(edges@.subrange(0, e as int)),
            total <= max,
        decreases edges.len() - e,
    {
        proof {
            assert(edges@.subrange(0, e + 1).drop_last() == edges@.subrange(0, e as int));
            assert(edges@.subrange(0, e + 1).last() == edges@[e as int]);
        }
        total = total + edges[e].weight as u128;
        assert(total == edge_total(edges@.subrange(0, e + 1)));
        if total > max {
            proof {
                lemma_edge_total_prefix(edges@, e + 1);
                assert(edge_total(edges@) > usize::MAX);
                lemma_node_prefix_le(line@, -1, n as int);
                assert(node_sum(line@, 0, -1) == 0);
                assert(3 * n * n * edge_total(edges@) >= edge_total(edges@)) by (nonlinear_arith)
                    requires
                        edge_total(edges@) >= 0,
                        n >= 1,
                ;
                assert(cost_bound(line@, edges@) == node_sum(line@, 0, n - 1) + 3 * n * n
                    * edge_total(edges@));
                assert(cost_bound(line@, edges@) > usize::MAX);
            }
            return false;
        }
        e += 1;
    }
    assert(edges@.subrange(0, edges.len() as int) == edges@);
    if total == 0 {
        proof {
            assert(3 * n * n * edge_total(edges@) == 0) by (nonlinear_arith)
                requires
                    edge_total(edges@) == 0,
            ;
        }
        return true;
    }
    let room: u128 = max - nodes;
    let d: u128 = 3 * total;
    proof {
        assert(n as int * n as int <= 0xffff_ffff_ffff_ffff * 0xffff_ffff_ffff_ffffint) by (nonlinear_arith)
            requires
                n <= 0xffff_ffff_ffff_ffffint,
                n >= 0,
        ;
    }
    let nn: u128 = (n as u128) * (n as u128);
    proof {
        vstd::arithmetic::div_mod::lemma_fundamental_div_mod(room as int, d as int);
        let qq = room as int / d as int;
        let rr = room as int % d as int;
        assert(0 <= rr < d);
        assert((nn <= qq) == (nn * d <= room)) by (nonlinear_arith)
            requires
                room == d * qq + rr,
                0 <= rr < d,
                d > 0,
                nn >= 0,
        ;
        assert(nn * d == 3 * n * n * edge_total(edges@)) by (nonlinear_arith)
            requires
                nn == n * n,
                d == 3 * edge_total(edges@),
        ;
    }
    nn <= room / d
}

/// The cost of the costliest part when positions `i..=j` are cut after
/// each position of `cuts`.
pub open spec fn split_cost(line: Seq<Node>, edges: Seq<Edge>, i: int, j: int, cuts: Seq<usize>) -> int
    decreases cuts.len(),
{
    if cuts.len() == 0 {
        part_cost(line, edges, i, j)
    } else {
        let first = part_cost(line, edges, i, cuts[0] as int);
        let rest = split_cost(line, edges, cuts[0] + 1, j, cuts.drop_first());
        if first >= rest {
            first
        } else {
            rest
        }
    }
}

/// Whether `cuts` ascend strictly and lie in `i..j`, so that cutting
/// positions `i..=j` after each of them gives non-empty contiguous parts.
pub open spec fn valid_cuts(cuts: Seq<usize>, i: int, j: int) -> bool {
    &&& forall|a: int, b: int| 0 <= a < b < cuts.len() ==> cuts[a] < cuts[b]
    &&& forall|a: int| 0 <= a < cuts.len() ==> i <= #[trigger] cuts[a] < j
}

proof fn lemma_split_cost_concat(
    line: Seq<Node>,
    edges: Seq<Edge>,
    i: int,
    j: int,
    left: Seq<usize>,
    s: usize,
    right: Seq<usize>,
)
    ensures
        split_cost(line, edges, i, j, left + seq![s] + right) == {
            let l = split_cost(line, edges, i, s as int, left);
            let r = split_cost(line, edges, s + 1, j, right);
            if l >= r {
                l
            } else {
                r
            }
        },
    decreases left.len(),
{
    let all = left + seq![s] + right;
    if left.len() == 0 {
        assert(all[0] == s);
        assert(all.drop_first() =~= right);
    } else {
        assert(all[0] == left[0]);
        assert(all.drop_first() =~= left.drop_first() + seq![s] + right);
        lemma_split_cost_concat(line, edges, left[0] + 1, j, left.drop_first(), s, right);
    }
}

proof fn lemma_best_cut_least(line: Seq<Node>, edges: Seq<Edge>, i: int, j: int, q: int, c: int, x: int)
    requires
        q >= 2,
        cut_lo(i, q) <= x <= c < j,
    ensures
        split_value(line, edges, i, j, q, best_cut(line, edges, i, j, q, c)) <= split_value(
            line,
            edges,
            i,
            j,
            q,
            x,
        ),
    decreases c - i + 1,
{
    if !(c <= cut_lo(i, q) || c < i || c >= j) && x < c {
        lemma_best_cut_least(line, edges, i, j, q, c - 1, x);
    }
}

proof fn lemma_ascending_gap(cuts: Seq<usize>, a: int, b: int)
    requires
        forall|x: int, y: int| 0 <= x < y < cuts.len() ==> cuts[x] < cuts[y],
        0 <= a <= b < cuts.len(),
    ensures
        cuts[b] - cuts[a] >= b - a,
    decreases b - a,
{
    if a < b {
        lemma_ascending_gap(cuts, a, b - 1);
    }
}

proof fn lemma_dp_realized(line: Seq<Node>, edges: Seq<Edge>, i: int, j: int, q: int)
    requires
        0 <= i <= j <= usize::MAX,
        1 <= q <= j - i + 1,
    ensures
        best_parts(line, edges, i, j, q) == split_cost(line, edges, i, j, best_cuts(line, edges, i, j, q)),
    decreases j - i,
{
    if q >= 2 {
        let b = best_cut(line, edges, i, j, q, cut_hi(j, q));
        lemma_best_cut_range(line, edges, i, j, q, cut_hi(j, q));
        let l = q / 2;
        let r = q - q / 2;
        lemma_dp_realized(line, edges, i, b, l);
        lemma_dp_realized(line, edges, b + 1, j, r);
        lemma_split_cost_concat(
            line,
            edges,
            i,
            j,
            best_cuts(line, edges, i, b, l),
            b as usize,
            best_cuts(line, edges, b + 1, j, r),
        );
    }
}

proof fn lemma_dp_lower_bound(line: Seq<Node>, edges: Seq<Edge>, i: int, j: int, q: int, cuts: Seq<usize>)
    requires
        0 <= i <= j,
        1 <= q <= j - i + 1,
        cuts.len() == q - 1,
        valid_cuts(cuts, i, j),
    ensures
        best_parts(line, edges, i, j, q) <= split_cost(line, edges, i, j, cuts),
    decreases j - i,
{
    if q >= 2 {
        let l = q / 2;
        let r = q - q / 2;
        let s = cuts[l - 1];
        let left = cuts.subrange(0, l - 1);
        let right = cuts.subrange(l as int, q - 1);
        assert(cuts =~= left + seq![s] + right);
        lemma_ascending_gap(cuts, 0, l - 1);
        lemma_ascending_gap(cuts, l - 1, q - 2);
        assert(cut_lo(i, q) <= s <= cut_hi(j, q));
        assert(valid_cuts(left, i, s as int)) by {
            assert forall|a: int| 0 <= a < left.len() implies i <= #[trigger] left[a] < s by {
                assert(left[a] == cuts[a]);
            }
        }
        assert(valid_cuts(right, s + 1, j)) by {
            assert forall|a: int| 0 <= a < right.len() implies s + 1 <= #[trigger] right[a] < j by {
                assert(right[a] == cuts[a + l]);
            }
        }
        lemma_dp_lower_bound(line, edges, i, s as int, l, left);
        lemma_dp_lower_bound(line, edges, s + 1, j, r, right);
        lemma_split_cost_concat(line, edges, i, j, left, s, right);
        lemma_best_cut_least(line, edges, i, j, q, cut_hi(j, q), s as int);
    }
}

/// Where part `p` begins when positions from `i` on are cut after each
/// position of `cuts`.
pub open spec fn start_at(i: int, cuts: Seq<usize>, p: int) -> int {
    if p == 0 {
        i
    } else {
        cuts[p - 1] + 1
    }
}

/// `split_cost` is the largest of the part costs, and one of them.
proof fn lemma_split_cost_parts(line: Seq<Node>, edges: Seq<Edge>, i: int, j: int, cuts: Seq<usize>)
    ensures
        forall|p: int|
            0 <= p <= cuts.len() ==> #[trigger] part_cost(line, edges, start_at(i, cuts, p), part_end(cuts, p, j + 1))
                <= split_cost(line, edges, i, j, cuts),
        exists|p: int|
            0 <= p <= cuts.len() && #[trigger] part_cost(line, edges, start_at(i, cuts, p), part_end(cuts, p, j + 1))
                == split_cost(line, edges, i, j, cuts),
    decreases cuts.len(),
{
    if cuts.len() == 0 {
        assert(part_cost(line, edges, start_at(i, cuts, 0), part_end(cuts, 0, j + 1)) == split_cost(
            line,
            edges,
            i,
            j,
            cuts,
        ));
    } else {
        let rest = cuts.drop_first();
        let c0 = cuts[0] + 1;
        lemma_split_cost_parts(line, edges, c0, j, rest);
        assert forall|p: int| 1 <= p <= cuts.len() implies start_at(i, cuts, p) == start_at(c0, rest, p - 1)
            && part_end(cuts, p, j + 1) == part_end(rest, p - 1, j + 1) by {
            if p >= 2 {
                assert(rest[p - 2] == cuts[p - 1]);
            }
            if p < cuts.len() {
                assert(rest[p - 1] == cuts[p]);
            }
        }
        assert forall|p: int|
            0 <= p <= cuts.len() implies #[trigger] part_cost(line, edges, start_at(i, cuts, p), part_end(cuts, p, j + 1))
                <= split_cost(line, edges, i, j, cuts) by {
            if p >= 1 {
                assert(part_cost(line, edges, start_at(c0, rest, p - 1), part_end(rest, p - 1, j + 1))
                    <= split_cost(line, edges, c0, j, rest));
            }
        }
        let first = part_cost(line, edges, i, cuts[0] as int);
        if first >= split_cost(line, edges, c0, j, rest) {
            assert(part_cost(line, edges, start_at(i, cuts, 0), part_end(cuts, 0, j + 1)) == split_cost(
                line,
                edges,
                i,
                j,
                cuts,
            ));
        } else {
            let p = choose|p: int|
                0 <= p <= rest.len() && #[trigger] part_cost(line, edges, start_at(c0, rest, p), part_end(rest, p, j + 1))
                    == split_cost(line, edges, c0, j, rest);
            assert(part_cost(line, edges, start_at(i, cuts, p + 1), part_end(cuts, p + 1, j + 1))
                == split_cost(line, edges, i, j, cuts));
        }
    }
}

proof fn lemma_max_is_best(
    line: Seq<Node>,
    edges: Seq<Edge>,
    k: int,
    cuts: Seq<usize>,
    costs: Seq<usize>,
    max_cost: usize,
    best: usize,
)
    requires
        1 <= k <= line.len() <= usize::MAX,
        best == best_parts(line, edges, 0, line.len() - 1, k),
        cuts == best_cuts(line, edges, 0, line.len() - 1, k),
        cuts.len() == k - 1,
        costs.len() == k,
        forall|p: int|
            0 <= p < k ==> #[trigger] costs[p] == part_cost(
                line,
                edges,
                part_start(cuts, p),
                part_end(cuts, p, line.len() as int),
            ),
        forall|p: int| 0 <= p < k ==> #[trigger] costs[p] <= max_cost,
        exists|p: int| 0 <= p < k && #[trigger] costs[p] == max_cost,
    ensures
        max_cost == best,
{
    let nn = line.len() as int;
    lemma_dp_realized(line, edges, 0, nn - 1, k);
    lemma_split_cost_parts(line, edges, 0, nn - 1, cuts);
    assert forall|p: int| 0 <= p <= cuts.len() implies start_at(0, cuts, p) == part_start(cuts, p) by {}
    let pm = choose|p: int| 0 <= p < k && #[trigger] costs[p] == max_cost;
    assert(part_cost(line, edges, start_at(0, cuts, pm), part_end(cuts, pm, nn)) <= split_cost(
        line,
        edges,
        0,
        nn - 1,
        cuts,
    ));
    let ps = choose|p: int|
        0 <= p <= cuts.len() && #[trigger] part_cost(line, edges, start_at(0, cuts, p), part_end(cuts, p, nn))
            == split_cost(line, edges, 0, nn - 1, cuts);
    assert(costs[ps] <= max_cost);
}

/// The interval DP is optimal: on a line of `n` positions and `1 <= k <= n`
/// parts, `A[0, n-1, k]` is the cost of the split that `Ap[0, n-1, k]`
/// describes, and no split into `k` contiguous non-empty parts costs less.
/// So it equals the least cost that enumerating every split would find.
pub proof fn lemma_dp_matches_brute_force(line: Seq<Node>, edges: Seq<Edge>, k: int, cuts: Seq<usize>)
    requires
        1 <= k <= line.len() <= usize::MAX,
        cuts.len() == k - 1,
        valid_cuts(cuts, 0, line.len() - 1),
    ensures
        valid_cuts(best_cuts(line, edges, 0, line.len() - 1, k), 0, line.len() - 1),
        best_cuts(line, edges, 0, line.len() - 1, k).len() == k - 1,
        best_parts(line, edges, 0, line.len() - 1, k) == split_cost(
            line,
            edges,
            0,
            line.len() - 1,
            best_cuts(line, edges, 0, line.len() - 1, k),
        ),
        best_parts(line, edges, 0, line.len() - 1, k) <= split_cost(line, edges, 0, line.len() - 1, cuts),
{
    let n = line.len() as int;
    lemma_cuts_shape(line, edges, 0, n - 1, k);
    lemma_dp_realized(line, edges, 0, n - 1, k);
    lemma_dp_lower_bound(line, edges, 0, n - 1, k, cuts);
}

/// The outcome of a balanced split of the line.
pub struct Partitioning {
    /// `A[0, n-1, k]`: the cost of the costliest part.
    pub best: usize,
    /// The split points: part `p` ends at `cuts[p]`, the last part at the end
    /// of the line.
    pub cuts: Vec<usize>,
    /// The cost of every part, in line order.
    pub part_costs: Vec<usize>,
    /// The largest of `part_costs`.
    pub max_cost: usize,
}

/// Splits the line into exactly `k` contiguous non-empty parts so that the
/// costliest part is as cheap as the recursive halving of `k` allows, and
/// reports the split points and every part's cost.
///
/// The tables `J` and `C` take `n^3` space and time; the recursion over
/// partition counts adds `n^2 log k`.
#[verifier::spinoff_prover]
pub fn dynamic_program(line: &Vec<Node>, k: usize, edges: &Vec<Edge>) -> (r: Result<
    Partitioning,
    ClusterError,
>)
    requires
        line.len() < usize::MAX,
        cost_bound(line@, edges@) <= usize::MAX,
    ensures
        line.len() == 0 ==> r == Err::<Partitioning, ClusterError>(ClusterError::EmptyInput),
        line.len() > 0 && (k == 0 || k > line.len()) ==> r == Err::<Partitioning, ClusterError>(
            ClusterError::InvalidPartitionCount,
        ),
        line.len() > 0 && 1 <= k <= line.len() && !edges_on_line(line@, edges@) ==> r == Err::<
            Partitioning,
            ClusterError,
        >(ClusterError::NotFound),
        line.len() > 0 && 1 <= k <= line.len() && edges_on_line(line@, edges@) ==> r is Ok,
        r is Ok ==> {
            let out = r->Ok_0;
            let n = line.len() as int;
            &&& out.best == best_parts(line@, edges@, 0, n - 1, k as int)
            &&& out.cuts@ == best_cuts(line@, edges@, 0, n - 1, k as int)
            &&& out.cuts.len() == k - 1
            &&& forall|a: int, b: int| 0 <= a < b < out.cuts.len() ==> out.cuts[a] < out.cuts[b]
            &&& forall|a: int| 0 <= a < out.cuts.len() ==> #[trigger] out.cuts[a] < n - 1
            &&& out.part_costs.len() == k
            &&& forall|p: int|
                0 <= p < k ==> #[trigger] out.part_costs[p] == part_cost(
                    line@,
                    edges@,
                    part_start(out.cuts@, p),
                    part_end(out.cuts@, p, n),
                )
            &&& forall|p: int| 0 <= p < k ==> #[trigger] out.part_costs[p] <= out.max_cost
            &&& exists|p: int| 0 <= p < k && #[trigger] out.part_costs[p] == out.max_cost
            &&& out.max_cost == out.best
        },
{
    let n = line.len();
    if n == 0 {
        return Err(ClusterError::EmptyInput);
    }
    if k == 0 || k > n {
        return Err(ClusterError::InvalidPartitionCount);
    }
    let w = match pair_weights(line, edges) {
        Ok(w) => w,
        Err(e) => {
            return Err(e);
        },
    };
    let jt = point_table(line, edges, &w);
    let bt = weight_table(line, edges);
    let dt = inside_table(line, edges, &jt);
    let ct = crossing_table(line, edges, &jt);
    let costs = cost_table(line, edges, &bt, &dt, &ct);
    let mut empty_cuts: Vec<Vec<Vec<usize>>> = Vec::new();
    let mut i: usize = 0;
    while i < n
        invariant
            i <= n,
            empty_cuts@.len() == i,
            forall|x: int| 0 <= x < i ==> (#[trigger] empty_cuts@[x])@.len() == n,
            forall|x: int, y: int| 0 <= x < i && 0 <= y < n ==> (#[trigger] empty_cuts@[x]@[y])@.len() == 0,
        decreases n - i,
    {
        let mut row: Vec<Vec<usize>> = Vec::new();
        let mut j: usize = 0;
        while j < n
            invariant
                j <= n,
                row@.len() == j,
                forall|y: int| 0 <= y < j ==> (#[trigger] row@[y])@.len() == 0,
            decreases n - j,
        {
            row.push(Vec::new());
            j += 1;
        }
        empty_cuts.push(row);
        i += 1;
    }
    let (a, ap) = build_layers(line, edges, costs, empty_cuts, k);
    proof {
        reveal(layer_ok);
        lemma_cuts_shape(line@, edges@, 0, n - 1, k as int);
    }
    let best = a[k][0][n - 1];
    let cuts = copy_vec(&ap[k][0][n - 1]);
    let mut part_costs: Vec<usize> = Vec::new();
    let mut start: usize = 0;
    let mut max_cost: usize = 0;
    let mut p: usize = 0;
    while p < cuts.len()
        invariant
            n == line.len(),
            layer_ok(line@, edges@, a@, ap@, 1),
            cuts.len() == k - 1,
            forall|x: int, y: int| 0 <= x < y < cuts.len() ==> cuts[x] < cuts[y],
            forall|x: int| 0 <= x < cuts.len() ==> 0 <= #[trigger] cuts[x] < n - 1,
            p <= cuts.len(),
            start == part_start(cuts@, p as int),
            p < cuts.len() ==> start <= cuts[p as int],
            part_costs.len() == p,
            forall|x: int|
                0 <= x < p ==> #[trigger] part_costs[x] == part_cost(
                    line@,
                    edges@,
                    part_start(cuts@, x),
                    part_end(cuts@, x, n as int),
                ),
            forall|x: int| 0 <= x < p ==> #[trigger] part_costs[x] <= max_cost,
            p == 0 ==> max_cost == 0,
            p > 0 ==> exists|x: int| 0 <= x < p && #[trigger] part_costs[x] == max_cost,
        decreases cuts.len() - p,
    {
        proof {
            reveal(layer_ok);
        }
        let c = cuts[p];
        let v = a[1][start][c];
        let ghost old_pc = part_costs@;
        let ghost old_max = max_cost;
        proof {
            assert(a@[1]@[start as int]@[c as int] == best_parts(line@, edges@, start as int, c as int, 1));
        }
        part_costs.push(v);
        if v > max_cost || p == 0 {
            max_cost = v;
        }
        start = c + 1;
        p += 1;
        proof {
            if p < cuts.len() {
                assert(cuts[p - 1] < cuts[p as int]);
            }
            assert(part_costs[p - 1] == v);
            assert forall|x: int| 0 <= x < p implies #[trigger] part_costs[x] <= max_cost by {
                if x < p - 1 {
                    assert(part_costs[x] == old_pc[x]);
                }
            }
            if max_cost == v {
                assert(part_costs[p - 1] == max_cost);
            } else {
                let x = choose|x: int| 0 <= x < p - 1 && #[trigger] old_pc[x] == old_max;
                assert(part_costs[x] == max_cost);
            }
            assert forall|x: int| 0 <= x < p implies #[trigger] part_costs[x] == part_cost(
                line@,
                edges@,
                part_start(cuts@, x),
                part_end(cuts@, x, n as int),
            ) by {
                if x < p - 1 {
                    assert(part_costs[x] == old_pc[x]);
                }
            }
        }
    }
    proof {
        reveal(layer_ok);
    }
    let v = a[1][start][n - 1];
    proof {
        if p > 0 {
            assert(cuts[p - 1] < n - 1);
        }
        assert(a@[1]@[start as int]@[n - 1] == best_parts(line@, edges@, start as int, n - 1, 1));
    }
    let ghost old_pc = part_costs@;
    let ghost old_max = max_cost;
    part_costs.push(v);
    if v > max_cost || p == 0 {
        max_cost = v;
    }
    proof {
        assert(part_costs[p as int] == v);
        assert forall|x: int| 0 <= x <= p implies #[trigger] part_costs[x] <= max_cost by {
            if x < p {
                assert(part_costs[x] == old_pc[x]);
            }
        }
        if max_cost == v {
            assert(part_costs[p as int] == max_cost);
        } else {
            let x = choose|x: int| 0 <= x < p && #[trigger] old_pc[x] == old_max;
            assert(part_costs[x] == max_cost);
        }
        assert forall|x: int| 0 <= x <= p implies #[trigger] part_costs[x] == part_cost(
            line@,
            edges@,
            part_start(cuts@, x),
            part_end(cuts@, x, n as int),
        ) by {
            if x < p {
                assert(part_costs[x] == old_pc[x]);
            }
        }
    }
    let out = Partitioning { best, cuts, part_costs, max_cost };
    proof {
        let nn = n as int;
        assert(out.part_costs.len() == k);
        assert(forall|p: int| 0 <= p < k ==> #[trigger] out.part_costs[p] == part_cost(
            line@,
            edges@,
            part_start(out.cuts@, p),
            part_end(out.cuts@, p, nn),
        ));
        assert(forall|p: int| 0 <= p < k ==> #[trigger] out.part_costs[p] <= out.max_cost);
        assert(exists|p: int| 0 <= p < k && #[trigger] out.part_costs[p] == out.max_cost);
        assert(forall|x: int, y: int| 0 <= x < y < out.cuts.len() ==> out.cuts[x] < out.cuts[y]);
        assert(forall|x: int| 0 <= x < out.cuts.len() ==> #[trigger] out.cuts[x] < nn - 1);
        lemma_max_is_best(line@, edges@, k as int, out.cuts@, out.part_costs@, out.max_cost, out.best);
        assert(out.max_cost == out.best);
    }
    Ok(out)
}

} // verus!
