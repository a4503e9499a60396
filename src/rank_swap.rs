use crate::error::ClusterError;
use crate::graph::Node;
use rand::Rng;
use vstd::prelude::*;
use vstd::multiset::*;

verus! {

/// The node weight of positions `lo..hi`.
pub open spec fn range_weight(s: Seq<Node>, lo: int, hi: int) -> int
    decreases hi - lo,
{
    if hi <= lo {
        0
    } else {
        range_weight(s, lo, hi - 1) + s[hi - 1].weight
    }
}

/// How far apart two values are.
pub open spec fn gap(a: int, b: int) -> int {
    if a >= b {
        a - b
    } else {
        b - a
    }
}

/// The summed weight gap of the paired partitions.
pub open spec fn gap_total(cut: Seq<usize>, pairs: Seq<(usize, usize)>) -> int
    decreases pairs.len(),
{
    if pairs.len() == 0 {
        0
    } else {
        gap_total(cut, pairs.drop_last()) + gap(
            cut[pairs.last().0 as int] as int,
            cut[pairs.last().1 as int] as int,
        )
    }
}

/// Whether no partition appears in two pairs, or twice in one.
pub open spec fn pairs_disjoint(pairs: Seq<(usize, usize)>) -> bool {
    &&& forall|a: int| 0 <= a < pairs.len() ==> (#[trigger] pairs[a]).0 != pairs[a].1
    &&& forall|a: int, b: int|
        0 <= a < pairs.len() && 0 <= b < pairs.len() && a != b ==> (#[trigger] pairs[a]).0 != (
        #[trigger] pairs[b]).0 && pairs[a].0 != pairs[b].1 && pairs[a].1 != pairs[b].0 && pairs[a].1
            != pairs[b].1
}

proof fn lemma_gap_total_nonneg(cut: Seq<usize>, pairs: Seq<(usize, usize)>)
    ensures
        gap_total(cut, pairs) >= 0,
    decreases pairs.len(),
{
    if pairs.len() > 0 {
        lemma_gap_total_nonneg(cut, pairs.drop_last());
    }
}

proof fn lemma_gap_total_same(cut: Seq<usize>, cut2: Seq<usize>, pairs: Seq<(usize, usize)>)
    requires
        forall|b: int|
            0 <= b < pairs.len() ==> cut2[(#[trigger] pairs[b]).0 as int] == cut[pairs[b].0 as int]
                && cut2[pairs[b].1 as int] == cut[pairs[b].1 as int],
    ensures
        gap_total(cut2, pairs) == gap_total(cut, pairs),
    decreases pairs.len(),
{
    if pairs.len() > 0 {
        let rest = pairs.drop_last();
        assert forall|b: int| 0 <= b < rest.len() implies cut2[(#[trigger] rest[b]).0 as int]
            == cut[rest[b].0 as int] && cut2[rest[b].1 as int] == cut[rest[b].1 as int] by {
            assert(rest[b] == pairs[b]);
        }
        lemma_gap_total_same(cut, cut2, rest);
        assert(pairs.last() == pairs[pairs.len() - 1]);
    }
}

/// Changing the weights of the two partitions of one pair changes the
/// summed gap by exactly the change of that pair's gap.
proof fn lemma_gap_total_update(cut: Seq<usize>, cut2: Seq<usize>, pairs: Seq<(usize, usize)>, a: int)
    requires
        pairs_disjoint(pairs),
        0 <= a < pairs.len(),
        cut2.len() == cut.len(),
        forall|b: int| 0 <= b < pairs.len() ==> (#[trigger] pairs[b]).0 < cut.len() && pairs[b].1 < cut.len(),
        forall|p: int| 0 <= p < cut.len() && p != pairs[a].0 && p != pairs[a].1 ==> cut2[p] == cut[p],
    ensures
        gap_total(cut2, pairs) == gap_total(cut, pairs) - gap(
            cut[pairs[a].0 as int] as int,
            cut[pairs[a].1 as int] as int,
        ) + gap(cut2[pairs[a].0 as int] as int, cut2[pairs[a].1 as int] as int),
    decreases pairs.len(),
{
    let rest = pairs.drop_last();
    let last = pairs.len() - 1;
    assert(pairs.last() == pairs[last]);
    if a == last {
        assert forall|b: int| 0 <= b < rest.len() implies cut2[(#[trigger] rest[b]).0 as int]
            == cut[rest[b].0 as int] && cut2[rest[b].1 as int] == cut[rest[b].1 as int] by {
            assert(rest[b] == pairs[b]);
            assert(pairs[b].0 != pairs[a].0 && pairs[b].0 != pairs[a].1);
            assert(pairs[b].1 != pairs[a].0 && pairs[b].1 != pairs[a].1);
        }
        lemma_gap_total_same(cut, cut2, rest);
    } else {
        assert(pairs_disjoint(rest)) by {
            assert forall|x: int| 0 <= x < rest.len() implies (#[trigger] rest[x]).0 != rest[x].1 by {
                assert(rest[x] == pairs[x]);
            }
            assert forall|x: int, y: int|
                0 <= x < rest.len() && 0 <= y < rest.len() && x != y implies (#[trigger] rest[x]).0 != (
                #[trigger] rest[y]).0 && rest[x].0 != rest[y].1 && rest[x].1 != rest[y].0 && rest[x].1
                    != rest[y].1 by {
                assert(rest[x] == pairs[x] && rest[y] == pairs[y]);
            }
        }
        assert(rest[a] == pairs[a]);
        assert forall|b: int| 0 <= b < rest.len() implies (#[trigger] rest[b]).0 < cut.len() && rest[b].1 < cut.len() by {
            assert(rest[b] == pairs[b]);
        }
        lemma_gap_total_update(cut, cut2, rest, a);
        assert(pairs[last].0 != pairs[a].0 && pairs[last].0 != pairs[a].1);
        assert(pairs[last].1 != pairs[a].0 && pairs[last].1 != pairs[a].1);
    }
}

/// The larger of two values.
pub open spec fn pair_max(a: int, b: int) -> int {
    if a >= b {
        a
    } else {
        b
    }
}

/// The largest entry (zero for none).
pub open spec fn seq_max(s: Seq<usize>) -> int
    decreases s.len(),
{
    if s.len() == 0 {
        0
    } else {
        pair_max(seq_max(s.drop_last()), s.last() as int)
    }
}

/// Whether exchanging an element of weight `w1` of a partition of weight
/// `c1` with one of weight `w2` of a partition of weight `c2` makes the
/// heavier of the two strictly lighter.
pub open spec fn improves(c1: int, c2: int, w1: int, w2: int) -> bool {
    pair_max(c1 - w1 + w2, c2 - w2 + w1) < pair_max(c1, c2)
}

/// Where interval `j` of partition `p` begins: the partition from `q[p]`
/// to `q[p+1]` is cut into `r` intervals of (nearly) equal width.
pub open spec fn interval_lo(q: Seq<usize>, r: int, p: int, j: int) -> int {
    q[p] + (j * (q[p + 1] - q[p])) / r
}

/// Whether interval `j` of partition `p` is sorted by descending weight.
pub open spec fn interval_sorted(s: Seq<Node>, q: Seq<usize>, r: int, p: int, j: int) -> bool {
    forall|x: int, y: int|
        interval_lo(q, r, p, j) <= x < y < interval_lo(q, r, p, j + 1) ==> (#[trigger] s[x]).weight
            >= (#[trigger] s[y]).weight
}

/// Whether every interval of every partition is sorted by descending weight.
pub open spec fn intervals_sorted(s: Seq<Node>, q: Seq<usize>, k: int, r: int) -> bool {
    forall|p: int, j: int| 0 <= p < k && 0 <= j < r ==> #[trigger] interval_sorted(s, q, r, p, j)
}

/// Whether every entry of `s` below `n` occurs exactly once.
pub open spec fn is_permutation(s: Seq<usize>, n: int) -> bool {
    &&& s.len() == n
    &&& forall|i: int| 0 <= i < n ==> #[trigger] s[i] < n
    &&& forall|i: int, j: int| 0 <= i < j < n ==> s[i] != s[j]
}

/// Whether `q` holds `k + 1` ascending offsets from `0` to `n`, and
/// `pairing` pairs the `r >= 1` intervals of a partition one to one.
pub open spec fn valid_layout(n: int, k: int, r: int, q: Seq<usize>, pairing: Seq<usize>) -> bool {
    &&& q.len() == k + 1
    &&& q[0] == 0
    &&& q[k] == n
    &&& forall|a: int, b: int| 0 <= a <= b <= k ==> q[a] <= q[b]
    &&& r >= 1
    &&& is_permutation(pairing, r)
}

/// Whether `rank` lists the partitions `0..k` by descending weight, the
/// lower index first among equals.
pub open spec fn is_ranking(rank: Seq<usize>, cut: Seq<usize>) -> bool {
    &&& is_permutation(rank, cut.len() as int)
    &&& forall|a: int, b: int|
        0 <= a < b < rank.len() ==> cut[rank[a] as int] > cut[rank[b] as int] || (cut[rank[a] as int]
            == cut[rank[b] as int] && rank[a] < rank[b])
}

/// Whether every partition weight in `cut` is the node weight of its range.
pub open spec fn cuts_match(s: Seq<Node>, cut: Seq<usize>, q: Seq<usize>) -> bool {
    &&& cut.len() + 1 == q.len()
    &&& forall|p: int| 0 <= p < cut.len() ==> #[trigger] cut[p] == range_weight(s, q[p] as int, q[p + 1] as int)
}

/// Whether no exchange of an element at `lo1..hi1` (in partition `p1`)
/// with one at `lo2..hi2` (in partition `p2`) makes the heavier of the two
/// partitions strictly lighter.
pub open spec fn no_improving_exchange(
    s: Seq<Node>,
    cut: Seq<usize>,
    p1: int,
    p2: int,
    lo1: int,
    hi1: int,
    lo2: int,
    hi2: int,
) -> bool {
    forall|x: int, y: int|
        lo1 <= x < hi1 && lo2 <= y < hi2 ==> !improves(
            cut[p1] as int,
            cut[p2] as int,
            #[trigger] s[x].weight as int,
            #[trigger] s[y].weight as int,
        )
}

/// Whether no exchange between interval `pairing[j]` of the first
/// partition of pair `a` and interval `j` of the second improves them.
pub open spec fn exchange_settled(
    s: Seq<Node>,
    cut: Seq<usize>,
    q: Seq<usize>,
    r: int,
    pairing: Seq<usize>,
    pairs: Seq<(usize, usize)>,
    a: int,
    j: int,
) -> bool {
    let p1 = pairs[a].0 as int;
    let p2 = pairs[a].1 as int;
    no_improving_exchange(
        s,
        cut,
        p1,
        p2,
        interval_lo(q, r, p1, pairing[j] as int),
        interval_lo(q, r, p1, pairing[j] + 1),
        interval_lo(q, r, p2, j),
        interval_lo(q, r, p2, j + 1),
    )
}

/// Whether no exchange between paired intervals of a paired couple of
/// partitions makes the heavier of the two strictly lighter.
pub open spec fn local_optimum(
    s: Seq<Node>,
    cut: Seq<usize>,
    q: Seq<usize>,
    r: int,
    pairing: Seq<usize>,
    pairs: Seq<(usize, usize)>,
) -> bool {
    forall|a: int, j: int|
        0 <= a < pairs.len() && 0 <= j < r ==> #[trigger] exchange_settled(s, cut, q, r, pairing, pairs, a, j)
}

proof fn lemma_range_update(s: Seq<Node>, lo: int, hi: int, i: int, v: Node)
    requires
        0 <= i < s.len(),
        0 <= lo,
        hi <= s.len(),
    ensures
        range_weight(s.update(i, v), lo, hi) == range_weight(s, lo, hi) + if lo <= i < hi {
            v.weight - s[i].weight
        } else {
            0
        },
    decreases hi - lo,
{
    if hi > lo {
        lemma_range_update(s, lo, hi - 1, i, v);
    }
}

proof fn lemma_range_elem(s: Seq<Node>, lo: int, hi: int, i: int)
    requires
        lo <= i < hi,
    ensures
        s[i].weight <= range_weight(s, lo, hi),
        range_weight(s, lo, hi) >= 0,
    decreases hi - lo,
{
    lemma_range_nonneg(s, lo, hi - 1);
    if i < hi - 1 {
        lemma_range_elem(s, lo, hi - 1, i);
    }
}

proof fn lemma_range_nonneg(s: Seq<Node>, lo: int, hi: int)
    ensures
        range_weight(s, lo, hi) >= 0,
    decreases hi - lo,
{
    if hi > lo {
        lemma_range_nonneg(s, lo, hi - 1);
    }
}

proof fn lemma_range_split(s: Seq<Node>, lo: int, mid: int, hi: int)
    requires
        lo <= mid <= hi,
    ensures
        range_weight(s, lo, hi) == range_weight(s, lo, mid) + range_weight(s, mid, hi),
    decreases hi - mid,
{
    if hi > mid {
        lemma_range_split(s, lo, mid, hi - 1);
    }
}

proof fn lemma_seq_max(s: Seq<usize>)
    ensures
        forall|i: int| 0 <= i < s.len() ==> s[i] <= seq_max(s),
        s.len() == 0 ==> seq_max(s) == 0,
        s.len() > 0 ==> exists|m: int| 0 <= m < s.len() && s[m] == seq_max(s),
    decreases s.len(),
{
    if s.len() > 0 {
        lemma_seq_max(s.drop_last());
        assert forall|i: int| 0 <= i < s.len() implies s[i] <= seq_max(s) by {
            if i < s.len() - 1 {
                assert(s[i] == s.drop_last()[i]);
            }
        }
        if seq_max(s) == s.last() {
            assert(s[s.len() - 1] == seq_max(s));
        } else {
            let m = choose|m: int| 0 <= m < s.drop_last().len() && s.drop_last()[m] == seq_max(s.drop_last());
            assert(s[m] == seq_max(s));
        }
    }
}

/// An exchange that makes the heavier of two partitions strictly lighter
/// and leaves the others alone never makes the heaviest partition heavier.
pub proof fn lemma_swap_keeps_max(s: Seq<usize>, p1: int, p2: int, a: usize, b: usize)
    requires
        0 <= p1 < s.len(),
        0 <= p2 < s.len(),
        pair_max(a as int, b as int) < pair_max(s[p1] as int, s[p2] as int),
    ensures
        seq_max(s.update(p1, a).update(p2, b)) <= seq_max(s),
{
    let s2 = s.update(p1, a).update(p2, b);
    lemma_seq_max(s);
    lemma_seq_max(s2);
    if s2.len() > 0 {
        let m = choose|m: int| 0 <= m < s2.len() && s2[m] == seq_max(s2);
        if m != p1 && m != p2 {
            assert(s2[m] == s[m]);
        }
    }
}

proof fn lemma_swap_multiset(s: Seq<Node>, i: int, j: int)
    requires
        0 <= i < s.len(),
        0 <= j < s.len(),
    ensures
        s.update(i, s[j]).update(j, s[i]).to_multiset() == s.to_multiset(),
{
    broadcast use {group_multiset_axioms, vstd::seq_lib::to_multiset_update};

    let s1 = s.update(i, s[j]);
    let m = s.to_multiset();
    assert(s.contains(s[i]));
    assert(s.contains(s[j]));
    vstd::seq_lib::to_multiset_contains(s, s[i]);
    vstd::seq_lib::to_multiset_contains(s, s[j]);
    assert(s1.to_multiset() == m.insert(s[j]).remove(s[i]));
    if i == j {
        assert(s.update(i, s[j]).update(j, s[i]) =~= s);
    } else {
        assert(s1[j] == s[j]);
        assert(s1.update(j, s[i]).to_multiset() == s1.to_multiset().insert(s[i]).remove(s[j]));
        assert(m.insert(s[j]).remove(s[i]).insert(s[i]).remove(s[j]) =~= m);
    }
}

/// Exchanges the elements at `i` and `j`.
fn swap_nodes(v: &mut Vec<Node>, i: usize, j: usize)
    requires
        i < old(v).len(),
        j < old(v).len(),
    ensures
        final(v)@ == old(v)@.update(i as int, old(v)@[j as int]).update(j as int, old(v)@[i as int]),
        final(v)@.to_multiset() == old(v)@.to_multiset(),
{
    let a = v[i];
    let b = v[j];
    v.set(i, b);
    v.set(j, a);
    proof {
        lemma_swap_multiset(old(v)@, i as int, j as int);
    }
}

/// Sorts positions `lo..hi` by descending weight, stably; the rest of the
/// line, and the weight of every range that holds all or none of
/// `lo..hi`, stay as they were.
fn sort_interval(v: &mut Vec<Node>, lo: usize, hi: usize)
    requires
        lo <= hi <= old(v).len(),
    ensures
        final(v)@.len() == old(v)@.len(),
        final(v)@.to_multiset() == old(v)@.to_multiset(),
        forall|x: int| 0 <= x < old(v)@.len() && !(lo <= x < hi) ==> final(v)@[x] == old(v)@[x],
        forall|x: int, y: int| lo <= x < y < hi ==> final(v)@[x].weight >= final(v)@[y].weight,
        forall|a: int, b: int|
            0 <= a <= b <= old(v)@.len() && (b <= lo || a >= hi || (a <= lo && hi <= b))
                ==> range_weight(final(v)@, a, b) == range_weight(old(v)@, a, b),
{
    let ghost orig = v@;
    let mut i: usize = lo;
    while i < hi
        invariant
            lo <= i <= hi <= v@.len(),
            v@.len() == orig.len(),
            v@.to_multiset() == orig.to_multiset(),
            forall|x: int| 0 <= x < orig.len() && !(lo <= x < hi) ==> v@[x] == orig[x],
            forall|x: int, y: int| lo <= x < y < i ==> v@[x].weight >= v@[y].weight,
            forall|a: int, b: int|
                0 <= a <= b <= orig.len() && (b <= lo || a >= hi || (a <= lo && hi <= b))
                    ==> range_weight(v@, a, b) == range_weight(orig, a, b),
        decreases hi - i,
    {
        let mut j: usize = i;
        while j > lo && v[j - 1].weight < v[j].weight
            invariant
                lo <= j <= i < hi <= v@.len(),
                v@.len() == orig.len(),
                v@.to_multiset() == orig.to_multiset(),
                forall|x: int| 0 <= x < orig.len() && !(lo <= x < hi) ==> v@[x] == orig[x],
                forall|x: int, y: int|
                    lo <= x < y <= i && x != j && y != j ==> #[trigger] v@[x].weight >= #[trigger] v@[y].weight,
                forall|y: int| j < y <= i ==> v@[j as int].weight > #[trigger] v@[y].weight,
                forall|a: int, b: int|
                    0 <= a <= b <= orig.len() && (b <= lo || a >= hi || (a <= lo && hi <= b))
                        ==> range_weight(v@, a, b) == range_weight(orig, a, b),
            decreases j,
        {
            let ghost before = v@;
            swap_nodes(v, j - 1, j);
            proof {
                assert forall|a: int, b: int|
                    0 <= a <= b <= orig.len() && (b <= lo || a >= hi || (a <= lo && hi <= b))
                        implies range_weight(v@, a, b) == range_weight(orig, a, b) by {
                    let mid = before.update(j - 1, before[j as int]);
                    lemma_range_update(before, a, b, j - 1, before[j as int]);
                    lemma_range_update(mid, a, b, j as int, before[j - 1]);
                }
            }
            j -= 1;
        }
        proof {
            assert forall|x: int, y: int| lo <= x < y < i + 1 implies v@[x].weight >= v@[y].weight by {
                if y == j && x < j - 1 {
                    assert(v@[x].weight >= v@[j - 1].weight);
                }
            }
        }
        i += 1;
    }
}

/// Draws a value below `bound`.
///
/// Relies on `rand::Rng::gen_range` over `rand::thread_rng()` (rand 0.7):
/// a value in `[low, high)`; it panics when `low >= high`.
#[verifier::external_body]
fn random_below(bound: usize) -> (r: usize)
    requires
        bound > 0,
    ensures
        r < bound,
{
    rand::thread_rng().gen_range(0, bound)
}

/// A random one-to-one pairing of `r` intervals: entry `j` names the
/// interval paired with interval `j`.
pub fn random_pairing(r: usize) -> (pairing: Vec<usize>)
    ensures
        is_permutation(pairing@, r as int),
{
    let mut pairing: Vec<usize> = Vec::new();
    let mut i: usize = 0;
    while i < r
        invariant
            i <= r,
            pairing@.len() == i,
            forall|x: int| 0 <= x < i ==> pairing@[x] == x,
        decreases r - i,
    {
        pairing.push(i);
        i += 1;
    }
    let mut i: usize = r;
    while i > 1
        invariant
            i <= r,
            pairing@.len() == r,
            forall|x: int| 0 <= x < r ==> #[trigger] pairing@[x] < r,
            forall|x: int, y: int| 0 <= x < y < r ==> pairing@[x] != pairing@[y],
        decreases i,
    {
        let j = random_below(i);
        let a = pairing[i - 1];
        let b = pairing[j];
        let ghost before = pairing@;
        pairing.set(i - 1, b);
        pairing.set(j, a);
        proof {
            assert forall|x: int, y: int| 0 <= x < y < r implies pairing@[x] != pairing@[y] by {
                let sx = if x == j {
                    i - 1
                } else if x == i - 1 {
                    j as int
                } else {
                    x
                };
                let sy = if y == j {
                    i - 1
                } else if y == i - 1 {
                    j as int
                } else {
                    y
                };
                assert(pairing@[x] == before[sx]);
                assert(pairing@[y] == before[sy]);
            }
        }
        i -= 1;
    }
    pairing
}

/// Partition offsets for `k` partitions of a line of `n` vertices: entry
/// `i` is `i * n / k` rounded to the nearest integer (halves up).
pub fn partition_offsets(n: usize, k: usize) -> (q: Vec<usize>)
    requires
        1 <= k < usize::MAX,
    ensures
        q.len() == k + 1,
        forall|i: int| 0 <= i <= k ==> #[trigger] q[i] == (i * n + k / 2) / (k as int),
        offsets_ok(q@, k as int, n as int),
        q[0] == 0,
{
    let mut q: Vec<usize> = Vec::new();
    let mut i: usize = 0;
    while i <= k
        invariant
            1 <= k < usize::MAX,
            i <= k + 1,
            q@.len() == i,
            forall|x: int| 0 <= x < i ==> #[trigger] q@[x] == (x * n + k / 2) / (k as int),
        decreases k + 1 - i,
    {
        proof {
            assert(i as int * n as int <= k as int * n as int) by (nonlinear_arith)
                requires
                    i <= k,
            ;
            assert(k as int * n as int <= 0xffff_ffff_ffff_ffff * 0xffff_ffff_ffff_ffffint) by (nonlinear_arith)
                requires
                    k <= 0xffff_ffff_ffff_ffffint,
                    n <= 0xffff_ffff_ffff_ffffint,
            ;
        }
        let num: u128 = (i as u128) * (n as u128) + (k as u128) / 2;
        proof {
            assert(num < k * (n + 1)) by (nonlinear_arith)
                requires
                    num == i * n + k / 2,
                    i <= k,
                    k >= 1,
            ;
            vstd::arithmetic::div_mod::lemma_multiply_divide_lt(num as int, k as int, n + 1);
        }
        q.push((num / (k as u128)) as usize);
        i += 1;
    }
    proof {
        let kk = k as int;
        let nn = n as int;
        assert forall|a: int, b: int| 0 <= a <= b <= kk implies q@[a] <= q@[b] by {
            assert(a * nn + kk / 2 <= b * nn + kk / 2) by (nonlinear_arith)
                requires
                    a <= b,
                    nn >= 0,
            ;
            vstd::arithmetic::div_mod::lemma_div_is_ordered(a * nn + kk / 2, b * nn + kk / 2, kk);
        }
        assert(q@[0] == 0) by {
            assert(0 * nn + kk / 2 == kk / 2) by (nonlinear_arith);
            vstd::arithmetic::div_mod::lemma_basic_div(kk / 2, kk);
        }
        assert(q@[kk] == nn) by {
            assert(kk * nn + kk / 2 == nn * kk + kk / 2) by (nonlinear_arith);
            vstd::arithmetic::div_mod::lemma_fundamental_div_mod_converse(kk * nn + kk / 2, kk, nn, kk / 2);
        }
    }
    q
}

/// Whether `q` holds `k + 1` ascending offsets ending at `n`.
pub open spec fn offsets_ok(q: Seq<usize>, k: int, n: int) -> bool {
    &&& q.len() == k + 1
    &&& q[k] == n
    &&& forall|a: int, b: int| 0 <= a <= b <= k ==> q[a] <= q[b]
}

/// A position of partition `p1` lies in no other partition.
proof fn lemma_outside_other(q: Seq<usize>, k: int, n: int, p1: int, p: int, x: int)
    requires
        offsets_ok(q, k, n),
        0 <= p1 < k,
        0 <= p < k,
        p != p1,
        q[p1] <= x < q[p1 + 1],
    ensures
        !(q[p] <= x < q[p + 1]),
{
    if p < p1 {
        assert(q[p + 1] <= q[p1]);
    } else {
        assert(q[p1 + 1] <= q[p]);
    }
}

/// Exchanges, for every position `x` of `lo1..hi1` in turn, the element at
/// `x` with the element of `lo2..hi2` whose exchange leaves the heavier of
/// partitions `p1` and `p2` lightest, when that is strictly lighter than
/// now (the first such element among equals). Says whether it exchanged.
fn exchange_intervals(
    work: &mut Vec<Node>,
    cut: &mut Vec<usize>,
    q: &Vec<usize>,
    k: usize,
    p1: usize,
    p2: usize,
    lo1: usize,
    hi1: usize,
    lo2: usize,
    hi2: usize,
) -> (swapped: bool)
    requires
        offsets_ok(q@, k as int, old(work)@.len() as int),
        cuts_match(old(work)@, old(cut)@, q@),
        p1 < k,
        p2 < k,
        p1 != p2,
        q@[p1 as int] <= lo1 <= hi1 <= q@[p1 + 1],
        q@[p2 as int] <= lo2 <= hi2 <= q@[p2 + 1],
    ensures
        final(work)@.len() == old(work)@.len(),
        final(work)@.to_multiset() == old(work)@.to_multiset(),
        cuts_match(final(work)@, final(cut)@, q@),
        seq_max(final(cut)@) <= seq_max(old(cut)@),
        forall|p: int| 0 <= p < old(cut)@.len() && p != p1 && p != p2 ==> #[trigger] final(cut)@[p] == old(cut)@[p],
        final(cut)@[p1 as int] + final(cut)@[p2 as int] == old(cut)@[p1 as int] + old(cut)@[p2 as int],
        swapped ==> gap(final(cut)@[p1 as int] as int, final(cut)@[p2 as int] as int) < gap(
            old(cut)@[p1 as int] as int,
            old(cut)@[p2 as int] as int,
        ),
        !swapped ==> final(work)@ == old(work)@ && final(cut)@ == old(cut)@ && no_improving_exchange(
            old(work)@,
            old(cut)@,
            p1 as int,
            p2 as int,
            lo1 as int,
            hi1 as int,
            lo2 as int,
            hi2 as int,
        ),
{
    let ghost work0 = work@;
    let ghost cut0 = cut@;
    let ghost n = work@.len() as int;
    let mut swapped = false;
    let mut x = lo1;
    while x < hi1
        invariant
            offsets_ok(q@, k as int, n),
            work@.len() == n,
            cuts_match(work@, cut@, q@),
            p1 < k,
            p2 < k,
            p1 != p2,
            q@[p1 as int] <= lo1 <= x <= hi1 <= q@[p1 + 1],
            q@[p2 as int] <= lo2 <= hi2 <= q@[p2 + 1],
            work@.to_multiset() == work0.to_multiset(),
            seq_max(cut@) <= seq_max(cut0),
            cut@.len() == cut0.len(),
            forall|p: int| 0 <= p < cut0.len() && p != p1 && p != p2 ==> #[trigger] cut@[p] == cut0[p],
            cut@[p1 as int] + cut@[p2 as int] == cut0[p1 as int] + cut0[p2 as int],
            swapped ==> gap(cut@[p1 as int] as int, cut@[p2 as int] as int) < gap(
                cut0[p1 as int] as int,
                cut0[p2 as int] as int,
            ),
            !swapped ==> work@ == work0 && cut@ == cut0 && no_improving_exchange(
                work0,
                cut0,
                p1 as int,
                p2 as int,
                lo1 as int,
                x as int,
                lo2 as int,
                hi2 as int,
            ),
        decreases hi1 - x,
    {
        let wx = work[x].weight;
        let c1 = cut[p1];
        let c2 = cut[p2];
        proof {
            lemma_range_elem(work@, q@[p1 as int] as int, q@[p1 + 1] as int, x as int);
        }
        let present: usize = if c1 >= c2 {
            c1
        } else {
            c2
        };
        let mut best: Option<usize> = None;
        let mut best_v: u128 = present as u128;
        let mut y = lo2;
        while y < hi2
            invariant
                work@.len() == n,
                cuts_match(work@, cut@, q@),
                p2 < k,
                offsets_ok(q@, k as int, n),
                q@[p2 as int] <= lo2 <= y <= hi2 <= q@[p2 + 1],
                c1 == cut@[p1 as int],
                c2 == cut@[p2 as int],
                wx == work@[x as int].weight,
                c1 >= wx,
                present == pair_max(c1 as int, c2 as int),
                match best {
                    None => best_v == present && forall|y2: int|
                        lo2 <= y2 < y ==> !improves(c1 as int, c2 as int, wx as int, #[trigger] work@[y2].weight as int),
                    Some(b) => lo2 <= b < y && best_v < present && best_v == pair_max(
                        c1 - wx + work@[b as int].weight,
                        c2 - work@[b as int].weight + wx,
                    ),
                },
            decreases hi2 - y,
        {
            let wy = work[y].weight;
            proof {
                lemma_range_elem(work@, q@[p2 as int] as int, q@[p2 + 1] as int, y as int);
            }
            let new1: u128 = (c1 - wx) as u128 + wy as u128;
            let new2: u128 = (c2 - wy) as u128 + wx as u128;
            let m = if new1 >= new2 {
                new1
            } else {
                new2
            };
            if m < best_v {
                best = Some(y);
                best_v = m;
            }
            y += 1;
        }
        if let Some(b) = best {
            let wy = work[b].weight;
            proof {
                lemma_range_elem(work@, q@[p2 as int] as int, q@[p2 + 1] as int, b as int);
            }
            let n1 = c1 - wx + wy;
            let n2 = c2 - wy + wx;
            let ghost wbefore = work@;
            let ghost cbefore = cut@;
            swap_nodes(work, x, b);
            cut.set(p1, n1);
            cut.set(p2, n2);
            proof {
                lemma_swap_keeps_max(cbefore, p1 as int, p2 as int, n1, n2);
                let mid = wbefore.update(x as int, wbefore[b as int]);
                assert forall|p: int| 0 <= p < cut@.len() implies #[trigger] cut@[p] == range_weight(
                    work@,
                    q@[p] as int,
                    q@[p + 1] as int,
                ) by {
                    lemma_range_update(wbefore, q@[p] as int, q@[p + 1] as int, x as int, wbefore[b as int]);
                    lemma_range_update(mid, q@[p] as int, q@[p + 1] as int, b as int, wbefore[x as int]);
                    if p != p1 {
                        lemma_outside_other(q@, k as int, n, p1 as int, p, x as int);
                    }
                    if p != p2 {
                        lemma_outside_other(q@, k as int, n, p2 as int, p, b as int);
                    }
                }
            }
            swapped = true;
        }
        proof {
            if !swapped {
                assert forall|x2: int, y2: int|
                    lo1 <= x2 < x + 1 && lo2 <= y2 < hi2 implies !improves(
                    cut0[p1 as int] as int,
                    cut0[p2 as int] as int,
                    #[trigger] work0[x2].weight as int,
                    #[trigger] work0[y2].weight as int,
                ) by {}
            }
        }
        x += 1;
    }
    swapped
}

proof fn lemma_interval_bounds(q: Seq<usize>, k: int, n: int, r: int, p: int, j: int)
    requires
        offsets_ok(q, k, n),
        0 <= p < k,
        r >= 1,
        0 <= j < r,
    ensures
        q[p] <= interval_lo(q, r, p, j) <= interval_lo(q, r, p, j + 1) <= q[p + 1],
{
    let d = q[p + 1] - q[p];
    assert(q[p] <= q[p + 1]);
    assert(0 <= j * d <= (j + 1) * d <= r * d) by (nonlinear_arith)
        requires
            0 <= j < r,
            d >= 0,
    ;
    vstd::arithmetic::div_mod::lemma_div_is_ordered(j * d, (j + 1) * d, r);
    vstd::arithmetic::div_mod::lemma_div_is_ordered((j + 1) * d, r * d, r);
    vstd::arithmetic::div_mod::lemma_div_is_ordered(0, j * d, r);
    vstd::arithmetic::div_mod::lemma_div_multiples_vanish(d, r);
    assert(r * d == d * r) by (nonlinear_arith);
}

proof fn lemma_interval_order(q: Seq<usize>, k: int, n: int, r: int, p: int, j1: int, j2: int)
    requires
        offsets_ok(q, k, n),
        0 <= p < k,
        r >= 1,
        0 <= j1 < j2 <= r,
    ensures
        interval_lo(q, r, p, j1 + 1) <= interval_lo(q, r, p, j2),
{
    let d = q[p + 1] - q[p];
    assert(q[p] <= q[p + 1]);
    assert((j1 + 1) * d <= j2 * d) by (nonlinear_arith)
        requires
            j1 + 1 <= j2,
            d >= 0,
    ;
    vstd::arithmetic::div_mod::lemma_div_is_ordered((j1 + 1) * d, j2 * d, r);
}

/// A copy of `v`.
fn copy_nodes(v: &Vec<Node>) -> (r: Vec<Node>)
    ensures
        r@ == v@,
{
    let mut r: Vec<Node> = Vec::new();
    let mut i: usize = 0;
    while i < v.len()
        invariant
            i <= v.len(),
            r@ == v@.subrange(0, i as int),
        decreases v.len() - i,
    {
        r.push(v[i]);
        i += 1;
    }
    assert(r@ == v@.subrange(0, v.len() as int));
    r
}

/// `interval_lo(q, r, p, j)`.
fn interval_start(q: &Vec<usize>, k: usize, r: usize, p: usize, j: usize) -> (b: usize)
    requires
        offsets_ok(q@, k as int, q@[k as int] as int),
        p < k,
        r >= 1,
        j <= r,
    ensures
        b == interval_lo(q@, r as int, p as int, j as int),
        q@[p as int] <= b <= q@[p + 1],
{
    let base = q[p];
    let d = q[p + 1] - base;
    proof {
        if j < r {
            lemma_interval_bounds(q@, k as int, q@[k as int] as int, r as int, p as int, j as int);
        } else {
            lemma_interval_bounds(q@, k as int, q@[k as int] as int, r as int, p as int, j - 1);
        }
        assert(j as int * d as int <= 0xffff_ffff_ffff_ffff * 0xffff_ffff_ffff_ffffint) by (nonlinear_arith)
            requires
                j <= 0xffff_ffff_ffff_ffffint,
                d <= 0xffff_ffff_ffff_ffffint,
                j >= 0,
                d >= 0,
        ;
    }
    let off: u128 = ((j as u128) * (d as u128)) / (r as u128);
    base + off as usize
}

/// The node weight of every partition.
fn partition_weights(work: &Vec<Node>, q: &Vec<usize>, k: usize) -> (cut: Vec<usize>)
    requires
        offsets_ok(q@, k as int, work@.len() as int),
        q@[0] == 0,
        range_weight(work@, 0, work@.len() as int) <= usize::MAX,
    ensures
        cuts_match(work@, cut@, q@),
{
    let mut cut: Vec<usize> = Vec::new();
    let mut p: usize = 0;
    while p < k
        invariant
            offsets_ok(q@, k as int, work@.len() as int),
            q@[0] == 0,
            range_weight(work@, 0, work@.len() as int) <= usize::MAX,
            p <= k,
            cut@.len() == p,
            forall|a: int| 0 <= a < p ==> #[trigger] cut@[a] == range_weight(work@, q@[a] as int, q@[a + 1] as int),
        decreases k - p,
    {
        let lo = q[p];
        let hi = q[p + 1];
        let mut sum: usize = 0;
        let mut x = lo;
        proof {
            assert(q@[0] <= q@[p as int] && q@[p as int] <= q@[p + 1] && q@[p + 1] <= q@[k as int]);
        }
        while x < hi
            invariant
                0 <= lo <= x <= hi <= work@.len(),
                range_weight(work@, 0, work@.len() as int) <= usize::MAX,
                sum == range_weight(work@, lo as int, x as int),
            decreases hi - x,
        {
            proof {
                lemma_range_split(work@, 0, lo as int, x + 1);
                lemma_range_split(work@, 0, x + 1, work@.len() as int);
                lemma_range_nonneg(work@, 0, lo as int);
                lemma_range_nonneg(work@, x + 1, work@.len() as int);
            }
            sum = sum + work[x].weight;
            x += 1;
        }
        cut.push(sum);
        p += 1;
    }
    cut
}

/// Whether partition `u` ranks before partition `v`: heavier, or as heavy
/// with the lower index.
pub open spec fn ranks_before(cut: Seq<usize>, u: usize, v: usize) -> bool {
    cut[u as int] > cut[v as int] || (cut[u as int] == cut[v as int] && u < v)
}

/// Orders the partitions by descending weight, the lower index first among
/// equals.
pub fn rank_partitions(cut: &Vec<usize>) -> (rank: Vec<usize>)
    ensures
        is_ranking(rank@, cut@),
{
    let k = cut.len();
    let mut rank: Vec<usize> = Vec::new();
    let mut i: usize = 0;
    while i < k
        invariant
            i <= k,
            rank@.len() == i,
            forall|x: int| 0 <= x < i ==> rank@[x] == x,
        decreases k - i,
    {
        rank.push(i);
        i += 1;
    }
    let mut a: usize = 0;
    while a < k
        invariant
            k == cut.len(),
            a <= k,
            is_permutation(rank@, k as int),
            forall|x: int, z: int|
                0 <= x < a && x < z < k ==> ranks_before(cut@, rank@[x], rank@[z]),
        decreases k - a,
    {
        let mut m: usize = a;
        let mut z: usize = a + 1;
        while z < k
            invariant
                k == cut.len(),
                a < k,
                a <= m < k,
                a < z <= k,
                m < z,
                is_permutation(rank@, k as int),
                forall|y: int| a <= y < z && y != m ==> ranks_before(cut@, rank@[m as int], rank@[y]),
            decreases k - z,
        {
            let better = cut[rank[z]] > cut[rank[m]] || (cut[rank[z]] == cut[rank[m]] && rank[z] < rank[m]);
            if better {
                proof {
                    assert(rank@[z as int] != rank@[m as int]);
                }
                m = z;
            }
            z += 1;
        }
        let ghost before = rank@;
        let ra = rank[a];
        let rm = rank[m];
        rank.set(a, rm);
        rank.set(m, ra);
        proof {
            assert forall|x: int, y: int| 0 <= x < y < k implies rank@[x] != rank@[y] by {
                let sx = if x == a {
                    m as int
                } else if x == m {
                    a as int
                } else {
                    x
                };
                let sy = if y == a {
                    m as int
                } else if y == m {
                    a as int
                } else {
                    y
                };
                assert(rank@[x] == before[sx]);
                assert(rank@[y] == before[sy]);
            }
            assert forall|x: int| 0 <= x < k implies #[trigger] rank@[x] < k by {
                let sx = if x == a {
                    m as int
                } else if x == m {
                    a as int
                } else {
                    x
                };
                assert(rank@[x] == before[sx]);
            }
            assert forall|x: int, z2: int|
                0 <= x < a + 1 && x < z2 < k implies ranks_before(cut@, rank@[x], rank@[z2]) by {
                let sz = if z2 == a {
                    m as int
                } else if z2 == m {
                    a as int
                } else {
                    z2
                };
                assert(rank@[z2] == before[sz]);
                if x < a {
                    assert(rank@[x] == before[x]);
                }
            }
        }
        a += 1;
    }
    proof {
        assert forall|x: int, y: int| 0 <= x < y < rank.len() implies cut@[rank@[x] as int]
            > cut@[rank@[y] as int] || (cut@[rank@[x] as int] == cut@[rank@[y] as int] && rank@[x]
            < rank@[y]) by {
            assert(ranks_before(cut@, rank@[x], rank@[y]));
        }
    }
    rank
}

/// Whether every pair names two distinct partitions below `k`.
pub open spec fn pairs_ok(pairs: Seq<(usize, usize)>, k: int) -> bool {
    forall|a: int|
        0 <= a < pairs.len() ==> (#[trigger] pairs[a]).0 < k && pairs[a].1 < k && pairs[a].0
            != pairs[a].1
}

/// One pass over every pair of partitions and every pair of intervals,
/// exchanging elements wherever that makes the heavier partition of the
/// pair lighter. Says whether it exchanged anything.
fn swap_pass(
    work: &mut Vec<Node>,
    cut: &mut Vec<usize>,
    q: &Vec<usize>,
    k: usize,
    r: usize,
    pairing: &Vec<usize>,
    pairs: &Vec<(usize, usize)>,
) -> (swapped: bool)
    requires
        offsets_ok(q@, k as int, old(work)@.len() as int),
        cuts_match(old(work)@, old(cut)@, q@),
        r >= 1,
        is_permutation(pairing@, r as int),
        pairs_ok(pairs@, k as int),
        pairs_disjoint(pairs@),
    ensures
        final(work)@.len() == old(work)@.len(),
        final(work)@.to_multiset() == old(work)@.to_multiset(),
        cuts_match(final(work)@, final(cut)@, q@),
        seq_max(final(cut)@) <= seq_max(old(cut)@),
        forall|b: int|
            0 <= b < pairs@.len() ==> final(cut)@[(#[trigger] pairs@[b]).0 as int] + final(cut)@[pairs@[b].1 as int]
                == old(cut)@[pairs@[b].0 as int] + old(cut)@[pairs@[b].1 as int],
        gap_total(final(cut)@, pairs@) <= gap_total(old(cut)@, pairs@),
        swapped ==> gap_total(final(cut)@, pairs@) < gap_total(old(cut)@, pairs@),
        !swapped ==> final(work)@ == old(work)@ && final(cut)@ == old(cut)@ && local_optimum(
            final(work)@,
            final(cut)@,
            q@,
            r as int,
            pairing@,
            pairs@,
        ),
{
    let ghost work0 = work@;
    let ghost cut0 = cut@;
    let ghost n = work@.len() as int;
    let mut swapped = false;
    let mut a: usize = 0;
    while a < pairs.len()
        invariant
            pairs_disjoint(pairs@),
            cut@.len() == cut0.len(),
            forall|b: int|
                0 <= b < pairs@.len() ==> cut@[(#[trigger] pairs@[b]).0 as int] + cut@[pairs@[b].1 as int]
                    == cut0[pairs@[b].0 as int] + cut0[pairs@[b].1 as int],
            gap_total(cut@, pairs@) <= gap_total(cut0, pairs@),
            swapped ==> gap_total(cut@, pairs@) < gap_total(cut0, pairs@),
            offsets_ok(q@, k as int, n),
            work@.len() == n,
            cuts_match(work@, cut@, q@),
            r >= 1,
            is_permutation(pairing@, r as int),
            pairs_ok(pairs@, k as int),
            a <= pairs.len(),
            work@.to_multiset() == work0.to_multiset(),
            seq_max(cut@) <= seq_max(cut0),
            !swapped ==> work@ == work0 && cut@ == cut0 && forall|a2: int, j2: int|
                0 <= a2 < a && 0 <= j2 < r ==> #[trigger] exchange_settled(
                    work0,
                    cut0,
                    q@,
                    r as int,
                    pairing@,
                    pairs@,
                    a2,
                    j2,
                ),
        decreases pairs.len() - a,
    {
        let (p1, p2) = pairs[a];
        assert(pairs@[a as int].0 < k && pairs@[a as int].1 < k && pairs@[a as int].0 != pairs@[a as int].1);
        let mut j: usize = 0;
        while j < r
            invariant
                pairs_disjoint(pairs@),
                cut@.len() == cut0.len(),
                forall|b: int|
                    0 <= b < pairs@.len() ==> cut@[(#[trigger] pairs@[b]).0 as int] + cut@[pairs@[b].1 as int]
                        == cut0[pairs@[b].0 as int] + cut0[pairs@[b].1 as int],
                gap_total(cut@, pairs@) <= gap_total(cut0, pairs@),
                swapped ==> gap_total(cut@, pairs@) < gap_total(cut0, pairs@),
                offsets_ok(q@, k as int, n),
                work@.len() == n,
                cuts_match(work@, cut@, q@),
                r >= 1,
                is_permutation(pairing@, r as int),
                pairs_ok(pairs@, k as int),
                a < pairs.len(),
                p1 == pairs@[a as int].0,
                p2 == pairs@[a as int].1,
                p1 < k,
                p2 < k,
                p1 != p2,
                j <= r,
                work@.to_multiset() == work0.to_multiset(),
                seq_max(cut@) <= seq_max(cut0),
                !swapped ==> work@ == work0 && cut@ == cut0 && (forall|a2: int, j2: int|
                    0 <= a2 < a && 0 <= j2 < r ==> #[trigger] exchange_settled(
                        work0,
                        cut0,
                        q@,
                        r as int,
                        pairing@,
                        pairs@,
                        a2,
                        j2,
                    )) && (forall|j2: int|
                    0 <= j2 < j ==> #[trigger] exchange_settled(
                        work0,
                        cut0,
                        q@,
                        r as int,
                        pairing@,
                        pairs@,
                        a as int,
                        j2,
                    )),
            decreases r - j,
        {
            let i1 = pairing[j];
            proof {
                assert(pairing@[j as int] < r);
            }
            let lo1 = interval_start(q, k, r, p1, i1);
            let hi1 = interval_start(q, k, r, p1, i1 + 1);
            let lo2 = interval_start(q, k, r, p2, j);
            let hi2 = interval_start(q, k, r, p2, j + 1);
            proof {
                lemma_interval_bounds(q@, k as int, n, r as int, p1 as int, i1 as int);
                lemma_interval_bounds(q@, k as int, n, r as int, p2 as int, j as int);
            }
            let ghost wb = work@;
            let ghost cb = cut@;
            let s = exchange_intervals(work, cut, q, k, p1, p2, lo1, hi1, lo2, hi2);
            proof {
                assert(cuts_match(wb, cb, q@));
                assert forall|b: int| 0 <= b < pairs@.len() implies (#[trigger] pairs@[b]).0 < cb.len()
                    && pairs@[b].1 < cb.len() by {}
                lemma_gap_total_update(cb, cut@, pairs@, a as int);
                assert forall|b: int|
                    0 <= b < pairs@.len() implies cut@[(#[trigger] pairs@[b]).0 as int] + cut@[pairs@[b].1 as int]
                        == cut0[pairs@[b].0 as int] + cut0[pairs@[b].1 as int] by {
                    if b != a {
                        assert(pairs@[b].0 != p1 && pairs@[b].0 != p2);
                        assert(pairs@[b].1 != p1 && pairs@[b].1 != p2);
                    }
                }
            }
            if s {
                swapped = true;
            }
            proof {
                if !swapped {
                    assert(exchange_settled(work0, cut0, q@, r as int, pairing@, pairs@, a as int, j as int));
                }
            }
            j += 1;
        }
        a += 1;
    }
    proof {
        if !swapped {
            assert forall|a2: int, j2: int| 0 <= a2 < pairs@.len() && 0 <= j2 < r implies #[trigger] exchange_settled(
                work@,
                cut@,
                q@,
                r as int,
                pairing@,
                pairs@,
                a2,
                j2,
            ) by {}
        }
    }
    swapped
}

/// Whether `q` is a valid set of offsets: checked position by position.
fn offsets_valid(q: &Vec<usize>, k: usize, n: usize) -> (b: bool)
    ensures
        b == (q@.len() == k + 1 && q@[0] == 0 && q@[k as int] == n && forall|a: int, c: int|
            0 <= a <= c <= k ==> q@[a] <= q@[c]),
{
    if q.len() == 0 || q.len() - 1 != k || q[0] != 0 || q[k] != n {
        return false;
    }
    let mut i: usize = 0;
    while i < k
        invariant
            q@.len() == k + 1,
            i <= k,
            forall|a: int, c: int| 0 <= a <= c <= i ==> q@[a] <= q@[c],
        decreases k - i,
    {
        if q[i] > q[i + 1] {
            return false;
        }
        i += 1;
    }
    true
}

/// Whether `pairing` pairs the `r` intervals one to one.
pub fn pairing_valid(pairing: &Vec<usize>, r: usize) -> (b: bool)
    ensures
        b == is_permutation(pairing@, r as int),
{
    if pairing.len() != r {
        return false;
    }
    let mut seen: Vec<bool> = Vec::new();
    let mut i: usize = 0;
    while i < r
        invariant
            i <= r,
            seen@.len() == i,
            forall|x: int| 0 <= x < i ==> !seen@[x],
        decreases r - i,
    {
        seen.push(false);
        i += 1;
    }
    let mut i: usize = 0;
    while i < r
        invariant
            pairing@.len() == r,
            seen@.len() == r,
            i <= r,
            forall|x: int| 0 <= x < i ==> #[trigger] pairing@[x] < r,
            forall|x: int, y: int| 0 <= x < y < i ==> pairing@[x] != pairing@[y],
            forall|v: int| 0 <= v < r ==> (#[trigger] seen@[v] <==> exists|x: int| 0 <= x < i && pairing@[x] == v),
        decreases r - i,
    {
        let v = pairing[i];
        if v >= r {
            return false;
        }
        if seen[v] {
            proof {
                let x = choose|x: int| 0 <= x < i && pairing@[x] == v;
                assert(pairing@[x] == pairing@[i as int]);
            }
            return false;
        }
        let ghost before = seen@;
        seen.set(v, true);
        proof {
            assert forall|w: int| 0 <= w < r implies (#[trigger] seen@[w] <==> exists|x: int|
                0 <= x < i + 1 && pairing@[x] == w) by {
                if w == v {
                    assert(pairing@[i as int] == w);
                } else if seen@[w] {
                    assert(before[w]);
                    let x = choose|x: int| 0 <= x < i && pairing@[x] == w;
                    assert(0 <= x < i + 1 && pairing@[x] == w);
                } else if exists|x: int| 0 <= x < i + 1 && pairing@[x] == w {
                    let x = choose|x: int| 0 <= x < i + 1 && pairing@[x] == w;
                    assert(x < i);
                }
            }
            assert forall|x: int, y: int| 0 <= x < y < i + 1 implies pairing@[x] != pairing@[y] by {
                if y == i {
                    if pairing@[x] == pairing@[y] {
                        assert(before[v as int]);
                    }
                }
            }
        }
        i += 1;
    }
    true
}

/// Whether the total node weight of the line fits a machine word.
pub fn line_weight_fits(line: &Vec<Node>) -> (b: bool)
    ensures
        b == (range_weight(line@, 0, line@.len() as int) <= usize::MAX),
{
    let mut total: u128 = 0;
    let mut i: usize = 0;
    while i < line.len()
        invariant
            i <= line.len(),
            total == range_weight(line@, 0, i as int),
            total <= usize::MAX,
        decreases line.len() - i,
    {
        total = total + line[i].weight as u128;
        if total > usize::MAX as u128 {
            proof {
                lemma_range_split(line@, 0, i + 1, line@.len() as int);
                lemma_range_nonneg(line@, i + 1, line@.len() as int);
            }
            return false;
        }
        i += 1;
    }
    true
}

/// The outcome of a rank-swap balancing run.
pub struct SwapOutcome {
    /// The line after the exchanges.
    pub line: Vec<Node>,
    /// The line once every interval was sorted, before any exchange.
    pub sorted_line: Vec<Node>,
    /// The weight of every partition before any exchange.
    pub initial_cut_size: Vec<usize>,
    /// The weight of every partition at the end.
    pub cut_size: Vec<usize>,
    /// The partitions by descending initial weight.
    pub rank: Vec<usize>,
    /// The paired partitions: heaviest with lightest, and so on inwards.
    pub pairs: Vec<(usize, usize)>,
    /// Whether a pass ended without an exchange.
    pub converged: bool,
    /// The number of passes run.
    pub passes: usize,
}

/// Balances `k` partitions of the line (partition `p` holds positions
/// `q[p]..q[p+1]`) by exchanging elements between paired partitions.
///
/// Each partition is cut into `r` intervals, each sorted by descending
/// weight. Partitions are ranked by weight and paired heaviest with
/// lightest; interval `pairing[j]` of the first partition of a pair is
/// paired with interval `j` of the second. A pass goes over every pair and
/// every interval pair and, for each element of the first interval, makes
/// the exchange with the element of the second that leaves the heavier
/// partition lightest, when that is strictly lighter than before. Passes
/// repeat until one exchanges nothing, or `max_passes` have run.
pub fn rank_swap(
    line: &Vec<Node>,
    k: usize,
    r: usize,
    q: &Vec<usize>,
    pairing: &Vec<usize>,
    max_passes: usize,
) -> (res: Result<SwapOutcome, ClusterError>)
    requires
        range_weight(line@, 0, line@.len() as int) <= usize::MAX,
    ensures
        line.len() == 0 ==> res == Err::<SwapOutcome, ClusterError>(ClusterError::EmptyInput),
        line.len() > 0 && (k == 0 || k > line.len() || k % 2 == 1) ==> res == Err::<
            SwapOutcome,
            ClusterError,
        >(ClusterError::InvalidPartitionCount),
        line.len() > 0 && 1 <= k <= line.len() && k % 2 == 0 && !valid_layout(
            line.len() as int,
            k as int,
            r as int,
            q@,
            pairing@,
        ) ==> res == Err::<SwapOutcome, ClusterError>(ClusterError::InvalidLayout),
        line.len() > 0 && 1 <= k <= line.len() && k % 2 == 0 && valid_layout(
            line.len() as int,
            k as int,
            r as int,
            q@,
            pairing@,
        ) ==> res is Ok,
        res is Ok ==> {
            let out = res->Ok_0;
            &&& out.line@.to_multiset() == line@.to_multiset()
            &&& out.sorted_line@.to_multiset() == line@.to_multiset()
            &&& intervals_sorted(out.sorted_line@, q@, k as int, r as int)
            &&& cuts_match(out.sorted_line@, out.initial_cut_size@, q@)
            &&& cuts_match(line@, out.initial_cut_size@, q@)
            &&& cuts_match(out.line@, out.cut_size@, q@)
            &&& seq_max(out.cut_size@) <= seq_max(out.initial_cut_size@)
            &&& is_ranking(out.rank@, out.initial_cut_size@)
            &&& out.pairs.len() == k / 2
            &&& forall|a: int|
                0 <= a < k / 2 ==> #[trigger] out.pairs[a] == (out.rank[a], out.rank[k - 1 - a])
            &&& out.passes <= max_passes
            &&& !out.converged ==> out.passes == max_passes
            &&& max_passes > gap_total(out.initial_cut_size@, out.pairs@) ==> out.converged
            &&& forall|a: int|
                0 <= a < k / 2 ==> out.cut_size@[(#[trigger] out.pairs@[a]).0 as int] + out.cut_size@[out.pairs@[a].1 as int]
                    == out.initial_cut_size@[out.pairs@[a].0 as int] + out.initial_cut_size@[out.pairs@[a].1 as int]
            &&& out.converged ==> local_optimum(
                out.line@,
                out.cut_size@,
                q@,
                r as int,
                pairing@,
                out.pairs@,
            )
        },
{
    let n = line.len();
    if n == 0 {
        return Err(ClusterError::EmptyInput);
    }
    if k == 0 || k > n || k % 2 == 1 {
        return Err(ClusterError::InvalidPartitionCount);
    }
    if !offsets_valid(q, k, n) || r == 0 || !pairing_valid(pairing, r) {
        return Err(ClusterError::InvalidLayout);
    }
    let mut work: Vec<Node> = Vec::new();
    let mut i: usize = 0;
    while i < n
        invariant
            i <= n,
            n == line.len(),
            work@ == line@.subrange(0, i as int),
        decreases n - i,
    {
        work.push(line[i]);
        i += 1;
    }
    assert(work@ == line@.subrange(0, n as int));
    assert(work@ == line@);
    let mut p: usize = 0;
    while p < k
        invariant
            offsets_ok(q@, k as int, n as int),
            q@[0] == 0,
            r >= 1,
            p <= k,
            work@.len() == n,
            work@.to_multiset() == line@.to_multiset(),
            range_weight(work@, 0, n as int) == range_weight(line@, 0, n as int),
            forall|p2: int|
                0 <= p2 < k ==> #[trigger] range_weight(work@, q@[p2] as int, q@[p2 + 1] as int)
                    == range_weight(line@, q@[p2] as int, q@[p2 + 1] as int),
            forall|p2: int, j2: int|
                0 <= p2 < p && 0 <= j2 < r ==> #[trigger] interval_sorted(work@, q@, r as int, p2, j2),
        decreases k - p,
    {
        let mut j: usize = 0;
        while j < r
            invariant
                offsets_ok(q@, k as int, n as int),
                q@[0] == 0,
                r >= 1,
                p < k,
                j <= r,
                work@.len() == n,
                work@.to_multiset() == line@.to_multiset(),
                range_weight(work@, 0, n as int) == range_weight(line@, 0, n as int),
                forall|p2: int|
                    0 <= p2 < k ==> #[trigger] range_weight(work@, q@[p2] as int, q@[p2 + 1] as int)
                        == range_weight(line@, q@[p2] as int, q@[p2 + 1] as int),
                forall|p2: int, j2: int|
                    0 <= p2 < p && 0 <= j2 < r ==> #[trigger] interval_sorted(work@, q@, r as int, p2, j2),
                forall|j2: int| 0 <= j2 < j ==> #[trigger] interval_sorted(work@, q@, r as int, p as int, j2),
            decreases r - j,
        {
            let lo = interval_start(q, k, r, p, j);
            let hi = interval_start(q, k, r, p, j + 1);
            proof {
                lemma_interval_bounds(q@, k as int, n as int, r as int, p as int, j as int);
                assert(q@[0] <= q@[p as int]);
                assert(q@[p + 1] <= q@[k as int]);
            }
            let ghost before = work@;
            sort_interval(&mut work, lo, hi);
            proof {
                assert forall|p2: int|
                    0 <= p2 < k implies #[trigger] range_weight(work@, q@[p2] as int, q@[p2 + 1] as int)
                        == range_weight(line@, q@[p2] as int, q@[p2 + 1] as int) by {
                    assert(q@[0] <= q@[p2] <= q@[p2 + 1] <= q@[k as int]);
                    if p2 < p {
                        assert(q@[p2 + 1] <= q@[p as int]);
                    } else if p2 > p {
                        assert(q@[p + 1] <= q@[p2]);
                    }
                    assert(range_weight(work@, q@[p2] as int, q@[p2 + 1] as int) == range_weight(
                        before,
                        q@[p2] as int,
                        q@[p2 + 1] as int,
                    ));
                }
                assert forall|p2: int, j2: int|
                    0 <= p2 < p && 0 <= j2 < r implies #[trigger] interval_sorted(work@, q@, r as int, p2, j2) by {
                    assert(interval_sorted(before, q@, r as int, p2, j2));
                    lemma_interval_bounds(q@, k as int, n as int, r as int, p2, j2);
                    assert(q@[p2 + 1] <= q@[p as int]);
                    assert forall|x: int, y: int|
                        interval_lo(q@, r as int, p2, j2) <= x < y < interval_lo(q@, r as int, p2, j2 + 1) implies
                        (#[trigger] work@[x]).weight >= (#[trigger] work@[y]).weight by {
                        assert(work@[x] == before[x] && work@[y] == before[y]);
                    }
                }
                assert forall|j2: int| 0 <= j2 < j + 1 implies #[trigger] interval_sorted(work@, q@, r as int, p as int, j2) by {
                    if j2 < j {
                        assert(interval_sorted(before, q@, r as int, p as int, j2));
                        lemma_interval_order(q@, k as int, n as int, r as int, p as int, j2, j as int);
                        lemma_interval_bounds(q@, k as int, n as int, r as int, p as int, j2);
                        assert forall|x: int, y: int|
                            interval_lo(q@, r as int, p as int, j2) <= x < y < interval_lo(q@, r as int, p as int, j2 + 1) implies
                            (#[trigger] work@[x]).weight >= (#[trigger] work@[y]).weight by {
                            assert(work@[x] == before[x] && work@[y] == before[y]);
                        }
                    }
                }
            }
            j += 1;
        }
        p += 1;
    }
    let sorted_line = copy_nodes(&work);
    let mut cut = partition_weights(&work, q, k);
    let initial_cut_size = partition_weights(line, q, k);
    proof {
        assert(cut@ =~= initial_cut_size@);
    }
    let rank = rank_partitions(&initial_cut_size);
    let mut pairs: Vec<(usize, usize)> = Vec::new();
    let mut a: usize = 0;
    while a < k / 2
        invariant
            k % 2 == 0,
            a <= k / 2,
            is_permutation(rank@, k as int),
            pairs@.len() == a,
            forall|x: int| 0 <= x < a ==> #[trigger] pairs@[x] == (rank@[x], rank@[k - 1 - x]),
        decreases k / 2 - a,
    {
        pairs.push((rank[a], rank[k - 1 - a]));
        a += 1;
    }
    proof {
        assert forall|x: int| 0 <= x < pairs@.len() implies (#[trigger] pairs@[x]).0 < k && pairs@[x].1
            < k && pairs@[x].0 != pairs@[x].1 by {
            assert(rank@[x] < k);
            assert(rank@[k - 1 - x] < k);
        }
    }
    proof {
        assert(pairs_disjoint(pairs@)) by {
            assert forall|x: int| 0 <= x < pairs@.len() implies (#[trigger] pairs@[x]).0 != pairs@[x].1 by {
                assert(x != k - 1 - x);
            }
            assert forall|x: int, y: int|
                0 <= x < pairs@.len() && 0 <= y < pairs@.len() && x != y implies (#[trigger] pairs@[x]).0
                    != (#[trigger] pairs@[y]).0 && pairs@[x].0 != pairs@[y].1 && pairs@[x].1 != pairs@[y].0
                    && pairs@[x].1 != pairs@[y].1 by {
                assert(x != k - 1 - y && y != k - 1 - x && k - 1 - x != k - 1 - y);
            }
        }
        lemma_gap_total_nonneg(cut@, pairs@);
    }
    let ghost cut0 = cut@;
    let mut passes: usize = 0;
    let mut converged = false;
    while passes < max_passes && !converged
        invariant
            pairs_disjoint(pairs@),
            cut@.len() == cut0.len(),
            forall|b: int|
                0 <= b < pairs@.len() ==> cut@[(#[trigger] pairs@[b]).0 as int] + cut@[pairs@[b].1 as int]
                    == cut0[pairs@[b].0 as int] + cut0[pairs@[b].1 as int],
            !converged ==> gap_total(cut@, pairs@) + passes <= gap_total(cut0, pairs@),
            gap_total(cut@, pairs@) >= 0,
            offsets_ok(q@, k as int, n as int),
            r >= 1,
            is_permutation(pairing@, r as int),
            pairs_ok(pairs@, k as int),
            work@.len() == n,
            work@.to_multiset() == line@.to_multiset(),
            cuts_match(work@, cut@, q@),
            seq_max(cut@) <= seq_max(cut0),
            passes <= max_passes,
            converged ==> local_optimum(work@, cut@, q@, r as int, pairing@, pairs@),
        decreases max_passes - passes,
    {
        passes += 1;
        let swapped = swap_pass(&mut work, &mut cut, q, k, r, pairing, &pairs);
        proof {
            lemma_gap_total_nonneg(cut@, pairs@);
        }
        if !swapped {
            converged = true;
        }
    }
    Ok(
        SwapOutcome {
            line: work,
            sorted_line,
            initial_cut_size,
            cut_size: cut,
            rank,
            pairs,
            converged,
            passes,
        },
    )
}

} // verus!
