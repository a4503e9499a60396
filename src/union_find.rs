use crate::error::ClusterError;
use vstd::prelude::*;

verus! {

/// Union-find over vertex identifiers below `universe()`, keeping for every
/// root the ordered list of the original vertices now merged under it.
///
/// Every registered vertex points straight at its root, so a lookup is one
/// step; a union relabels the members of the smaller set.
pub struct ArrayUnion {
    group: Vec<usize>,
    size: Vec<usize>,
    items: Vec<Vec<usize>>,
    present: Vec<bool>,
}

impl ArrayUnion {
    /// One more than the largest identifier the structure can hold.
    pub closed spec fn universe(&self) -> nat {
        self.group@.len()
    }

    /// Whether `x` was registered.
    pub closed spec fn contains(&self, x: usize) -> bool {
        x < self.group@.len() && self.present@[x as int]
    }

    /// The root that a registered vertex belongs to.
    pub closed spec fn root_of(&self, x: usize) -> usize {
        self.group@[x as int]
    }

    /// Whether `r` is the root of a live cluster.
    pub closed spec fn is_root(&self, r: usize) -> bool {
        self.contains(r) && self.group@[r as int] == r
    }

    /// The vertices merged under `r`, in merge order (empty unless `r` is a root).
    pub closed spec fn members(&self, r: usize) -> Seq<usize> {
        self.items@[r as int]@
    }

    /// The roots of the live clusters.
    pub open spec fn root_set(&self) -> Set<usize> {
        Set::new(|r: usize| self.is_root(r))
    }

    /// The live roots below `n`, ascending.
    pub open spec fn roots_upto(&self, n: nat) -> Seq<usize>
        decreases n,
    {
        if n == 0 {
            Seq::empty()
        } else if self.is_root((n - 1) as usize) {
            self.roots_upto((n - 1) as nat).push((n - 1) as usize)
        } else {
            self.roots_upto((n - 1) as nat)
        }
    }

    /// The root that survives a union of the roots `a` and `b`: the larger
    /// set's, and `b` on equal sizes.
    pub open spec fn survivor(&self, a: usize, b: usize) -> usize {
        if self.members(a).len() > self.members(b).len() {
            a
        } else {
            b
        }
    }

    /// The root that a union of `a` and `b` absorbs.
    pub open spec fn absorbed(&self, a: usize, b: usize) -> usize {
        if self.members(a).len() > self.members(b).len() {
            b
        } else {
            a
        }
    }

    /// The structure's invariant: every registered vertex is listed under
    /// exactly its own root, lists hold no repeats, and each root's recorded
    /// size is the length of its list.
    pub closed spec fn wf(&self) -> bool {
        &&& self.size@.len() == self.universe()
        &&& self.items@.len() == self.universe()
        &&& self.present@.len() == self.universe()
        &&& forall|x: usize| #[trigger]
            self.contains(x) ==> self.is_root(self.root_of(x)) && self.members(
                self.root_of(x),
            ).contains(x)
        &&& forall|r: usize, i: int|
            r < self.universe() && 0 <= i < self.members(r).len() ==> self.contains(
                #[trigger] self.members(r)[i],
            ) && self.root_of(self.members(r)[i]) == r
        &&& forall|r: usize| r < self.universe() ==> (#[trigger] self.members(r)).no_duplicates()
        &&& forall|r: usize|
            r < self.universe() ==> #[trigger] self.size@[r as int] == self.members(r).len()
        &&& forall|r: usize|
            r < self.universe() && !self.is_root(r) ==> #[trigger] self.members(r).len() == 0
    }

    /// The size recorded for `r`.
    pub closed spec fn recorded_size(&self, r: usize) -> nat {
        self.size@[r as int] as nat
    }

    /// Every registered vertex's root records as its size the length of its
    /// member list, and the vertex appears in the member list of that root
    /// and of no other. The structure is built well formed and every union
    /// keeps it so, so this holds after any sequence of unions.
    pub proof fn lemma_union_find_invariant(&self)
        requires
            self.wf(),
        ensures
            forall|x: usize| #[trigger]
                self.contains(x) ==> self.recorded_size(self.root_of(x)) == self.members(
                    self.root_of(x),
                ).len() && self.members(self.root_of(x)).contains(x) && forall|r: usize|
                    #[trigger] self.is_root(r) && self.members(r).contains(x) ==> r == self.root_of(x),
    {
        assert forall|x: usize| #[trigger] self.contains(x) implies self.recorded_size(
            self.root_of(x),
        ) == self.members(self.root_of(x)).len() && self.members(self.root_of(x)).contains(x)
            && forall|r: usize| #[trigger]
            self.is_root(r) && self.members(r).contains(x) ==> r == self.root_of(x) by {
            assert forall|r: usize| #[trigger]
                self.is_root(r) && self.members(r).contains(x) implies r == self.root_of(x) by {
                let i = self.members(r).index_of(x);
                assert(self.members(r)[i] == x);
            }
        }
    }

    /// The invariant's consequences that callers rely on: a registered
    /// vertex is listed under its root and under no other, and every listed
    /// vertex is registered.
    pub proof fn lemma_partition(&self)
        requires
            self.wf(),
        ensures
            forall|x: usize| #[trigger]
                self.contains(x) ==> self.is_root(self.root_of(x)) && self.members(
                    self.root_of(x),
                ).contains(x),
            forall|x: usize, r: usize|
                r < self.universe() && #[trigger] self.members(r).contains(x) ==> self.contains(x)
                    && self.root_of(x) == r,
            forall|r: usize| r < self.universe() ==> (#[trigger] self.members(r)).no_duplicates(),
            forall|r: usize|
                r < self.universe() && !self.is_root(r) ==> #[trigger] self.members(r).len() == 0,
            forall|r: usize| #[trigger]
                self.is_root(r) ==> r < self.universe() && self.contains(r) && self.root_of(r) == r,
            forall|r: usize| self.contains(r) && #[trigger] self.root_of(r) == r ==> self.is_root(r),
    {
        assert forall|x: usize, r: usize|
            r < self.universe() && #[trigger] self.members(r).contains(x) implies self.contains(x)
            && self.root_of(x) == r by {
            let i = self.members(r).index_of(x);
            assert(self.members(r)[i] == x);
        }
    }

    /// Registers every vertex of `v` as a cluster of its own.
    pub fn new_and_init(v: Vec<usize>) -> (uf: ArrayUnion)
        requires
            forall|i: int| 0 <= i < v.len() ==> v[i] < usize::MAX,
        ensures
            uf.wf(),
            forall|x: usize| #[trigger] uf.contains(x) <==> v@.contains(x),
            forall|x: usize| #[trigger]
                uf.contains(x) ==> uf.root_of(x) == x && uf.members(x) == seq![x],
            forall|i: int| 0 <= i < v.len() ==> v[i] < uf.universe(),
    {
        let mut n: usize = 0;
        let mut i: usize = 0;
        while i < v.len()
            invariant
                i <= v.len(),
                forall|j: int| 0 <= j < v.len() ==> v[j] < usize::MAX,
                forall|j: int| 0 <= j < i ==> v[j] < n,
            decreases v.len() - i,
        {
            if v[i] >= n {
                n = v[i] + 1;
            }
            i += 1;
        }
        let mut uf = ArrayUnion {
            group: Vec::new(),
            size: Vec::new(),
            items: Vec::new(),
            present: Vec::new(),
        };
        let mut x: usize = 0;
        while x < n
            invariant
                x <= n,
                uf.group@.len() == x,
                uf.size@.len() == x,
                uf.items@.len() == x,
                uf.present@.len() == x,
                forall|y: int| 0 <= y < x ==> uf.group@[y] == y,
                forall|y: int| 0 <= y < x ==> uf.size@[y] == 0,
                forall|y: int| 0 <= y < x ==> uf.items@[y]@.len() == 0,
                forall|y: int| 0 <= y < x ==> !uf.present@[y],
            decreases n - x,
        {
            uf.group.push(x);
            uf.size.push(0);
            uf.items.push(Vec::new());
            uf.present.push(false);
            x += 1;
        }
        let mut i: usize = 0;
        while i < v.len()
            invariant
                i <= v.len(),
                forall|j: int| 0 <= j < v.len() ==> v[j] < n,
                uf.group@.len() == n,
                uf.size@.len() == n,
                uf.items@.len() == n,
                uf.present@.len() == n,
                forall|y: int| 0 <= y < n ==> uf.group@[y] == y,
                forall|y: usize|
                    y < n ==> (#[trigger] uf.present@[y as int] <==> v@.subrange(
                        0,
                        i as int,
                    ).contains(y)),
                forall|y: usize|
                    y < n && #[trigger] uf.present@[y as int] ==> uf.size@[y as int] == 1
                        && uf.items@[y as int]@ == seq![y],
                forall|y: usize|
                    y < n && !#[trigger] uf.present@[y as int] ==> uf.size@[y as int] == 0
                        && uf.items@[y as int]@.len() == 0,
            decreases v.len() - i,
        {
            let y = v[i];
            let ghost before = uf;
            uf.present.set(y, true);
            uf.size.set(y, 1);
            uf.items.set(y, vec![y]);
            proof {
                assert(uf.items@[y as int]@ =~= seq![y]);
                assert forall|z: usize|
                    z < n && uf.present@[z as int] implies uf.size@[z as int] == 1
                    && uf.items@[z as int]@ == seq![z] by {
                    if z != y {
                        assert(before.present@[z as int]);
                        assert(before.size@[z as int] == 1);
                    }
                }
                assert forall|z: usize|
                    z < n && !uf.present@[z as int] implies uf.size@[z as int] == 0
                    && uf.items@[z as int]@.len() == 0 by {
                    assert(!before.present@[z as int]);
                }
                let prev = v@.subrange(0, i as int);
                assert(v@.subrange(0, i + 1) == prev.push(y));
                assert forall|z: usize| z < n implies (#[trigger] uf.present@[z as int]
                    <==> v@.subrange(0, i + 1).contains(z)) by {
                    if z == y {
                        assert(prev.push(y)[i as int] == y);
                    } else if prev.push(y).contains(z) {
                        let j = prev.push(y).index_of(z);
                        assert(prev[j] == z);
                    } else if prev.contains(z) {
                        let j = prev.index_of(z);
                        assert(prev.push(y)[j] == z);
                    }
                }
            }
            i += 1;
        }
        proof {
            assert(v@.subrange(0, v.len() as int) == v@);
            assert forall|x: usize| #[trigger]
                uf.contains(x) implies uf.is_root(uf.root_of(x)) && uf.members(
                    uf.root_of(x),
                ).contains(x) by {
                assert(uf.present@[x as int]);
                assert(uf.items@[x as int]@ == seq![x]);
                assert(uf.members(x)[0] == x);
            }
            assert forall|x: usize| #[trigger] uf.contains(x) <==> v@.contains(x) by {
                if v@.contains(x) {
                    let j = v@.index_of(x);
                    assert(v[j] < n);
                }
            }
            assert forall|r: usize, i: int|
                r < uf.universe() && 0 <= i < uf.members(r).len() implies uf.contains(
                #[trigger] uf.members(r)[i],
            ) && uf.root_of(uf.members(r)[i]) == r by {
                assert(uf.present@[r as int]);
                assert(uf.members(r) == seq![r]);
                assert(uf.members(r)[i] == r);
            }
            assert forall|r: usize| r < uf.universe() implies (#[trigger] uf.members(
                r,
            )).no_duplicates() by {
                if uf.present@[r as int] {
                    assert(uf.members(r) == seq![r]);
                }
            }
            assert forall|r: usize| r < uf.universe() implies #[trigger] uf.size@[r as int]
                == uf.members(r).len() by {
                if uf.present@[r as int] {
                    assert(uf.members(r) == seq![r]);
                }
            }
        }
        uf
    }

    /// The root of `target`, or `NotFound` when it was never registered.
    pub fn find(&self, target: usize) -> (r: Result<usize, ClusterError>)
        requires
            self.wf(),
        ensures
            self.contains(target) ==> r == Ok::<usize, ClusterError>(self.root_of(target))
                && self.is_root(self.root_of(target)),
            !self.contains(target) ==> r == Err::<usize, ClusterError>(ClusterError::NotFound),
    {
        if target < self.group.len() && self.present[target] {
            Ok(self.group[target])
        } else {
            Err(ClusterError::NotFound)
        }
    }

    /// The root of a vertex known to be registered.
    pub fn root(&self, target: usize) -> (r: usize)
        requires
            self.wf(),
            self.contains(target),
        ensures
            r == self.root_of(target),
            self.is_root(r),
    {
        self.group[target]
    }

    /// Whether `x` was registered.
    pub fn has_vertex(&self, x: usize) -> (r: bool)
        requires
            self.wf(),
        ensures
            r == self.contains(x),
    {
        x < self.group.len() && self.present[x]
    }

    /// Whether `r` is the root of a live cluster.
    pub fn is_live_root(&self, r: usize) -> (b: bool)
        requires
            self.wf(),
        ensures
            b == self.is_root(r),
    {
        r < self.group.len() && self.present[r] && self.group[r] == r
    }

    /// The number of vertices merged under `r` (zero unless `r` is a root).
    pub fn cluster_size(&self, r: usize) -> (s: usize)
        requires
            self.wf(),
        ensures
            r < self.universe() ==> s == self.members(r).len(),
            r >= self.universe() ==> s == 0,
    {
        if r < self.size.len() {
            self.size[r]
        } else {
            0
        }
    }

    /// The vertices merged under `r`, in merge order (empty unless `r` is a root).
    pub fn cluster_members(&self, r: usize) -> (m: Vec<usize>)
        requires
            self.wf(),
        ensures
            r < self.universe() ==> m@ == self.members(r),
            r >= self.universe() ==> m@.len() == 0,
    {
        let mut m: Vec<usize> = Vec::new();
        if r < self.items.len() {
            let list = &self.items[r];
            let mut i: usize = 0;
            while i < list.len()
                invariant
                    i <= list.len(),
                    m@ == list@.subrange(0, i as int),
                decreases list.len() - i,
            {
                m.push(list[i]);
                i += 1;
            }
            assert(m@ == list@.subrange(0, list.len() as int));
        }
        m
    }

    /// Merges the clusters rooted at `a` and `b`. The smaller cluster is
    /// absorbed into the larger (into `b` on equal sizes): its members are
    /// appended to the survivor's list and the absorbed root stops being a
    /// root. Unless both are distinct live roots nothing changes.
    pub fn union(&mut self, a: usize, b: usize)
        requires
            old(self).wf(),
        ensures
            final(self).wf(),
            final(self).universe() == old(self).universe(),
            forall|x: usize| #[trigger] final(self).contains(x) == old(self).contains(x),
            forall|x: usize, y: usize|
                final(self).contains(x) && final(self).contains(y) && old(self).root_of(x)
                    == old(self).root_of(y) ==> #[trigger] final(self).root_of(x)
                    == #[trigger] final(self).root_of(y),
            old(self).is_root(a) && old(self).is_root(b)
                ==> final(self).root_of(a) == final(self).root_of(b),
            !(old(self).is_root(a) && old(self).is_root(b) && a != b) ==> *final(self) == *old(self),
            old(self).is_root(a) && old(self).is_root(b) && a != b ==> {
                let s = old(self).absorbed(a, b);
                let t = old(self).survivor(a, b);
                &&& final(self).members(t) == old(self).members(t) + old(self).members(s)
                &&& final(self).members(s).len() == 0
                &&& forall|r: usize|
                    r < old(self).universe() && r != s && r != t ==> #[trigger] final(self).members(r)
                        == old(self).members(r)
                &&& forall|x: usize| #[trigger]
                    final(self).contains(x) ==> final(self).root_of(x) == if old(self).root_of(x)
                        == s {
                        t
                    } else {
                        old(self).root_of(x)
                    }
                &&& forall|r: usize| #[trigger]
                    final(self).is_root(r) == (old(self).is_root(r) && r != s)
            },
    {
        if a >= self.group.len() || b >= self.group.len() || a == b {
            return ;
        }
        if !self.present[a] || !self.present[b] || self.group[a] != a || self.group[b] != b {
            return ;
        }
        let (s, t) = if self.size[a] > self.size[b] {
            (b, a)
        } else {
            (a, b)
        };
        let ghost old_uf = *self;
        let ghost n = self.universe();
        let ghost ms = old_uf.members(s);
        let ghost mt = old_uf.members(t);
        proof {
            assert forall|j: int| 0 <= j < ms.len() implies ms[j] < n by {
                assert(old_uf.contains(ms[j]));
            }
        }
        let mut moved: Vec<usize> = Vec::new();
        self.items.set_and_swap(s, &mut moved);
        let ghost items1 = self.items@;
        relabel(&mut self.group, &moved, t);
        let mut list_t: Vec<usize> = Vec::new();
        self.items.set_and_swap(t, &mut list_t);
        let ghost items2 = self.items@;
        list_t.append(&mut moved);
        let new_len = list_t.len();
        self.items.set_and_swap(t, &mut list_t);
        proof {
            assert forall|r: usize| r < n && r != s && r != t implies self.items@[r as int]
                == old_uf.items@[r as int] by {
                assert(items1[r as int] == old_uf.items@[r as int]);
                assert(items2[r as int] == items1[r as int]);
            }
        }
        self.size.set(t, new_len);
        self.size.set(s, 0);
        proof {
            assert(self.members(t) == mt + ms);
            assert(self.members(s).len() == 0);
            assert forall|r: usize| r < n && r != s && r != t implies #[trigger] self.members(r)
                == old_uf.members(r) by {
                assert(self.items@[r as int] == old_uf.items@[r as int]);
            }
            assert forall|y: usize| y < n && ms.contains(y) implies old_uf.root_of(y) == s by {
                let j = ms.index_of(y);
                assert(ms[j] == y);
            }
            assert forall|y: usize| #[trigger]
                self.contains(y) implies self.root_of(y) == if old_uf.root_of(y) == s {
                t
            } else {
                old_uf.root_of(y)
            } by {
                assert(old_uf.contains(y));
                if old_uf.root_of(y) == s {
                    assert(old_uf.members(s).contains(y));
                }
            }
            assert((mt + ms).no_duplicates()) by {
                assert forall|p: int, q: int|
                    0 <= p < q < (mt + ms).len() implies (mt + ms)[p] != (mt + ms)[q] by {
                    if p < mt.len() && q >= mt.len() {
                        assert(old_uf.root_of(mt[p]) == t);
                        assert(old_uf.root_of(ms[q - mt.len()]) == s);
                    }
                }
            }
            assert forall|x: usize| #[trigger]
                self.contains(x) implies self.is_root(self.root_of(x)) && self.members(
                    self.root_of(x),
                ).contains(x) by {
                let r0 = old_uf.root_of(x);
                assert(old_uf.contains(x));
                assert(old_uf.members(r0).contains(x));
                if r0 == s {
                    let j = ms.index_of(x);
                    assert((mt + ms)[mt.len() + j] == x);
                } else if r0 == t {
                    let j = mt.index_of(x);
                    assert((mt + ms)[j] == x);
                } else {
                    assert(!ms.contains(r0)) by {
                        if ms.contains(r0) {
                            let j = ms.index_of(r0);
                            assert(old_uf.root_of(ms[j]) == s);
                        }
                    }
                    assert(self.members(r0) == old_uf.members(r0));
                }
            }
            assert forall|r: usize, i: int|
                r < self.universe() && 0 <= i < self.members(r).len() implies self.contains(
                #[trigger] self.members(r)[i],
            ) && self.root_of(self.members(r)[i]) == r by {
                if r == t {
                    if i < mt.len() {
                        assert(self.members(r)[i] == mt[i]);
                        assert(old_uf.root_of(mt[i]) == t);
                        assert(!ms.contains(mt[i])) by {
                            if ms.contains(mt[i]) {
                                let j = ms.index_of(mt[i]);
                                assert(old_uf.root_of(ms[j]) == s);
                            }
                        }
                    } else {
                        assert(self.members(r)[i] == ms[i - mt.len()]);
                        assert(ms.contains(ms[i - mt.len()]));
                        assert(old_uf.contains(ms[i - mt.len()]));
                    }
                } else if r != s {
                    assert(self.members(r) == old_uf.members(r));
                    let y = self.members(r)[i];
                    assert(old_uf.root_of(y) == r);
                    assert(!ms.contains(y)) by {
                        if ms.contains(y) {
                            let j = ms.index_of(y);
                            assert(old_uf.root_of(ms[j]) == s);
                        }
                    }
                }
            }
            assert forall|r: usize| #[trigger]
                self.is_root(r) == (old_uf.is_root(r) && r != s) by {
                if old_uf.contains(r) && ms.contains(r) {
                    let j = ms.index_of(r);
                    assert(old_uf.root_of(ms[j]) == s);
                }
            }
            assert forall|r: usize| r < n && !self.is_root(r) implies #[trigger] self.members(
                r,
            ).len() == 0 by {
                if r != s && r != t {
                    assert(self.members(r) == old_uf.members(r));
                }
            }
            assert forall|r: usize| r < n implies #[trigger] self.size@[r as int]
                == self.members(r).len() by {
                if r != s && r != t {
                    assert(self.members(r) == old_uf.members(r));
                }
            }
            assert forall|r: usize| r < n implies (#[trigger] self.members(r)).no_duplicates() by {
                if r != s && r != t {
                    assert(self.members(r) == old_uf.members(r));
                }
            }
        }
    }

    /// One more than the largest identifier the structure can hold.
    pub fn universe_size(&self) -> (n: usize)
        ensures
            n == self.universe(),
    {
        self.group.len()
    }

    /// The live roots, in ascending order.
    pub fn get_items(&self) -> (roots: Vec<usize>)
        requires
            self.wf(),
        ensures
            forall|i: int, j: int| 0 <= i < j < roots.len() ==> roots[i] < roots[j],
            forall|r: usize| #[trigger] self.is_root(r) <==> roots@.contains(r),
            roots@ == self.roots_upto(self.universe()),
            roots@.to_set() == self.root_set(),
            roots@.len() == self.root_set().len(),
            self.root_set().finite(),
    {
        let mut roots: Vec<usize> = Vec::new();
        let mut r: usize = 0;
        while r < self.group.len()
            invariant
                self.wf(),
                r <= self.group.len(),
                forall|i: int, j: int| 0 <= i < j < roots.len() ==> roots[i] < roots[j],
                forall|i: int| 0 <= i < roots.len() ==> roots[i] < r,
                forall|i: int| 0 <= i < roots.len() ==> self.is_root(#[trigger] roots[i]),
                forall|x: usize| x < r && #[trigger] self.is_root(x) ==> roots@.contains(x),
                roots@ == self.roots_upto(r as nat),
            decreases self.group.len() - r,
        {
            let ghost prev = roots@;
            if self.present[r] && self.group[r] == r {
                roots.push(r);
                proof {
                    assert(roots[roots.len() - 1] == r);
                    assert forall|x: usize| prev.contains(x) implies roots@.contains(x) by {
                        let j = prev.index_of(x);
                        assert(roots@[j] == x);
                    }
                }
            }
            r += 1;
        }
        proof {
            assert forall|x: usize| #[trigger] self.is_root(x) <== roots@.contains(x) by {
                if roots@.contains(x) {
                    let j = roots@.index_of(x);
                    assert(self.is_root(roots[j]));
                }
            }
            assert(roots@.to_set() =~= self.root_set());
            assert(roots@.no_duplicates());
            roots@.unique_seq_to_set();
        }
        roots
    }
}

impl ArrayUnion {
    /// The member list of every live cluster, clusters by ascending root.
    pub fn get_partitions(&self) -> (parts: Vec<Vec<usize>>)
        requires
            self.wf(),
        ensures
            parts.len() == self.roots_upto(self.universe()).len(),
            forall|i: int|
                0 <= i < parts.len() ==> (#[trigger] parts[i])@ == self.members(
                    self.roots_upto(self.universe())[i],
                ),
    {
        let roots = self.get_items();
        let mut parts: Vec<Vec<usize>> = Vec::new();
        let mut i: usize = 0;
        while i < roots.len()
            invariant
                self.wf(),
                roots@ == self.roots_upto(self.universe()),
                forall|r: usize| #[trigger] self.is_root(r) <==> roots@.contains(r),
                i <= roots.len(),
                parts.len() == i,
                forall|j: int| 0 <= j < i ==> (#[trigger] parts[j])@ == self.members(roots@[j]),
            decreases roots.len() - i,
        {
            let r = roots[i];
            proof {
                assert(roots@.contains(r));
                assert(self.is_root(r));
                self.lemma_partition();
            }
            let m = self.cluster_members(r);
            let ghost prev = parts@;
            parts.push(m);
            proof {
                assert forall|j: int| 0 <= j < i + 1 implies (#[trigger] parts[j])@ == self.members(
                    roots@[j],
                ) by {
                    if j < i {
                        assert(parts[j] == prev[j]);
                    }
                }
            }
            i += 1;
        }
        parts
    }
}

/// Points every vertex of `moved` at `t`, leaving the other entries alone.
fn relabel(group: &mut Vec<usize>, moved: &Vec<usize>, t: usize)
    requires
        forall|j: int| 0 <= j < moved.len() ==> moved[j] < old(group).len(),
    ensures
        final(group)@.len() == old(group)@.len(),
        forall|y: usize|
            y < old(group)@.len() ==> #[trigger] final(group)@[y as int] == if moved@.contains(y) {
                t
            } else {
                old(group)@[y as int]
            },
{
    let ghost g0 = group@;
    let mut i: usize = 0;
    while i < moved.len()
        invariant
            i <= moved.len(),
            group@.len() == g0.len(),
            forall|j: int| 0 <= j < moved.len() ==> moved[j] < g0.len(),
            forall|y: usize|
                y < g0.len() ==> #[trigger] group@[y as int] == if moved@.subrange(
                    0,
                    i as int,
                ).contains(y) {
                    t
                } else {
                    g0[y as int]
                },
        decreases moved.len() - i,
    {
        let x = moved[i];
        let ghost gprev = group@;
        group.set(x, t);
        proof {
            let prev = moved@.subrange(0, i as int);
            assert(moved@.subrange(0, i + 1) == prev.push(x));
            assert forall|y: usize| y < g0.len() implies (prev.push(x).contains(y) <==> (
            prev.contains(y) || y == x)) by {
                if prev.push(x).contains(y) && y != x {
                    let j = prev.push(x).index_of(y);
                    assert(prev[j] == y);
                }
                if prev.contains(y) {
                    let j = prev.index_of(y);
                    assert(prev.push(x)[j] == y);
                }
                if y == x {
                    assert(prev.push(x)[i as int] == y);
                }
            }
            assert forall|y: usize| y < g0.len() implies #[trigger] group@[y as int] == if moved@.subrange(
                0,
                i + 1,
            ).contains(y) {
                t
            } else {
                g0[y as int]
            } by {
                assert(moved@.subrange(0, i + 1).contains(y) == prev.push(x).contains(y));
                assert(prev.push(x).contains(y) <==> (prev.contains(y) || y == x));
                if y == x {
                    assert(group@[y as int] == t);
                }
                if y != x {
                    assert(group@[y as int] == gprev[y as int]);
                    assert(gprev[y as int] == if prev.contains(y) {
                        t
                    } else {
                        g0[y as int]
                    });
                }
            }
        }
        i += 1;
    }
    proof {
        assert(moved@.subrange(0, moved.len() as int) == moved@);
    }
}

} // verus!
