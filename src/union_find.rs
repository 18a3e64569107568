//! Disjoint-set forests: quick-find, quick-union, weighted quick-union, and
//! weighted quick-union with path halving over a sparse identifier space.
use vstd::prelude::*;
use vstd::arithmetic::power2::{lemma2_to64, lemma_pow2_strictly_increases, lemma_pow2_unfold, pow2};
use vstd::set_lib::{lemma_len_subset, lemma_set_disjoint_lens};
use crate::fnv_map::{FnvMap, fnv_map_get, fnv_map_insert, fnv_map_with_capacity};
use crate::generator::{DefaultGenerator, Generator};

verus! {

broadcast use vstd::set_lib::full_set_properties, vstd::set_lib::lemma_set_subset_finite, vstd::set_lib::range_set_properties;

/// The partition after merging the sets rooted at `a` and `b` under the root `r`:
/// every element whose root was `a` or `b` now has root `r`.
pub open spec fn merge_roots(m: Map<usize, usize>, a: usize, b: usize, r: usize) -> Map<usize, usize> {
    Map::new(|x: usize| m.contains_key(x), |x: usize| if m[x] == a || m[x] == b { r } else { m[x] })
}

/// The elements whose root is `r`.
pub open spec fn class_of(m: Map<usize, usize>, r: usize) -> Set<usize> {
    m.dom().filter(|x: usize| m[x] == r)
}

/// Number of elements in the set rooted at `r`.
pub open spec fn class_size(m: Map<usize, usize>, r: usize) -> nat {
    class_of(m, r).len()
}

/// The root chosen by size: the larger set's root wins, a tie goes to `b`.
pub open spec fn larger_root(m: Map<usize, usize>, a: usize, b: usize) -> usize {
    if class_size(m, a) <= class_size(m, b) { b } else { a }
}

/// Every element of `m` below `size`, and each is its own root.
pub open spec fn singletons(m: Map<usize, usize>, size: nat) -> bool {
    &&& forall|x: usize| #[trigger] m.contains_key(x) <==> (x as nat) < size
    &&& forall|x: usize| (x as nat) < size ==> #[trigger] m[x] == x
}

/// The disjoint-set interface: each element belongs to one set, named by its root.
pub trait UnionFind: Sized {
    spec fn wf(&self) -> bool;

    /// The elements (the domain) and, for each, the root of its set.
    spec fn roots(&self) -> Map<usize, usize>;

    /// The root that `union` keeps when it merges the sets rooted at `a` and `b`.
    spec fn link_root(&self, a: usize, b: usize) -> usize;

    /// The parent of each element; a root is its own parent.
    spec fn parent_links(&self) -> Map<usize, usize>;

    /// The parents that `find(p)` leaves behind.
    spec fn links_after_find(&self, p: usize) -> Map<usize, usize>;

    /// A root is an element, and its own root.
    proof fn lemma_root_is_element(&self, x: usize)
        requires
            self.wf(),
            self.roots().contains_key(x),
        ensures
            self.roots().contains_key(self.roots()[x]),
            self.roots()[self.roots()[x]] == self.roots()[x],
    ;

    /// Merges the sets of `p` and `q`; nothing changes if they are already one set.
    fn union(&mut self, p: usize, q: usize)
        requires
            old(self).wf(),
            old(self).roots().contains_key(p),
            old(self).roots().contains_key(q),
        ensures
            final(self).wf(),
            final(self).roots() == merge_roots(
                old(self).roots(),
                old(self).roots()[p],
                old(self).roots()[q],
                old(self).link_root(old(self).roots()[p], old(self).roots()[q]),
            ),
            old(self).link_root(old(self).roots()[p], old(self).roots()[q]) == old(self).roots()[p]
                || old(self).link_root(old(self).roots()[p], old(self).roots()[q]) == old(self).roots()[q],
    ;

    /// The root of the set of `p`.
    fn find(&mut self, p: usize) -> (r: usize)
        requires
            old(self).wf(),
            old(self).roots().contains_key(p),
        ensures
            final(self).wf(),
            final(self).roots() == old(self).roots(),
            forall|a: usize, b: usize| #[trigger] final(self).link_root(a, b) == old(self).link_root(a, b),
            r == old(self).roots()[p],
            final(self).parent_links() == old(self).links_after_find(p),
    ;

    /// Whether `p` and `q` are in one set.
    fn connected(&mut self, p: usize, q: usize) -> (r: bool)
        requires
            old(self).wf(),
            old(self).roots().contains_key(p),
            old(self).roots().contains_key(q),
        ensures
            final(self).wf(),
            final(self).roots() == old(self).roots(),
            forall|a: usize, b: usize| #[trigger] final(self).link_root(a, b) == old(self).link_root(a, b),
            r == (old(self).roots()[p] == old(self).roots()[q]),
    {
        let a = self.find(p);
        let b = self.find(q);
        a == b
    }
}

/// What `union(p, q)` leaves as the roots of `u`.
pub open spec fn union_roots<U: UnionFind>(u: U, p: usize, q: usize) -> Map<usize, usize> {
    let a = u.roots()[p];
    let b = u.roots()[q];
    merge_roots(u.roots(), a, b, u.link_root(a, b))
}

/// After `union(p, q)`, `p` and `q` are connected.
pub proof fn law_union_connects<U: UnionFind>(u: U, p: usize, q: usize)
    requires
        u.roots().contains_key(p),
        u.roots().contains_key(q),
    ensures
        union_roots(u, p, q)[p] == union_roots(u, p, q)[q],
{
}

/// A union never separates elements that were connected before it.
pub proof fn law_union_keeps_connections<U: UnionFind>(u: U, p: usize, q: usize, x: usize, y: usize)
    requires
        u.roots().contains_key(x),
        u.roots().contains_key(y),
        u.roots()[x] == u.roots()[y],
    ensures
        union_roots(u, p, q)[x] == union_roots(u, p, q)[y],
{
}

/// Connection is transitive across unions: after `union(p, q)` and then
/// `union(q, s)`, `p` and `s` are connected.
pub proof fn law_union_transitive<U: UnionFind>(u0: U, u1: U, p: usize, q: usize, s: usize)
    requires
        u0.roots().contains_key(p),
        u0.roots().contains_key(q),
        u0.roots().contains_key(s),
        u1.roots() == union_roots(u0, p, q),
    ensures
        union_roots(u1, q, s)[p] == union_roots(u1, q, s)[s],
{
    law_union_connects(u0, p, q);
}

/// Parent pointers `parent` form a forest whose roots are `roots`, ranked
/// strictly upward along each path.
pub open spec fn is_forest(parent: Map<usize, usize>, roots: Map<usize, usize>, rank: Map<usize, nat>, bound: nat) -> bool {
    &&& parent.dom() == roots.dom()
    &&& rank.dom() == roots.dom()
    &&& forest_links(parent, roots, rank, bound)
}

#[verifier::opaque]
pub open spec fn forest_links(parent: Map<usize, usize>, roots: Map<usize, usize>, rank: Map<usize, nat>, bound: nat) -> bool {
    forall|x: usize| #[trigger] roots.contains_key(x) ==> {
        &&& roots.contains_key(parent[x])
        &&& roots.contains_key(roots[x])
        &&& roots[parent[x]] == roots[x]
        &&& parent[roots[x]] == roots[x]
        &&& (parent[x] == x ==> roots[x] == x)
        &&& (parent[x] != x ==> rank[x] < rank[parent[x]])
        &&& rank[x] <= bound
    }
}

/// One step toward the root stays in the same set and climbs in rank.
proof fn lemma_forest_step(parent: Map<usize, usize>, roots: Map<usize, usize>, rank: Map<usize, nat>, bound: nat, x: usize)
    requires
        is_forest(parent, roots, rank, bound),
        roots.contains_key(x),
    ensures
        roots.contains_key(parent[x]),
        roots.contains_key(roots[x]),
        roots[parent[x]] == roots[x],
        parent[roots[x]] == roots[x],
        roots[roots[x]] == roots[x],
        parent[x] == x ==> roots[x] == x,
        parent[x] != x ==> rank[x] < rank[parent[x]],
        rank[x] <= bound,
        rank[parent[x]] <= bound,
{
    reveal(forest_links);
    assert(roots.contains_key(parent[x]));
    assert(roots.contains_key(roots[x]));
}

/// Path halving from `x`: while `x` is not a root, point `x` at its
/// grandparent and go on from there (at most `fuel` steps).
pub open spec fn halved(parent: Map<usize, usize>, x: usize, fuel: nat) -> Map<usize, usize>
    decreases fuel,
{
    if fuel == 0 || parent[x] == x {
        parent
    } else {
        halved(parent.insert(x, parent[parent[x]]), parent[parent[x]], (fuel - 1) as nat)
    }
}

/// Enough fuel for path halving to reach the root gives the same result.
proof fn lemma_halved_fuel(
    parent: Map<usize, usize>,
    roots: Map<usize, usize>,
    rank: Map<usize, nat>,
    bound: nat,
    x: usize,
    f1: nat,
    f2: nat,
)
    requires
        is_forest(parent, roots, rank, bound),
        roots.contains_key(x),
        f1 >= bound - rank[x] + 1,
        f2 >= bound - rank[x] + 1,
    ensures
        halved(parent, x, f1) == halved(parent, x, f2),
    decreases f1,
{
    lemma_forest_step(parent, roots, rank, bound, x);
    if parent[x] != x {
        let y = parent[x];
        let g = parent[y];
        lemma_forest_step(parent, roots, rank, bound, y);
        lemma_halve(parent, roots, rank, bound, x);
        lemma_halved_fuel(parent.insert(x, g), roots, rank, bound, g, (f1 - 1) as nat, (f2 - 1) as nat);
    }
}

/// Following `k` parent links from `x`, through non-roots only, lands on `y`.
pub open spec fn walks(parent: Map<usize, usize>, x: usize, y: usize, k: nat) -> bool
    decreases k,
{
    if k == 0 {
        x == y
    } else {
        parent[x] != x && walks(parent, parent[x], y, (k - 1) as nat)
    }
}

/// Each step of a walk climbs in rank.
proof fn lemma_walk_rank(
    parent: Map<usize, usize>,
    roots: Map<usize, usize>,
    rank: Map<usize, nat>,
    bound: nat,
    x: usize,
    y: usize,
    k: nat,
)
    requires
        is_forest(parent, roots, rank, bound),
        roots.contains_key(x),
        walks(parent, x, y, k),
    ensures
        roots.contains_key(y),
        rank[y] >= rank[x] + k,
    decreases k,
{
    if k > 0 {
        lemma_forest_step(parent, roots, rank, bound, x);
        lemma_walk_rank(parent, roots, rank, bound, parent[x], y, (k - 1) as nat);
    }
}

/// Hanging the smaller tree under the larger keeps `2^rank` within the size.
proof fn lemma_link_rank_pow2(rank: Map<usize, nat>, l: usize, w: usize, cl: nat, cw: nat)
    requires
        pow2(rank[l]) <= cl,
        pow2(rank[w]) <= cw,
        cl <= cw,
    ensures
        pow2(link_rank(rank, l, w)) <= cl + cw,
{
    if !(rank[w] > rank[l]) {
        lemma_pow2_unfold(rank[l] + 1);
    }
}

pub open spec fn link_rank(rank: Map<usize, nat>, a: usize, b: usize) -> nat {
    if rank[b] > rank[a] { rank[b] } else { rank[a] + 1 }
}

/// Attaching root `a` under root `b` keeps a forest.
proof fn lemma_link(parent: Map<usize, usize>, roots: Map<usize, usize>, rank: Map<usize, nat>, bound: nat, a: usize, b: usize)
    requires
        is_forest(parent, roots, rank, bound),
        roots.contains_key(a),
        roots.contains_key(b),
        roots[a] == a,
        roots[b] == b,
        a != b,
    ensures
        is_forest(parent.insert(a, b), merge_roots(roots, a, b, b), rank.insert(b, link_rank(rank, a, b)), bound + 1),
{
    reveal(forest_links);
    let parent2 = parent.insert(a, b);
    let roots2 = merge_roots(roots, a, b, b);
    let rank2 = rank.insert(b, link_rank(rank, a, b));
    assert(parent2.dom() =~= roots2.dom());
    assert(rank2.dom() =~= roots2.dom());
    assert forall|x: usize| #[trigger] roots2.contains_key(x) implies {
        &&& roots2.contains_key(parent2[x])
        &&& roots2.contains_key(roots2[x])
        &&& roots2[parent2[x]] == roots2[x]
        &&& parent2[roots2[x]] == roots2[x]
        &&& (parent2[x] == x ==> roots2[x] == x)
        &&& (parent2[x] != x ==> rank2[x] < rank2[parent2[x]])
        &&& rank2[x] <= bound + 1
    } by {
        assert(roots.contains_key(x));
        assert(roots.contains_key(parent[x]));
        assert(parent[a] == a);
        assert(parent[b] == b);
    }
}

/// Pointing `x` at its grandparent keeps a forest with the same roots.
proof fn lemma_halve(parent: Map<usize, usize>, roots: Map<usize, usize>, rank: Map<usize, nat>, bound: nat, x: usize)
    requires
        is_forest(parent, roots, rank, bound),
        roots.contains_key(x),
    ensures
        is_forest(parent.insert(x, parent[parent[x]]), roots, rank, bound),
{
    reveal(forest_links);
    let parent2 = parent.insert(x, parent[parent[x]]);
    assert(parent2.dom() =~= roots.dom());
    assert(roots.contains_key(parent[x]));
    assert forall|y: usize| #[trigger] roots.contains_key(y) implies {
        &&& roots.contains_key(parent2[y])
        &&& roots.contains_key(roots[y])
        &&& roots[parent2[y]] == roots[y]
        &&& parent2[roots[y]] == roots[y]
        &&& (parent2[y] == y ==> roots[y] == y)
        &&& (parent2[y] != y ==> rank[y] < rank[parent2[y]])
        &&& rank[y] <= bound
    } by {
        assert(roots.contains_key(parent[y]));
    }
}

/// Merging two distinct sets adds their sizes and leaves the other sets alone.
proof fn lemma_merge_sizes(m: Map<usize, usize>, a: usize, b: usize, r: usize)
    requires
        m.dom().finite(),
        a != b,
        r == a || r == b,
    ensures
        class_size(merge_roots(m, a, b, r), r) == class_size(m, a) + class_size(m, b),
        class_size(m, a) + class_size(m, b) <= m.dom().len(),
        forall|c: usize| c != a && c != b ==> #[trigger] class_of(merge_roots(m, a, b, r), c) == class_of(m, c),
{
    let m2 = merge_roots(m, a, b, r);
    assert(class_of(m2, r) =~= class_of(m, a).union(class_of(m, b)));
    lemma_set_disjoint_lens(class_of(m, a), class_of(m, b));
    lemma_len_subset(class_of(m, a).union(class_of(m, b)), m.dom());
    assert forall|c: usize| c != a && c != b implies #[trigger] class_of(m2, c) == class_of(m, c) by {
        assert(class_of(m2, c) =~= class_of(m, c));
    }
}

/// With nothing merged yet, each set holds its root alone.
proof fn lemma_singleton_class(m: Map<usize, usize>, x: usize)
    requires
        m.contains_key(x),
        forall|y: usize| #[trigger] m.contains_key(y) ==> m[y] == y,
    ensures
        class_size(m, x) == 1,
{
    assert(class_of(m, x) =~= Set::empty().insert(x));
}

pub open spec fn parent_map(v: Seq<usize>) -> Map<usize, usize> {
    Map::new(|i: usize| (i as int) < v.len(), |i: usize| v[i as int])
}

/// Each element stores the root of its set directly.
pub struct QuickFind {
    points: Vec<usize>,
}

impl QuickFind {

    /// `size` elements `0..size`, each in a set of its own.
    pub fn new(size: usize) -> (r: QuickFind)
        ensures
            r.wf(),
            singletons(r.roots(), size as nat),
    {
        let mut vec: Vec<usize> = Vec::with_capacity(size);
        let mut p: usize = 0;
        while p < size
            invariant
                p <= size,
                vec@.len() == p,
                forall|i: int| 0 <= i < p ==> vec@[i] == i,
            decreases size - p,
        {
            vec.push(p);
            p = p + 1;
        }
        QuickFind { points: vec }
    }
}

impl UnionFind for QuickFind {
    closed spec fn wf(&self) -> bool {
        forall|i: int| 0 <= i < self.points@.len() ==> {
            &&& (#[trigger] self.points@[i] as int) < self.points@.len()
            &&& self.points@[self.points@[i] as int] == self.points@[i]
        }
    }

    closed spec fn roots(&self) -> Map<usize, usize> {
        parent_map(self.points@)
    }

    open spec fn link_root(&self, a: usize, b: usize) -> usize {
        b
    }

    closed spec fn parent_links(&self) -> Map<usize, usize> {
        parent_map(self.points@)
    }

    /// `find` changes no parent.
    closed spec fn links_after_find(&self, p: usize) -> Map<usize, usize> {
        parent_map(self.points@)
    }

    proof fn lemma_root_is_element(&self, x: usize) {
        assert((self.points@[x as int] as int) < self.points@.len());
    }

    fn union(&mut self, p: usize, q: usize) {
        let ghost old_points = self.points@;
        let p_root = self.points[p];
        let q_root = self.points[q];
        let n = self.points.len();
        let mut i: usize = 0;
        while i < n
            invariant
                n == self.points@.len(),
                n == old_points.len(),
                i <= n,
                (p_root as int) < n,
                (q_root as int) < n,
                old_points[q_root as int] == q_root,
                forall|j: int| 0 <= j < i ==> #[trigger] self.points@[j] == (if old_points[j] == p_root { q_root } else { old_points[j] }),
                forall|j: int| i <= j < n ==> #[trigger] self.points@[j] == old_points[j],
            decreases n - i,
        {
            if self.points[i] == p_root {
                self.points.set(i, q_root);
            }
            i = i + 1;
        }
        proof {
            let m0 = parent_map(old_points);
            assert(self.roots() =~= merge_roots(m0, p_root, q_root, q_root));
            assert forall|i: int| 0 <= i < self.points@.len() implies {
                &&& (#[trigger] self.points@[i] as int) < self.points@.len()
                &&& self.points@[self.points@[i] as int] == self.points@[i]
            } by {
                assert((old_points[i] as int) < n);
                assert(old_points[old_points[i] as int] == old_points[i]);
            }
        }
    }

    fn find(&mut self, p: usize) -> (r: usize) {
        assert(self.links_after_find(p) == self.parent_links());
        self.points[p]
    }
}

/// Each element stores a parent; following parents leads to the root.
pub struct QuickUnion {
    points: Vec<usize>,
    roots: Ghost<Map<usize, usize>>,
    rank: Ghost<Map<usize, nat>>,
    bound: Ghost<nat>,
}

impl QuickUnion {
    /// `size` elements `0..size`, each in a set of its own.
    pub fn new(size: usize) -> (r: QuickUnion)
        ensures
            r.wf(),
            singletons(r.roots(), size as nat),
    {
        let mut vec: Vec<usize> = Vec::with_capacity(size);
        let mut p: usize = 0;
        while p < size
            invariant
                p <= size,
                vec@.len() == p,
                forall|i: int| 0 <= i < p ==> vec@[i] == i,
            decreases size - p,
        {
            vec.push(p);
            p = p + 1;
        }
        let ghost roots = parent_map(vec@);
        let ghost rank = Map::new(|i: usize| (i as int) < vec@.len(), |i: usize| 0nat);
        assert(rank.dom() =~= roots.dom());
        proof {
            reveal(forest_links);
        }
        QuickUnion { points: vec, roots: Ghost(roots), rank: Ghost(rank), bound: Ghost(0) }
    }

    fn root(&self, p: usize) -> (r: usize)
        requires
            self.wf(),
            self.roots().contains_key(p),
        ensures
            r == self.roots()[p],
            self.roots().contains_key(r),
            self.roots()[r] == r,
    {
        let mut point = p;
        while point != self.points[point]
            invariant
                self.wf(),
                self.roots@.contains_key(point),
                self.roots@[point] == self.roots@[p],
            decreases self.bound@ - self.rank@[point],
        {
            proof {
                lemma_forest_step(parent_map(self.points@), self.roots@, self.rank@, self.bound@, point);
            }
            point = self.points[point];
        }
        proof {
            lemma_forest_step(parent_map(self.points@), self.roots@, self.rank@, self.bound@, point);
        }
        point
    }
}

impl UnionFind for QuickUnion {
    closed spec fn wf(&self) -> bool {
        is_forest(parent_map(self.points@), self.roots@, self.rank@, self.bound@)
    }

    closed spec fn roots(&self) -> Map<usize, usize> {
        self.roots@
    }

    open spec fn link_root(&self, a: usize, b: usize) -> usize {
        b
    }

    closed spec fn parent_links(&self) -> Map<usize, usize> {
        parent_map(self.points@)
    }

    /// `find` changes no parent.
    closed spec fn links_after_find(&self, p: usize) -> Map<usize, usize> {
        parent_map(self.points@)
    }

    proof fn lemma_root_is_element(&self, x: usize) {
        lemma_forest_step(parent_map(self.points@), self.roots@, self.rank@, self.bound@, x);
    }

    fn union(&mut self, p: usize, q: usize) {
        let p_root = self.root(p);
        let q_root = self.root(q);
        if p_root != q_root {
            proof {
                lemma_link(parent_map(self.points@), self.roots@, self.rank@, self.bound@, p_root, q_root);
            }
            let ghost parents = parent_map(self.points@);
            self.points.set(p_root, q_root);
            assert(parent_map(self.points@) =~= parents.insert(p_root, q_root));
            self.rank = Ghost(self.rank@.insert(q_root, link_rank(self.rank@, p_root, q_root)));
            self.roots = Ghost(merge_roots(self.roots@, p_root, q_root, q_root));
            self.bound = Ghost(self.bound@ + 1);
        } else {
            assert(self.roots@ =~= merge_roots(self.roots@, p_root, q_root, q_root));
        }
    }

    fn find(&mut self, p: usize) -> (r: usize) {
        assert(self.links_after_find(p) == self.parent_links());
        self.root(p)
    }
}

/// Quick-union that hangs the smaller tree under the larger one.
pub struct WeightedQuickUnion {
    points: Vec<usize>,
    sizes: Vec<usize>,
    roots: Ghost<Map<usize, usize>>,
    rank: Ghost<Map<usize, nat>>,
    bound: Ghost<nat>,
}

impl WeightedQuickUnion {
    /// `size` elements `0..size`, each in a set of its own.
    pub fn new(size: usize) -> (r: WeightedQuickUnion)
        ensures
            r.wf(),
            singletons(r.roots(), size as nat),
    {
        let mut vec: Vec<usize> = Vec::with_capacity(size);
        let mut sizes: Vec<usize> = Vec::with_capacity(size);
        let mut p: usize = 0;
        while p < size
            invariant
                p <= size,
                vec@.len() == p,
                sizes@.len() == p,
                forall|i: int| 0 <= i < p ==> vec@[i] == i,
                forall|i: int| 0 <= i < p ==> sizes@[i] == 1,
            decreases size - p,
        {
            vec.push(p);
            sizes.push(1);
            p = p + 1;
        }
        let ghost roots = parent_map(vec@);
        let ghost rank = Map::new(|i: usize| (i as int) < vec@.len(), |i: usize| 0nat);
        assert(rank.dom() =~= roots.dom());
        proof {
            reveal(forest_links);
        }
        assert forall|x: usize| #[trigger] roots.contains_key(x) && roots[x] == x implies sizes@[x as int] as nat == class_size(roots, x) by {
            lemma_singleton_class(roots, x);
        }
        proof {
            lemma2_to64();
        }
        assert forall|x: usize| #[trigger] roots.contains_key(x) && roots[x] == x implies pow2(rank[x]) <= class_size(roots, x) by {
            lemma_singleton_class(roots, x);
        }
        WeightedQuickUnion { points: vec, sizes, roots: Ghost(roots), rank: Ghost(rank), bound: Ghost(0) }
    }

    fn root(&self, p: usize) -> (r: usize)
        requires
            self.wf(),
            self.roots().contains_key(p),
        ensures
            r == self.roots()[p],
            self.roots().contains_key(r),
            self.roots()[r] == r,
    {
        let mut point = p;
        while point != self.points[point]
            invariant
                self.wf(),
                self.roots@.contains_key(point),
                self.roots@[point] == self.roots@[p],
            decreases self.bound@ - self.rank@[point],
        {
            proof {
                lemma_forest_step(parent_map(self.points@), self.roots@, self.rank@, self.bound@, point);
            }
            point = self.points[point];
        }
        proof {
            lemma_forest_step(parent_map(self.points@), self.roots@, self.rank@, self.bound@, point);
        }
        point
    }

    /// Trees stay shallow: if `find` reaches the root of `x` after `k` parent
    /// links, then 2^k is at most the size of the set of `x` (so `k` is at most
    /// log2 of the number of elements).
    pub proof fn lemma_find_path_short(&self, x: usize, k: nat)
        requires
            self.wf(),
            self.roots().contains_key(x),
            walks(self.parent_links(), x, self.roots()[x], k),
        ensures
            pow2(k) <= class_size(self.roots(), self.roots()[x]),
            class_size(self.roots(), self.roots()[x]) <= self.roots().dom().len(),
    {
        let parent = parent_map(self.points@);
        let r = self.roots@[x];
        lemma_walk_rank(parent, self.roots@, self.rank@, self.bound@, x, r, k);
        lemma_forest_step(parent, self.roots@, self.rank@, self.bound@, x);
        if k < self.rank@[r] {
            lemma_pow2_strictly_increases(k, self.rank@[r]);
        }
        assert(self.roots@.dom().subset_of(Set::<usize>::full()));
        assert(self.roots@.dom().finite());
        lemma_len_subset(class_of(self.roots@, r), self.roots@.dom());
    }
}

impl UnionFind for WeightedQuickUnion {
    closed spec fn wf(&self) -> bool {
        &&& is_forest(parent_map(self.points@), self.roots@, self.rank@, self.bound@)
        &&& self.sizes@.len() == self.points@.len()
        &&& forall|x: usize| #[trigger] self.roots@.contains_key(x) && self.roots@[x] == x
            ==> self.sizes@[x as int] as nat == class_size(self.roots@, x)
        &&& forall|x: usize| #[trigger] self.roots@.contains_key(x) && self.roots@[x] == x
            ==> pow2(self.rank@[x]) <= class_size(self.roots@, x)
    }

    closed spec fn roots(&self) -> Map<usize, usize> {
        self.roots@
    }

    open spec fn link_root(&self, a: usize, b: usize) -> usize {
        larger_root(self.roots(), a, b)
    }

    closed spec fn parent_links(&self) -> Map<usize, usize> {
        parent_map(self.points@)
    }

    /// `find` changes no parent.
    closed spec fn links_after_find(&self, p: usize) -> Map<usize, usize> {
        parent_map(self.points@)
    }

    proof fn lemma_root_is_element(&self, x: usize) {
        lemma_forest_step(parent_map(self.points@), self.roots@, self.rank@, self.bound@, x);
    }

    fn union(&mut self, p: usize, q: usize) {
        let p_root = self.root(p);
        let q_root = self.root(q);
        if p_root == q_root {
            assert(self.roots@ =~= merge_roots(self.roots@, p_root, q_root, q_root));
            return;
        }
        let ghost roots = self.roots@;
        let ghost parents = parent_map(self.points@);
        proof {
            lemma_forest_step(parents, roots, self.rank@, self.bound@, p);
            lemma_forest_step(parents, roots, self.rank@, self.bound@, q);
        }
        let n = self.points.len();
        assert(roots.dom() =~= Set::<usize>::range(0, n));
        let p_size = self.sizes[p_root];
        let q_size = self.sizes[q_root];
        let ghost rank0 = self.rank@;
        if p_size <= q_size {
            proof {
                lemma_link(parents, roots, self.rank@, self.bound@, p_root, q_root);
                lemma_merge_sizes(roots, p_root, q_root, q_root);
                lemma_link_rank_pow2(rank0, p_root, q_root, class_size(roots, p_root), class_size(roots, q_root));
            }
            self.points.set(p_root, q_root);
            self.sizes.set(q_root, p_size + q_size);
            assert(parent_map(self.points@) =~= parents.insert(p_root, q_root));
            self.rank = Ghost(self.rank@.insert(q_root, link_rank(self.rank@, p_root, q_root)));
            self.roots = Ghost(merge_roots(roots, p_root, q_root, q_root));
        } else {
            proof {
                lemma_link(parents, roots, self.rank@, self.bound@, q_root, p_root);
                lemma_merge_sizes(roots, p_root, q_root, p_root);
                assert(merge_roots(roots, q_root, p_root, p_root) =~= merge_roots(roots, p_root, q_root, p_root));
                lemma_link_rank_pow2(rank0, q_root, p_root, class_size(roots, q_root), class_size(roots, p_root));
            }
            self.points.set(q_root, p_root);
            self.sizes.set(p_root, p_size + q_size);
            assert(parent_map(self.points@) =~= parents.insert(q_root, p_root));
            self.rank = Ghost(self.rank@.insert(p_root, link_rank(self.rank@, q_root, p_root)));
            self.roots = Ghost(merge_roots(roots, p_root, q_root, p_root));
        }
        self.bound = Ghost(self.bound@ + 1);
        assert forall|x: usize| #[trigger] self.roots@.contains_key(x) && self.roots@[x] == x
            implies self.sizes@[x as int] as nat == class_size(self.roots@, x) by {
            assert(roots.contains_key(x));
        }
        assert forall|x: usize| #[trigger] self.roots@.contains_key(x) && self.roots@[x] == x
            implies pow2(self.rank@[x]) <= class_size(self.roots@, x) by {
            assert(roots.contains_key(x));
            if x != p_root && x != q_root {
                assert(self.rank@[x] == rank0[x]);
                assert(roots[x] == x);
            }
        }
    }

    fn find(&mut self, p: usize) -> (r: usize) {
        assert(self.links_after_find(p) == self.parent_links());
        self.root(p)
    }
}

/// Weighted quick-union over any set of `usize` identifiers, held in hash maps,
/// whose `find` halves the path it walks.
pub struct PathCompressionWeightedQuickUnion {
    points: FnvMap<usize>,
    sizes: FnvMap<usize>,
    roots: Ghost<Map<usize, usize>>,
    rank: Ghost<Map<usize, nat>>,
    bound: Ghost<nat>,
}

impl PathCompressionWeightedQuickUnion {
    /// `size` elements `0..size`, each in a set of its own.
    pub fn new(size: usize) -> (r: PathCompressionWeightedQuickUnion)
        ensures
            r.wf(),
            singletons(r.roots(), size as nat),
    {
        let mut generator = DefaultGenerator::new();
        let ghost g0 = generator;
        let r = PathCompressionWeightedQuickUnion::with_generator(size, &mut generator);
        assert forall|x: usize| r.roots().contains_key(x) <==> (x as nat) < size by {
            if (x as nat) < size {
                assert(x == g0.nth(x as nat));
            }
        }
        assert forall|x: usize| (x as nat) < size implies #[trigger] r.roots()[x] == x by {
            assert(x == g0.nth(x as nat));
            assert(r.roots().contains_key(x));
        }
        r
    }

    /// The next `size` values of `generator` as elements, each in a set of its own.
    pub fn with_generator<G: Generator>(size: usize, generator: &mut G) -> (r: PathCompressionWeightedQuickUnion)
        requires
            old(generator).can_yield(size as nat),
        ensures
            r.wf(),
            forall|x: usize| r.roots().contains_key(x) <==> exists|k: nat| k < size && x == #[trigger] old(generator).nth(k),
            forall|x: usize| #[trigger] r.roots().contains_key(x) ==> r.roots()[x] == x,
            forall|k: nat| #[trigger] final(generator).nth(k) == old(generator).nth((k + size) as nat),
            forall|k: nat| old(generator).can_yield((k + size) as nat) ==> #[trigger] final(generator).can_yield(k),
    {
        let ghost g0 = *generator;
        let mut sizes: FnvMap<usize> = fnv_map_with_capacity(size);
        let mut points: FnvMap<usize> = fnv_map_with_capacity(size);
        let ghost mut roots: Map<usize, usize> = Map::empty();
        let ghost mut rank: Map<usize, nat> = Map::empty();
        let mut i: usize = 0;
        while i < size
            invariant
                i <= size,
                g0.can_yield(size as nat),
                forall|k: nat| #[trigger] generator.nth(k) == g0.nth((k + i) as nat),
                forall|k: nat| g0.can_yield((k + i) as nat) ==> #[trigger] generator.can_yield(k),
                forall|x: usize| roots.contains_key(x) <==> exists|k: nat| k < i && x == #[trigger] g0.nth(k),
                forall|x: usize| #[trigger] roots.contains_key(x) ==> roots[x] == x && rank[x] == 0 && sizes@[x] == 1,
                points@ == roots,
                sizes@.dom() == roots.dom(),
                rank.dom() == roots.dom(),
                roots.dom().finite(),
                roots.dom().len() <= i,
            decreases size - i,
        {
            proof {
                g0.lemma_can_yield_fewer((i + 1) as nat, size as nat);
                assert(g0.can_yield((1 + i) as nat) ==> generator.can_yield(1));
            }
            let ghost g_prev = *generator;
            let n = generator.next();
            proof {
                assert(n == g0.nth(i as nat));
                assert forall|k: nat| #[trigger] generator.nth(k) == g0.nth((k + (i + 1)) as nat) by {
                    assert(generator.nth(k) == g_prev.nth((k + 1) as nat));
                    assert(g_prev.nth((k + 1) as nat) == g0.nth((k + 1 + i) as nat));
                }
                assert forall|k: nat| g0.can_yield((k + (i + 1)) as nat) implies #[trigger] generator.can_yield(k) by {
                    assert(g0.can_yield((k + 1 + i) as nat) ==> g_prev.can_yield((k + 1) as nat));
                    assert(g_prev.can_yield((k + 1) as nat) ==> generator.can_yield(k));
                }
            }
            fnv_map_insert(&mut points, n, n);
            fnv_map_insert(&mut sizes, n, 1);
            proof {
                assert(roots.insert(n, n).dom() == roots.dom().insert(n));
                roots = roots.insert(n, n);
                rank = rank.insert(n, 0);
            }
            i = i + 1;
        }
        proof {
            reveal(forest_links);
            assert forall|x: usize| #[trigger] roots.contains_key(x) && roots[x] == x implies sizes@[x] as nat == class_size(roots, x) by {
                lemma_singleton_class(roots, x);
            }
        }
        PathCompressionWeightedQuickUnion { points, sizes, roots: Ghost(roots), rank: Ghost(rank), bound: Ghost(0) }
    }
}

impl UnionFind for PathCompressionWeightedQuickUnion {
    closed spec fn wf(&self) -> bool {
        &&& is_forest(self.points@, self.roots@, self.rank@, self.bound@)
        &&& self.sizes@.dom() == self.roots@.dom()
        &&& self.roots@.dom().finite()
        &&& self.roots@.dom().len() <= usize::MAX
        &&& forall|x: usize| #[trigger] self.roots@.contains_key(x) && self.roots@[x] == x
            ==> self.sizes@[x] as nat == class_size(self.roots@, x)
    }

    closed spec fn roots(&self) -> Map<usize, usize> {
        self.roots@
    }

    open spec fn link_root(&self, a: usize, b: usize) -> usize {
        larger_root(self.roots(), a, b)
    }

    closed spec fn parent_links(&self) -> Map<usize, usize> {
        self.points@
    }

    /// `find` halves the path from `p`: each node it visits now points to its
    /// grandparent.
    closed spec fn links_after_find(&self, p: usize) -> Map<usize, usize> {
        halved(self.points@, p, (self.bound@ - self.rank@[p] + 1) as nat)
    }

    proof fn lemma_root_is_element(&self, x: usize) {
        lemma_forest_step(self.points@, self.roots@, self.rank@, self.bound@, x);
    }

    fn union(&mut self, p: usize, q: usize) {
        let p_root = self.find(p);
        let q_root = self.find(q);
        let ghost roots = self.roots@;
        let ghost parents = self.points@;
        proof {
            lemma_forest_step(parents, roots, self.rank@, self.bound@, p);
            lemma_forest_step(parents, roots, self.rank@, self.bound@, q);
        }
        if p_root == q_root {
            assert(self.roots@ =~= merge_roots(self.roots@, p_root, q_root, q_root));
            return;
        }
        let p_size = fnv_map_get(&self.sizes, p_root);
        let q_size = fnv_map_get(&self.sizes, q_root);
        if p_size <= q_size {
            proof {
                lemma_link(parents, roots, self.rank@, self.bound@, p_root, q_root);
                lemma_merge_sizes(roots, p_root, q_root, q_root);
            }
            fnv_map_insert(&mut self.points, p_root, q_root);
            fnv_map_insert(&mut self.sizes, q_root, p_size + q_size);
            self.rank = Ghost(self.rank@.insert(q_root, link_rank(self.rank@, p_root, q_root)));
            self.roots = Ghost(merge_roots(roots, p_root, q_root, q_root));
        } else {
            proof {
                lemma_link(parents, roots, self.rank@, self.bound@, q_root, p_root);
                lemma_merge_sizes(roots, p_root, q_root, p_root);
                assert(merge_roots(roots, q_root, p_root, p_root) =~= merge_roots(roots, p_root, q_root, p_root));
            }
            fnv_map_insert(&mut self.points, q_root, p_root);
            fnv_map_insert(&mut self.sizes, p_root, p_size + q_size);
            self.rank = Ghost(self.rank@.insert(p_root, link_rank(self.rank@, q_root, p_root)));
            self.roots = Ghost(merge_roots(roots, p_root, q_root, p_root));
        }
        self.bound = Ghost(self.bound@ + 1);
        assert(self.sizes@.dom() =~= self.roots@.dom());
        assert(self.roots@.dom() =~= roots.dom());
        assert forall|x: usize| #[trigger] self.roots@.contains_key(x) && self.roots@[x] == x
            implies self.sizes@[x] as nat == class_size(self.roots@, x) by {
            assert(roots.contains_key(x));
        }
    }

    fn find(&mut self, p: usize) -> (r: usize) {
        let ghost target = self.links_after_find(p);
        let mut point = p;
        while fnv_map_get(&self.points, point) != point
            invariant
                self.wf(),
                self.roots@ == old(self).roots@,
                self.rank@ == old(self).rank@,
                self.bound@ == old(self).bound@,
                self.sizes@ == old(self).sizes@,
                self.roots@.contains_key(point),
                self.roots@[point] == self.roots@[p],
                halved(self.points@, point, (self.bound@ - self.rank@[point] + 1) as nat)
                    == halved(old(self).points@, p, (self.bound@ - self.rank@[p] + 1) as nat),
            decreases self.bound@ - self.rank@[point],
        {
            let ghost parents = self.points@;
            let parent = fnv_map_get(&self.points, point);
            proof {
                lemma_forest_step(parents, self.roots@, self.rank@, self.bound@, point);
                lemma_forest_step(parents, self.roots@, self.rank@, self.bound@, parent);
                lemma_halve(parents, self.roots@, self.rank@, self.bound@, point);
            }
            let grand = fnv_map_get(&self.points, parent);
            fnv_map_insert(&mut self.points, point, grand);
            proof {
                let f = (self.bound@ - self.rank@[point] + 1) as nat;
                assert(halved(parents, point, f) == halved(self.points@, grand, (f - 1) as nat));
                lemma_forest_step(parents, self.roots@, self.rank@, self.bound@, grand);
                lemma_halved_fuel(
                    self.points@,
                    self.roots@,
                    self.rank@,
                    self.bound@,
                    grand,
                    (f - 1) as nat,
                    (self.bound@ - self.rank@[grand] + 1) as nat,
                );
            }
            point = grand;
        }
        proof {
            lemma_forest_step(self.points@, self.roots@, self.rank@, self.bound@, point);
            assert(self.parent_links() == target);
        }
        point
    }
}

} // verus!
